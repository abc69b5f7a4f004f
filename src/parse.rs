use vstd::prelude::*;

use crate::grid::Grid;

verus! {

/// A word and its weight, as read from a `text,weight` token.
#[derive(Debug, Eq, PartialEq)]
pub struct TextWeight<'a>(pub &'a str, pub u32);

/// The input is not a space-separated list of `text,weight` tokens whose
/// weights fit in a `u32`.
#[derive(Clone, Copy, Debug, PartialEq, Eq, Structural)]
pub struct ParseError;

/// An ASCII letter.
pub open spec fn is_letter(c: char) -> bool {
    ('a' <= c && c <= 'z') || ('A' <= c && c <= 'Z')
}

/// An ASCII decimal digit.
pub open spec fn is_digit(c: char) -> bool {
    '0' <= c && c <= '9'
}

/// The value of a decimal digit.
pub open spec fn digit_value(c: char) -> nat {
    (c as int - '0' as int) as nat
}

/// The first index at or after `i` whose character fails `p`, or the end.
pub open spec fn run_end(s: Seq<char>, i: int, p: spec_fn(char) -> bool) -> int
    decreases s.len() - i,
{
    if 0 <= i < s.len() && p(s[i]) {
        run_end(s, i + 1, p)
    } else {
        i
    }
}

/// A character that a token may hold: a letter, a digit or a comma.
pub open spec fn is_token_char(c: char) -> bool {
    is_letter(c) || is_digit(c) || c == ','
}

/// The end of the run of letters that starts at `i`.
pub open spec fn letters_end(s: Seq<char>, i: int) -> int {
    run_end(s, i, |c: char| is_letter(c))
}

/// The end of the run of digits that starts at `i`.
pub open spec fn digits_end(s: Seq<char>, i: int) -> int {
    run_end(s, i, |c: char| is_digit(c))
}

/// The number that the digits `s[lo..hi]` write in decimal.
pub open spec fn decimal(s: Seq<char>, lo: int, hi: int) -> nat
    decreases hi - lo,
{
    if hi <= lo {
        0
    } else {
        decimal(s, lo, hi - 1) * 10 + digit_value(s[hi - 1])
    }
}

/// Where the digits of the token starting at `i` end.
pub open spec fn token_end(s: Seq<char>, i: int) -> int {
    digits_end(s, letters_end(s, i) + 1)
}

/// A token starts at `i`: one or more letters, a comma, one or more digits.
pub open spec fn token_at(s: Seq<char>, i: int) -> bool {
    let comma = letters_end(s, i);
    &&& i < comma < s.len()
    &&& s[comma] == ','
    &&& comma + 1 < token_end(s, i)
}

/// The word of the token at `i`.
pub open spec fn token_text(s: Seq<char>, i: int) -> Seq<char> {
    s.subrange(i, letters_end(s, i))
}

/// The weight of the token at `i`.
pub open spec fn token_weight(s: Seq<char>, i: int) -> nat {
    decimal(s, letters_end(s, i) + 1, token_end(s, i))
}

/// The pairs that `s[i..]` lists, if it is one or more tokens separated by
/// single spaces, each with a weight that fits in a `u32`; `None` otherwise.
pub open spec fn pairs_from(s: Seq<char>, i: int) -> Option<Seq<(Seq<char>, nat)>>
    decreases s.len() - i,
{
    if !token_at(s, i) || token_weight(s, i) > u32::MAX {
        None
    } else {
        let head = seq![(token_text(s, i), token_weight(s, i))];
        let e = token_end(s, i);
        if e == s.len() {
            Some(head)
        } else if e < s.len() && s[e] == ' ' {
            match pairs_from(s, e + 1) {
                Some(rest) => Some(head + rest),
                None => None,
            }
        } else {
            None
        }
    }
}

/// The pairs that the whole of `s` lists, if it is a valid list.
pub open spec fn pairs_of(s: Seq<char>) -> Option<Seq<(Seq<char>, nat)>> {
    pairs_from(s, 0)
}

/// What a list of parsed pairs says, as words and weights.
pub open spec fn pairs_view(v: Seq<TextWeight>) -> Seq<(Seq<char>, nat)> {
    v.map_values(|t: TextWeight| (t.0@, t.1 as nat))
}

/// `run_end` stops inside `s`, after characters that pass `p`, at one that
/// fails it or at the end.
pub proof fn lemma_run_end(s: Seq<char>, i: int, p: spec_fn(char) -> bool)
    requires
        0 <= i <= s.len(),
    ensures
        i <= run_end(s, i, p) <= s.len(),
        forall|j: int| i <= j < run_end(s, i, p) ==> p(#[trigger] s[j]),
        run_end(s, i, p) < s.len() ==> !p(s[run_end(s, i, p)]),
    decreases s.len() - i,
{
    if i < s.len() && p(s[i]) {
        lemma_run_end(s, i + 1, p);
    }
}

/// The character at `i` of the ASCII string `s`, as its code.
fn byte_at(s: &str, i: usize) -> (b: u8)
    requires
        s.is_ascii(),
        i < s@.len(),
    ensures
        b as int == s@[i as int] as int,
{
    let b = s.get_ascii(i);
    proof {
        assert('\0' <= s@[i as int] <= '\u{7f}');
    }
    b
}

/// Whether `s` holds a letter at `i`.
fn letter_at(s: &str, i: usize) -> (r: bool)
    requires
        s.is_ascii(),
        i < s@.len(),
    ensures
        r == is_letter(s@[i as int]),
{
    let b = byte_at(s, i);
    (('a' as u8) <= b && b <= ('z' as u8)) || (('A' as u8) <= b && b <= ('Z' as u8))
}

/// Whether `s` holds a digit at `i`.
fn digit_at(s: &str, i: usize) -> (r: bool)
    requires
        s.is_ascii(),
        i < s@.len(),
    ensures
        r == is_digit(s@[i as int]),
{
    let b = byte_at(s, i);
    ('0' as u8) <= b && b <= ('9' as u8)
}

/// Whether `s` holds a letter, a digit or a comma at `i`.
fn token_char_at(s: &str, i: usize) -> (r: bool)
    requires
        i < s@.len(),
    ensures
        r == is_token_char(s@[i as int]),
{
    let c = s.get_char(i);
    ('a' <= c && c <= 'z') || ('A' <= c && c <= 'Z') || ('0' <= c && c <= '9') || c == ','
}

/// Reads the token that starts at `start` in the ASCII string `s`. Gives the
/// comma's index, the token's end and its weight, if a token starts there
/// and its weight fits in a `u32`.
fn scan_token(s: &str, start: usize) -> (r: Option<(usize, usize, u32)>)
    requires
        s.is_ascii(),
        start <= s@.len(),
    ensures
        match r {
            Some((comma, end, weight)) => {
                &&& token_at(s@, start as int)
                &&& comma == letters_end(s@, start as int)
                &&& end == token_end(s@, start as int)
                &&& start < comma < end <= s@.len()
                &&& weight == token_weight(s@, start as int)
            },
            None => !token_at(s@, start as int) || token_weight(s@, start as int) > u32::MAX,
        },
{
    let ghost t = s@;
    let n = s.unicode_len();
    let mut comma: usize = start;
    while comma < n && letter_at(s, comma)
        invariant
            start <= comma <= n,
            n == t.len(),
            t == s@,
            s.is_ascii(),
            letters_end(t, start as int) == letters_end(t, comma as int),
        decreases n - comma,
    {
        comma += 1;
    }
    if comma == start || comma == n || byte_at(s, comma) != (',' as u8) {
        return None;
    }
    let mut end: usize = comma + 1;
    let mut value: u64 = 0;
    let mut too_big: bool = false;
    while end < n && digit_at(s, end)
        invariant
            comma < end <= n,
            n == t.len(),
            t == s@,
            s.is_ascii(),
            digits_end(t, comma + 1) == digits_end(t, end as int),
            !too_big ==> value == decimal(t, comma + 1, end as int) && value <= u32::MAX,
            too_big ==> decimal(t, comma + 1, end as int) > u32::MAX,
        decreases n - end,
    {
        let d = byte_at(s, end) - ('0' as u8);
        if !too_big {
            let next = value * 10 + d as u64;
            if next > u32::MAX as u64 {
                too_big = true;
            } else {
                value = next;
            }
        } else {
            proof {
                let lo = comma + 1;
                assert(decimal(t, lo, end + 1) >= decimal(t, lo, end as int)) by (nonlinear_arith)
                    requires
                        decimal(t, lo, end + 1) == decimal(t, lo, end as int) * 10 + digit_value(t[end as int]),
                ;
            }
        }
        end += 1;
    }
    if end == comma + 1 || too_big {
        return None;
    }
    Some((comma, end, value as u32))
}

/// A valid list from `i` on holds only ASCII characters there.
pub proof fn lemma_listed_ascii(s: Seq<char>, i: int)
    requires
        0 <= i <= s.len(),
        pairs_from(s, i) is Some,
    ensures
        forall|j: int| i <= j < s.len() ==> '\0' <= #[trigger] s[j] <= '\u{7f}',
    decreases s.len() - i,
{
    let comma = letters_end(s, i);
    let e = token_end(s, i);
    lemma_run_end(s, i, |c: char| is_letter(c));
    lemma_run_end(s, comma + 1, |c: char| is_digit(c));
    if e < s.len() {
        lemma_listed_ascii(s, e + 1);
    }
    assert forall|j: int| i <= j < s.len() implies '\0' <= #[trigger] s[j] <= '\u{7f}' by {
        if j < comma {
            assert(is_letter(s[j]));
        } else if comma < j < e {
            assert(is_digit(s[j]));
        }
    }
}

/// Runs that start inside a prefix of `s` end at the same place in the
/// prefix, when the prefix stops where `p` fails.
proof fn lemma_run_end_prefix(s: Seq<char>, k: int, i: int, p: spec_fn(char) -> bool)
    requires
        0 <= i <= k <= s.len(),
        k < s.len() ==> !p(s[k]),
    ensures
        run_end(s.take(k), i, p) == run_end(s, i, p),
    decreases k - i,
{
    if i < k {
        assert(s.take(k)[i] == s[i]);
        lemma_run_end_prefix(s, k, i + 1, p);
    }
}

/// Digits inside a prefix of `s` have the same value there.
proof fn lemma_decimal_prefix(s: Seq<char>, k: int, lo: int, hi: int)
    requires
        0 <= lo,
        hi <= k <= s.len(),
    ensures
        decimal(s.take(k), lo, hi) == decimal(s, lo, hi),
    decreases hi - lo,
{
    if lo < hi {
        assert(s.take(k)[hi - 1] == s[hi - 1]);
        lemma_decimal_prefix(s, k, lo, hi - 1);
    }
}

/// The token at the start of `s` is the token at the start of its longest
/// prefix of letters, digits and commas.
proof fn lemma_token_in_prefix(s: Seq<char>, k: int)
    requires
        0 <= k <= s.len(),
        forall|j: int| 0 <= j < k ==> is_token_char(#[trigger] s[j]),
        k < s.len() ==> !is_token_char(s[k]),
    ensures
        token_at(s.take(k), 0) == token_at(s, 0),
        token_at(s, 0) ==> {
            &&& letters_end(s.take(k), 0) == letters_end(s, 0)
            &&& token_end(s.take(k), 0) == token_end(s, 0)
            &&& token_weight(s.take(k), 0) == token_weight(s, 0)
            &&& token_end(s, 0) <= k
        },
{
    let h = s.take(k);
    lemma_run_end_prefix(s, k, 0, |c: char| is_letter(c));
    let comma = letters_end(s, 0);
    lemma_run_end(s, 0, |c: char| is_letter(c));
    if comma < k {
        assert(h[comma] == s[comma]);
        lemma_run_end_prefix(s, k, comma + 1, |c: char| is_digit(c));
        lemma_run_end(s, comma + 1, |c: char| is_digit(c));
        lemma_decimal_prefix(s, k, comma + 1, token_end(s, 0));
    }
}

/// Runs that start inside `t` end at the same place in `q + t`, shifted by
/// the length of `q`.
proof fn lemma_run_end_shift(q: Seq<char>, t: Seq<char>, j: int, p: spec_fn(char) -> bool)
    requires
        0 <= j <= t.len(),
    ensures
        run_end(q + t, q.len() + j, p) == q.len() + run_end(t, j, p),
    decreases t.len() - j,
{
    if j < t.len() {
        assert((q + t)[q.len() + j] == t[j]);
        lemma_run_end_shift(q, t, j + 1, p);
    }
}

/// Digits inside `t` have the same value in `q + t`.
proof fn lemma_decimal_shift(q: Seq<char>, t: Seq<char>, lo: int, hi: int)
    requires
        0 <= lo,
        hi <= t.len(),
    ensures
        decimal(q + t, q.len() + lo, q.len() + hi) == decimal(t, lo, hi),
    decreases hi - lo,
{
    if lo < hi {
        assert((q + t)[q.len() + hi - 1] == t[hi - 1]);
        lemma_decimal_shift(q, t, lo, hi - 1);
    }
}

/// What `t` lists from `j` on, `q + t` lists from `q.len() + j` on.
proof fn lemma_pairs_shift(q: Seq<char>, t: Seq<char>, j: int)
    requires
        0 <= j <= t.len(),
    ensures
        pairs_from(q + t, q.len() + j) == pairs_from(t, j),
    decreases t.len() - j,
{
    let u = q + t;
    let d = q.len() as int;
    lemma_run_end_shift(q, t, j, |c: char| is_letter(c));
    lemma_run_end(t, j, |c: char| is_letter(c));
    let comma = letters_end(t, j);
    if comma < t.len() {
        assert(u[d + comma] == t[comma]);
        lemma_run_end_shift(q, t, comma + 1, |c: char| is_digit(c));
        lemma_run_end(t, comma + 1, |c: char| is_digit(c));
        lemma_decimal_shift(q, t, comma + 1, token_end(t, j));
        assert(u.subrange(d + j, d + comma) =~= t.subrange(j, comma));
        let e = token_end(t, j);
        if e < t.len() {
            assert(u[d + e] == t[e]);
            lemma_pairs_shift(q, t, e + 1);
        }
    }
}

/// A valid list from `i` on in `s`, then a space and `t`: the pairs of `s`
/// from `i` followed by those of `t`, or nothing if `t` is not a valid list.
proof fn lemma_pairs_join(s: Seq<char>, t: Seq<char>, i: int)
    requires
        0 <= i <= s.len(),
        pairs_from(s, i) is Some,
    ensures
        pairs_from(s + seq![' '] + t, i) == match pairs_from(t, 0) {
            Some(b) => Some(pairs_from(s, i).unwrap() + b),
            None => None::<Seq<(Seq<char>, nat)>>,
        },
    decreases s.len() - i,
{
    let q = s + seq![' '];
    let u = q + t;
    let k = s.len() as int;
    assert(u.take(k) =~= s);
    assert(u[k] == ' ');
    lemma_run_end_prefix(u, k, i, |c: char| is_letter(c));
    let comma = letters_end(s, i);
    lemma_run_end_prefix(u, k, comma + 1, |c: char| is_digit(c));
    lemma_run_end(s, comma + 1, |c: char| is_digit(c));
    let e = token_end(s, i);
    lemma_decimal_prefix(u, k, comma + 1, e);
    assert(u.subrange(i, comma) =~= s.subrange(i, comma));
    if e == k {
        lemma_pairs_shift(q, t, 0);
    } else {
        assert(u[e] == s[e]);
        lemma_pairs_join(s, t, e + 1);
    }
}

/// Lists join at a space, and a list that goes wrong anywhere is refused
/// whole: a valid list, a space and `t` read as the pairs of both parts
/// when `t` is a valid list, and as nothing at all when it is not.
pub proof fn lemma_list_join(s: Seq<char>, t: Seq<char>)
    requires
        pairs_of(s) is Some,
    ensures
        pairs_of(s + seq![' '] + t) == match pairs_of(t) {
            Some(b) => Some(pairs_of(s).unwrap() + b),
            None => None::<Seq<(Seq<char>, nat)>>,
        },
{
    lemma_pairs_join(s, t, 0);
}

impl Grid {
    /// Reads a list of `text,weight` tokens separated by single spaces, such
    /// as `"apple,2 bubble,10"`: a text is one or more ASCII letters, a weight
    /// one or more decimal digits that fit in a `u32`. The whole input must be
    /// such a list; otherwise nothing is returned but the error. On success
    /// the input left over is empty.
    pub fn parse_pairs<'a>(input: &'a str) -> (r: Result<(&'a str, Vec<TextWeight<'a>>), ParseError>)
        ensures
            match r {
                Ok((rest, pairs)) => pairs_of(input@) == Some(pairs_view(pairs@)) && rest@.len() == 0,
                Err(_) => pairs_of(input@) is None,
            },
    {
        let ghost s = input@;
        if !input.is_ascii() {
            proof {
                if pairs_of(s) is Some {
                    lemma_listed_ascii(s, 0);
                    assert(vstd::utf8::is_ascii_chars(s));
                }
            }
            return Err(ParseError);
        }
        let n = input.unicode_len();
        let mut pairs: Vec<TextWeight<'a>> = Vec::new();
        let mut pos: usize = 0;
        loop
            invariant
                0 <= pos <= n,
                n == s.len(),
                s == input@,
                input.is_ascii(),
                pairs_of(s) == match pairs_from(s, pos as int) {
                    Some(rest) => Some(pairs_view(pairs@) + rest),
                    None => None::<Seq<(Seq<char>, nat)>>,
                },
            decreases n - pos,
        {
            match scan_token(input, pos) {
                None => {
                    return Err(ParseError);
                },
                Some((comma, end, weight)) => {
                    let text = input.substring_ascii(pos, comma);
                    let ghost head = seq![(token_text(s, pos as int), token_weight(s, pos as int))];
                    let ghost before = pairs_view(pairs@);
                    pairs.push(TextWeight(text, weight));
                    proof {
                        assert(pairs_view(pairs@) =~= before + head);
                    }
                    if end == n {
                        return Ok((input.substring_ascii(n, n), pairs));
                    }
                    if byte_at(input, end) != (' ' as u8) {
                        return Err(ParseError);
                    }
                    proof {
                        match pairs_from(s, end + 1) {
                            Some(rest) => {
                                assert(before + (head + rest) =~= pairs_view(pairs@) + rest);
                            },
                            None => {},
                        }
                    }
                    pos = end + 1;
                },
            }
        }
    }

    /// Reads one `text,weight` token from the start of `input` and gives the
    /// input after it: letters, a comma, then the longest run of digits,
    /// whose value must fit in a `u32`.
    pub fn parse_text_weight<'a>(input: &'a str) -> (r: Result<(&'a str, TextWeight<'a>), ParseError>)
        ensures
            match r {
                Ok((rest, pair)) => {
                    &&& token_at(input@, 0)
                    &&& pair.0@ == token_text(input@, 0)
                    &&& pair.1 == token_weight(input@, 0)
                    &&& rest@ == input@.skip(token_end(input@, 0))
                },
                Err(_) => !token_at(input@, 0) || token_weight(input@, 0) > u32::MAX,
            },
    {
        let ghost s = input@;
        let n = input.unicode_len();
        // A token holds only ASCII letters, digits and commas: look no further.
        let mut k: usize = 0;
        while k < n && token_char_at(input, k)
            invariant
                k <= n,
                n == s.len(),
                s == input@,
                forall|j: int| 0 <= j < k ==> is_token_char(#[trigger] s[j]),
            decreases n - k,
        {
            k += 1;
        }
        let head = input.substring_char(0, k);
        proof {
            assert(head@ =~= s.take(k as int));
            assert forall|j: int| 0 <= j < head@.len() implies '\0' <= #[trigger] head@[j] <= '\u{7f}' by {
                assert(is_token_char(s[j]));
            }
            assert(vstd::utf8::is_ascii_chars(head@));
            lemma_token_in_prefix(s, k as int);
        }
        match scan_token(head, 0) {
            None => Err(ParseError),
            Some((comma, end, weight)) => {
                let text = head.substring_ascii(0, comma);
                let rest = input.substring_char(end, n);
                proof {
                    assert(text@ =~= token_text(s, 0));
                    assert(rest@ =~= s.skip(end as int));
                }
                Ok((rest, TextWeight(text, weight)))
            },
        }
    }
}

} // verus!
