use vstd::prelude::*;
use vstd::arithmetic::div_mod::lemma_div_denominator;

use rand::rngs::StdRng;

use crate::geometry::{floor_sqrt, isqrt, lemma_isqrt, Orientation, Point2d};

verus! {

/// Width of an average glyph, in units of `GLYPH_HEIGHT` (Times New Roman).
pub const GLYPH_WIDTH: u64 = 50;

/// Height of an average glyph, in the units of `GLYPH_WIDTH`.
pub const GLYPH_HEIGHT: u64 = 83;

/// The largest coordinate an anchor may have: canvases measure at most
/// `u32::MAX` pixels across.
pub const MAX_COORD: i64 = 0xffff_ffff;

/// Height of the box for `n_chars` glyphs covering `area` square pixels:
/// the whole-pixel square root of `area / (aspect * n_chars)`, where `aspect`
/// is `GLYPH_WIDTH / GLYPH_HEIGHT`, and never less than one pixel.
pub open spec fn text_height(area: nat, n_chars: nat) -> nat {
    let h = isqrt((area * GLYPH_HEIGHT / (GLYPH_WIDTH * n_chars)) as nat);
    if h == 0 {
        1
    } else {
        h
    }
}

/// Width of that box: the area divided by its height.
pub open spec fn text_width(area: nat, n_chars: nat) -> nat {
    area / text_height(area, n_chars)
}

/// A word with its weight and its box on the canvas.
#[derive(Clone, Debug, PartialEq)]
pub struct Block {
    /// The word.
    pub text: String,
    /// The area, in square pixels, that the box was sized to cover.
    pub area: u32,
    /// Top-right corner of the box (smaller `y`, larger `x`).
    pub top_right: Point2d,
    /// Bottom-left corner of the box (larger `y`, smaller `x`).
    pub bottom_left: Point2d,
    /// How the word is turned inside its box.
    pub orientation: Orientation,
}

/// The blocks of a layout, in the order in which they were placed.
#[derive(Clone, Debug, Default, PartialEq)]
pub struct Blocks(pub Vec<Block>);

impl Block {
    /// `self` is the box that `new` makes of `text` and `area`, anchored at
    /// `origin` and turned by `o`.
    pub open spec fn sized_at(self, text: Seq<char>, area: nat, origin: Point2d, o: Orientation) -> bool {
        let h = text_height(area, text.len()) as int;
        let w = text_width(area, text.len()) as int;
        &&& self.text@ == text
        &&& self.area == area
        &&& self.orientation == o
        &&& match o {
            Orientation::Horizontal => {
                &&& self.bottom_left == origin
                &&& self.top_right.x == origin.x + w
                &&& self.top_right.y == origin.y - h
            },
            Orientation::Vertical90 => {
                &&& self.bottom_left.x == origin.x
                &&& self.bottom_left.y == origin.y + w
                &&& self.top_right.x == origin.x + h
                &&& self.top_right.y == origin.y
            },
            Orientation::Vertical270 => {
                &&& self.bottom_left.x == origin.x - h
                &&& self.bottom_left.y == origin.y
                &&& self.top_right.x == origin.x
                &&& self.top_right.y == origin.y - w
            },
        }
    }

    /// The boxes of `self` and `b` share a point: none of the four strict
    /// separations (above, left of, below, right of) holds.
    pub open spec fn overlaps(self, b: Block) -> bool {
        !(self.top_right.y > b.bottom_left.y || self.top_right.x < b.bottom_left.x
            || self.bottom_left.y < b.top_right.y || self.bottom_left.x > b.top_right.x)
    }

    /// `p` lies strictly inside the box.
    pub open spec fn contains(self, p: Point2d) -> bool {
        self.bottom_left.x < p.x && self.top_right.x > p.x && self.bottom_left.y > p.y
            && self.top_right.y < p.y
    }

    /// Sizes `text` to cover `area` square pixels and anchors its box at
    /// `origin` as `orientation` asks. The result depends on the arguments
    /// alone.
    pub fn new(text: String, area: u32, origin: &Point2d, orientation: Orientation) -> (r: Block)
        requires
            text@.len() > 0,
            0 <= origin.x <= MAX_COORD,
            0 <= origin.y <= MAX_COORD,
        ensures
            r.sized_at(text@, area as nat, *origin, orientation),
    {
        let n_chars = text.as_str().unicode_len();
        let text_height = Self::h(area, n_chars);
        let text_width = area as u64 / text_height;
        proof {
            assert(text_width <= area) by (nonlinear_arith)
                requires
                    text_width == area as u64 / text_height,
                    text_height >= 1,
            ;
        }
        let h = text_height as i64;
        let w = text_width as i64;
        let (bottom_left, top_right) = match orientation {
            Orientation::Horizontal => {
                // Unturned text hangs from its bottom-left corner.
                (*origin, Point2d { x: origin.x + w, y: origin.y - h })
            },
            Orientation::Vertical90 => {
                // Text running downwards: the anchor is the top-left corner.
                (Point2d { x: origin.x, y: origin.y + w }, Point2d { x: origin.x + h, y: origin.y })
            },
            Orientation::Vertical270 => {
                // Text running upwards: the anchor is the bottom-right corner.
                (Point2d { x: origin.x - h, y: origin.y }, Point2d { x: origin.x, y: origin.y - w })
            },
        };
        Block { text, area, top_right, bottom_left, orientation }
    }

    /// Sizes `text` as `new` does, anchored at `origin`, in an orientation
    /// drawn at random.
    pub(crate) fn new_randomize_orientation(
        text: String,
        area: u32,
        origin: &Point2d,
        rng: &mut StdRng,
    ) -> (r: Block)
        requires
            text@.len() > 0,
            0 <= origin.x <= MAX_COORD,
            0 <= origin.y <= MAX_COORD,
        ensures
            exists|o: Orientation| #[trigger] r.sized_at(text@, area as nat, *origin, o),
    {
        let orientation = Orientation::at_random(rng);
        Self::new(text, area, origin, orientation)
    }

    /// The text height for `n_chars` glyphs covering `area`.
    fn h(area: u32, n_chars: usize) -> (h: u64)
        requires
            n_chars > 0,
        ensures
            h == text_height(area as nat, n_chars as nat),
            1 <= h <= 0x4_0000,
    {
        let scaled: u64 = area as u64 * GLYPH_HEIGHT / GLYPH_WIDTH;
        let quotient: u64 = scaled / n_chars as u64;
        proof {
            lemma_div_denominator(area * GLYPH_HEIGHT, GLYPH_WIDTH as int, n_chars as int);
            assert(quotient <= scaled) by (nonlinear_arith)
                requires
                    quotient == scaled / n_chars as u64,
                    n_chars >= 1,
            ;
        }
        let root = floor_sqrt(quotient);
        proof {
            lemma_isqrt(quotient as nat);
            if root > 0x4_0000 {
                assert(root * root > 0x4_0000 * 0x4_0000) by (nonlinear_arith)
                    requires
                        root > 0x4_0000,
                ;
            }
        }
        if root == 0 {
            1
        } else {
            root
        }
    }

    /// Whether `point` lies strictly inside the box.
    pub fn is_inside(&self, point: &Point2d) -> (r: bool)
        ensures
            r == self.contains(*point),
    {
        self.bottom_left.x < point.x && self.top_right.x > point.x && self.bottom_left.y > point.y
            && self.top_right.y < point.y
    }

    /// Whether the boxes of `self` and `b` overlap: they do unless `b` lies
    /// wholly above, to the right of, below or to the left of `self`.
    pub fn is_overlapping(&self, b: &Block) -> (r: bool)
        ensures
            r == self.overlaps(*b),
    {
        if self.top_right.y > b.bottom_left.y {
            return false;
        }
        if self.top_right.x < b.bottom_left.x {
            return false;
        }
        if self.bottom_left.y < b.top_right.y {
            return false;
        }
        if self.bottom_left.x > b.top_right.x {
            return false;
        }
        true
    }
}

/// Overlap does not depend on the order of the two blocks.
pub proof fn lemma_overlap_symmetric(a: Block, b: Block)
    ensures
        a.overlaps(b) == b.overlaps(a),
{
}

/// Sizing depends on its inputs alone: two blocks sized from the same text,
/// area, anchor and orientation have the same box.
pub proof fn lemma_sizing_deterministic(
    a: Block,
    b: Block,
    text: Seq<char>,
    area: nat,
    origin: Point2d,
    o: Orientation,
)
    requires
        a.sized_at(text, area, origin, o),
        b.sized_at(text, area, origin, o),
    ensures
        a.bottom_left == b.bottom_left,
        a.top_right == b.top_right,
        a.text@ == b.text@,
        a.area == b.area,
        a.orientation == b.orientation,
{
}

/// A sized block spans `area / h` by `h`, where `h` is the text height:
/// across and up when horizontal, up and across when turned.
pub proof fn lemma_sized_extent(b: Block, text: Seq<char>, area: nat, origin: Point2d, o: Orientation)
    requires
        b.sized_at(text, area, origin, o),
    ensures
        o == Orientation::Horizontal ==> {
            &&& b.top_right.x - b.bottom_left.x == area / text_height(area, text.len())
            &&& b.bottom_left.y - b.top_right.y == text_height(area, text.len())
        },
        o != Orientation::Horizontal ==> {
            &&& b.top_right.x - b.bottom_left.x == text_height(area, text.len())
            &&& b.bottom_left.y - b.top_right.y == area / text_height(area, text.len())
        },
        area > 0 && text.len() > 0 ==> b.top_right.x > b.bottom_left.x && b.bottom_left.y > b.top_right.y,
{
    if area > 0 && text.len() > 0 {
        lemma_height_at_most_area(area, text.len());
        let h = text_height(area, text.len());
        assert(area / h >= 1) by (nonlinear_arith)
            requires
                1 <= h <= area,
        ;
    }
}

/// The text height never exceeds a positive area, so the box is at least one
/// pixel wide.
proof fn lemma_height_at_most_area(area: nat, n_chars: nat)
    requires
        area > 0,
        n_chars > 0,
    ensures
        1 <= text_height(area, n_chars) <= area,
{
    let q = (area * GLYPH_HEIGHT / (GLYPH_WIDTH * n_chars)) as nat;
    let r = isqrt(q);
    lemma_isqrt(q);
    assert(q <= area * 83 / 50) by (nonlinear_arith)
        requires
            q == area * 83 / (50 * n_chars),
            n_chars >= 1,
    ;
    if r > area {
        assert(r * r > area * 83 / 50) by (nonlinear_arith)
            requires
                r > area,
                area >= 1,
        ;
    }
}

} // verus!
