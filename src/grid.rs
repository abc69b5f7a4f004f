use vstd::prelude::*;
use rand::rngs::StdRng;

use crate::block::{lemma_overlap_symmetric, Block, Blocks, MAX_COORD};
use crate::geometry::{Orientation, Point2d};
use crate::random::random_in;

verus! {

/// How many candidate positions `place_block` tries before it gives up.
pub const PLACEMENT_ATTEMPTS: u32 = 2000;

/// No two of `blocks` overlap.
pub open spec fn pairwise_apart(blocks: Seq<Block>) -> bool {
    forall|i: int, j: int|
        0 <= i < blocks.len() && 0 <= j < blocks.len() && i != j ==> !#[trigger] blocks[i].overlaps(
            blocks[j],
        )
}

/// A canvas and the blocks placed on it so far.
///
/// New blocks go only into the active region, a sub-rectangle of the canvas
/// that starts as the whole canvas and that callers may narrow and reset
/// between placements.
#[derive(Debug)]
pub struct Grid {
    rng: StdRng,
    width: u32,
    height: u32,
    blocks: Vec<Block>,
    xmin: u32,
    xmax: u32,
    ymin: u32,
    ymax: u32,
}

impl Grid {
    /// Width of the canvas in pixels.
    pub closed spec fn spec_width(&self) -> nat {
        self.width as nat
    }

    /// Height of the canvas in pixels.
    pub closed spec fn spec_height(&self) -> nat {
        self.height as nat
    }

    /// The active region as `(xmin, xmax, ymin, ymax)`.
    pub closed spec fn region(&self) -> (int, int, int, int) {
        (self.xmin as int, self.xmax as int, self.ymin as int, self.ymax as int)
    }

    /// The placed blocks, oldest first.
    pub closed spec fn placed(&self) -> Seq<Block> {
        self.blocks@
    }

    /// The canvas is not empty, the active region is a non-empty part of it,
    /// and no two placed blocks overlap.
    pub open spec fn wf(&self) -> bool {
        let (xmin, xmax, ymin, ymax) = self.region();
        &&& 0 < self.spec_width()
        &&& 0 < self.spec_height()
        &&& 0 <= xmin < xmax <= self.spec_width()
        &&& 0 <= ymin < ymax <= self.spec_height()
        &&& pairwise_apart(self.placed())
    }

    /// `p` lies strictly inside the active region.
    pub open spec fn region_contains(&self, p: Point2d) -> bool {
        let (xmin, xmax, ymin, ymax) = self.region();
        xmin < p.x < xmax && ymin < p.y < ymax
    }

    /// `b` may join the placed blocks: both its corners lie strictly inside
    /// the active region and it overlaps none of them.
    pub open spec fn fits(&self, b: Block) -> bool {
        &&& self.region_contains(b.bottom_left)
        &&& self.region_contains(b.top_right)
        &&& forall|i: int| 0 <= i < self.placed().len() ==> !#[trigger] self.placed()[i].overlaps(b)
    }

    /// `next` has the canvas and active region of `self`.
    pub open spec fn same_frame(&self, next: Grid) -> bool {
        &&& next.spec_width() == self.spec_width()
        &&& next.spec_height() == self.spec_height()
        &&& next.region() == self.region()
    }

    /// `next` is `self` with its active region set to `region`, and nothing
    /// else changed.
    pub open spec fn with_region(&self, next: Grid, region: (int, int, int, int)) -> bool {
        &&& next.spec_width() == self.spec_width()
        &&& next.spec_height() == self.spec_height()
        &&& next.placed() == self.placed()
        &&& next.region() == region
    }

    /// `next` is `self` after a successful placement of `text` covering
    /// `area`: one block more at the end, sized from some anchor drawn in the
    /// active region and some orientation, and fitting as `fits` asks.
    pub open spec fn placed_one(&self, next: Grid, text: Seq<char>, area: nat) -> bool {
        let b = next.placed().last();
        &&& next.placed().len() == self.placed().len() + 1
        &&& next.placed().drop_last() == self.placed()
        &&& self.fits(b)
        &&& exists|origin: Point2d, o: Orientation|
            self.region().0 <= origin.x < self.region().1 && self.region().2 <= origin.y
                < self.region().3 && #[trigger] b.sized_at(text, area, origin, o)
    }

    /// A canvas of `width` by `height` pixels with no blocks, whose active
    /// region is the whole canvas, drawing its positions from `rng`.
    pub fn new(width: u32, height: u32, rng: StdRng) -> (r: Grid)
        requires
            width > 0,
            height > 0,
        ensures
            r.wf(),
            r.spec_width() == width,
            r.spec_height() == height,
            r.placed() == Seq::<Block>::empty(),
            r.region() == (0int, width as int, 0int, height as int),
    {
        Grid { rng, width, height, blocks: Vec::new(), xmin: 0, xmax: width, ymin: 0, ymax: height }
    }

    /// The active region as `(xmin, xmax, ymin, ymax)`.
    pub fn bounding_rectangle(&self) -> (r: (u32, u32, u32, u32))
        ensures
            (r.0 as int, r.1 as int, r.2 as int, r.3 as int) == self.region(),
    {
        (self.xmin, self.xmax, self.ymin, self.ymax)
    }

    /// Hands over the placed blocks, oldest first.
    pub fn into_blocks(self) -> (r: Blocks)
        ensures
            r.0@ == self.placed(),
    {
        Blocks(self.blocks)
    }

    /// The placed blocks, oldest first.
    pub fn blocks(&self) -> (r: &Vec<Block>)
        ensures
            r@ == self.placed(),
    {
        &self.blocks
    }

    /// Widens the active region back to the whole canvas.
    pub fn bounding_rectangle_clear(&mut self)
        requires
            old(self).wf(),
        ensures
            final(self).wf(),
            old(self).with_region(
                *final(self),
                (0int, old(self).spec_width() as int, 0int, old(self).spec_height() as int),
            ),
    {
        self.xmin = 0;
        self.xmax = self.width;
        self.ymin = 0;
        self.ymax = self.height;
    }

    /// Narrows the active region to `(xmin, xmax, ymin, ymax)`, which must lie
    /// strictly inside the canvas. Blocks already placed stay where they are.
    pub fn bounding_rectangle_set(&mut self, xmin: u32, xmax: u32, ymin: u32, ymax: u32)
        requires
            old(self).wf(),
            0 < xmin < xmax < old(self).spec_width(),
            0 < ymin < ymax < old(self).spec_height(),
        ensures
            final(self).wf(),
            old(self).with_region(*final(self), (xmin as int, xmax as int, ymin as int, ymax as int)),
    {
        self.xmin = xmin;
        self.xmax = xmax;
        self.ymin = ymin;
        self.ymax = ymax;
    }

    /// Whether `p` lies strictly inside the active region.
    fn is_inside(&self, p: &Point2d) -> (r: bool)
        ensures
            r == self.region_contains(*p),
    {
        p.x > self.xmin as i64 && p.x < self.xmax as i64 && p.y > self.ymin as i64 && p.y
            < self.ymax as i64
    }

    /// Whether `test_block` overlaps any placed block.
    fn is_any_block_overlapping(&self, test_block: &Block) -> (r: bool)
        ensures
            r == exists|i: int|
                0 <= i < self.placed().len() && #[trigger] self.placed()[i].overlaps(*test_block),
    {
        let mut k: usize = 0;
        while k < self.blocks.len()
            invariant
                0 <= k <= self.blocks@.len(),
                forall|i: int| 0 <= i < k ==> !#[trigger] self.blocks@[i].overlaps(*test_block),
            decreases self.blocks@.len() - k,
        {
            if self.blocks[k].is_overlapping(test_block) {
                assert(self.placed()[k as int].overlaps(*test_block));
                return true;
            }
            k += 1;
        }
        false
    }

    /// A point drawn from the active region, borders at the low ends included.
    fn point_at_random(&mut self) -> (p: Point2d)
        requires
            old(self).wf(),
        ensures
            final(self).wf(),
            final(self).same_frame(*old(self)),
            final(self).placed() == old(self).placed(),
            old(self).region().0 <= p.x < old(self).region().1,
            old(self).region().2 <= p.y < old(self).region().3,
    {
        let x = random_in(&mut self.rng, self.xmin as i64, self.xmax as i64);
        let y = random_in(&mut self.rng, self.ymin as i64, self.ymax as i64);
        Point2d { x, y }
    }

    /// Adds `block` to the placed blocks if it fits, and says whether it did.
    fn try_block(&mut self, block: Block) -> (r: bool)
        requires
            old(self).wf(),
        ensures
            final(self).wf(),
            final(self).same_frame(*old(self)),
            r == old(self).fits(block),
            r ==> final(self).placed() == old(self).placed().push(block),
            !r ==> final(self).placed() == old(self).placed(),
    {
        if self.is_inside(&block.bottom_left) && self.is_inside(&block.top_right)
            && !self.is_any_block_overlapping(&block) {
            proof {
                let old_blocks = self.blocks@;
                let new_blocks = old_blocks.push(block);
                assert forall|i: int, j: int|
                    0 <= i < new_blocks.len() && 0 <= j < new_blocks.len() && i != j implies !#[trigger] new_blocks[i].overlaps(
                        new_blocks[j],
                    ) by {
                    if i == old_blocks.len() {
                        assert(!old_blocks[j].overlaps(block));
                        lemma_overlap_symmetric(old_blocks[j], block);
                    } else if j == old_blocks.len() {
                        assert(!old_blocks[i].overlaps(block));
                    } else {
                        assert(!old_blocks[i].overlaps(old_blocks[j]));
                    }
                }
            }
            self.blocks.push(block);
            true
        } else {
            false
        }
    }

    /// Places `text`, sized to cover `area`, anchored at `origin` and turned
    /// by `orientation`, if that box fits; says whether it did.
    pub fn place_block_at(
        &mut self,
        text: &str,
        area: u32,
        origin: &Point2d,
        orientation: Orientation,
    ) -> (r: bool)
        requires
            old(self).wf(),
            text@.len() > 0,
            0 <= origin.x <= MAX_COORD,
            0 <= origin.y <= MAX_COORD,
        ensures
            final(self).wf(),
            final(self).same_frame(*old(self)),
            r == exists|b: Block|
                #[trigger] b.sized_at(text@, area as nat, *origin, orientation) && old(self).fits(b),
            r ==> {
                let placed = final(self).placed();
                &&& placed.len() == old(self).placed().len() + 1
                &&& placed.drop_last() == old(self).placed()
                &&& placed.last().sized_at(text@, area as nat, *origin, orientation)
            },
            !r ==> final(self).placed() == old(self).placed(),
    {
        let block = Block::new(text.to_owned(), area, origin, orientation);
        proof {
            assert forall|b: Block| #[trigger] b.sized_at(text@, area as nat, *origin, orientation) implies
                b.bottom_left == block.bottom_left && b.top_right == block.top_right by {}
        }
        let ghost before = *self;
        let r = self.try_block(block);
        proof {
            if r {
                assert(self.blocks@.drop_last() =~= old(self).blocks@);
                assert(block.sized_at(text@, area as nat, *origin, orientation) && before.fits(block));
            } else {
                assert forall|b: Block| #[trigger] b.sized_at(text@, area as nat, *origin, orientation) implies
                    !before.fits(b) by {
                    if before.fits(b) {
                        assert forall|i: int| 0 <= i < before.placed().len() implies
                            !#[trigger] before.placed()[i].overlaps(block) by {
                            assert(!before.placed()[i].overlaps(b));
                        }
                    }
                }
            }
        }
        r
    }

    /// Tries up to `PLACEMENT_ATTEMPTS` random anchors and orientations for
    /// `text`, sized to cover `area`, and keeps the first box that fits.
    /// Says whether one did; if none did, nothing changes. An empty text has
    /// no box and is never placed.
    pub fn place_block(&mut self, text: &str, area: u32) -> (r: bool)
        requires
            old(self).wf(),
        ensures
            text@.len() == 0 ==> !r,
            final(self).wf(),
            final(self).same_frame(*old(self)),
            r ==> old(self).placed_one(*final(self), text@, area as nat),
            !r ==> final(self).placed() == old(self).placed(),
    {
        self.place_block_with_attempts(text, area, PLACEMENT_ATTEMPTS)
    }

    /// As `place_block`, with `attempts` tries in place of the default.
    pub fn place_block_with_attempts(&mut self, text: &str, area: u32, attempts: u32) -> (r: bool)
        requires
            old(self).wf(),
        ensures
            text@.len() == 0 ==> !r,
            attempts == 0 ==> !r,
            final(self).wf(),
            final(self).same_frame(*old(self)),
            r ==> old(self).placed_one(*final(self), text@, area as nat),
            !r ==> final(self).placed() == old(self).placed(),
    {
        if text.is_empty() {
            return false;
        }
        let mut k: u32 = 0;
        while k < attempts
            invariant
                self.wf(),
                self.same_frame(*old(self)),
                self.placed() == old(self).placed(),
                text@.len() > 0,
            decreases attempts - k,
        {
            let origin = self.point_at_random();
            let block = Block::new_randomize_orientation(text.to_owned(), area, &origin, &mut self.rng);
            let ghost before = *self;
            if self.try_block(block) {
                proof {
                    assert(self.placed().drop_last() =~= old(self).placed());
                    assert(self.placed().last() == block);
                    assert(before.placed() == old(self).placed());
                }
                return true;
            }
            k += 1;
        }
        false
    }
}

/// No two blocks on a well-formed grid overlap, in either order.
pub proof fn lemma_placed_apart(g: &Grid, i: int, j: int)
    requires
        g.wf(),
        0 <= i < g.placed().len(),
        0 <= j < g.placed().len(),
        i != j,
    ensures
        !g.placed()[i].overlaps(g.placed()[j]),
        !g.placed()[j].overlaps(g.placed()[i]),
{
}

/// Narrowing the active region and then clearing it gives back the whole
/// canvas, with the same blocks.
pub proof fn lemma_clear_after_set(g0: Grid, g1: Grid, g2: Grid, region: (int, int, int, int))
    requires
        g0.with_region(g1, region),
        g1.with_region(g2, (0int, g1.spec_width() as int, 0int, g1.spec_height() as int)),
    ensures
        g2.region() == (0int, g0.spec_width() as int, 0int, g0.spec_height() as int),
        g2.placed() == g0.placed(),
{
}

} // verus!
