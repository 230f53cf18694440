use vstd::prelude::*;
use crate::point::{lemma_midpoint_on_display, Point};
use rand::rngs::SmallRng;
use rand::seq::SliceRandom;
use rand::SeedableRng;

verus! {

#[verifier::external_type_specification]
#[verifier::external_body]
pub struct ExSmallRng(SmallRng);

/// Relies on rand's `SeedableRng::from_seed` for `SmallRng`: builds the
/// generator from a 32-byte seed.
#[verifier::external_body]
fn small_rng_from_seed(seed: [u8; 32]) -> SmallRng {
    SmallRng::from_seed(seed)
}

/// Relies on rand's `SliceRandom::choose`: on a non-empty slice it returns
/// one of the slice's elements, drawn with `rng`.
#[verifier::external_body]
fn choose_anchor(anchors: &[Point; 3], rng: &mut SmallRng) -> (r: Point)
    ensures
        anchors@.contains(r),
{
    *anchors.choose(rng).unwrap()
}

/// The corners of the triangle that the points fill.
pub open spec fn anchor_points() -> Seq<Point> {
    seq![Point(64, 0), Point(32, 63), Point(96, 63)]
}

/// `next` is one move of the chaos game from `prev`: halfway, rounded
/// down, towards one of the corners.
pub open spec fn chaos_step(prev: Point, next: Point) -> bool {
    exists|i: int| 0 <= i < 3 && next == prev.spec_midpoint(anchor_points()[i])
}

/// An endless stream of points of a Sierpinski triangle, made by the chaos
/// game: each point lies halfway between the previous one and a corner
/// drawn at random. The stream is fixed by the seed.
pub struct SierpinskiPoints {
    anchors: [Point; 3],
    cursor: Point,
    rng: SmallRng,
}

impl SierpinskiPoints {
    /// The last point produced, or the first corner before any.
    pub closed spec fn cursor_point(&self) -> Point {
        self.cursor
    }

    /// The corners are fixed and the last point lies on the display.
    pub closed spec fn wf(&self) -> bool {
        &&& self.anchors@ == anchor_points()
        &&& self.cursor.on_display()
    }

    /// A stream seeded with `seed`, starting from the first corner.
    pub fn new(seed: [u8; 32]) -> (r: Self)
        ensures
            r.wf(),
            r.cursor_point() == anchor_points()[0],
    {
        let anchors = [Point(64, 0), Point(32, 63), Point(96, 63)];
        assert(anchors@ =~= anchor_points());
        SierpinskiPoints { anchors, cursor: anchors[0], rng: small_rng_from_seed(seed) }
    }

    /// The next point: halfway, rounded down, between the last point and a
    /// corner drawn at random. It always lies on the display.
    pub fn next_point(&mut self) -> (p: Point)
        requires
            old(self).wf(),
        ensures
            final(self).wf(),
            p == final(self).cursor_point(),
            p.on_display(),
            chaos_step(old(self).cursor_point(), p),
    {
        let anchor = choose_anchor(&self.anchors, &mut self.rng);
        let ghost i = choose|i: int| 0 <= i < 3 && self.anchors@[i] == anchor;
        proof {
            lemma_midpoint_on_display(self.cursor, anchor);
        }
        self.cursor = self.cursor.midpoint(&anchor);
        assert(self.cursor == old(self).cursor_point().spec_midpoint(anchor_points()[i]));
        self.cursor
    }
}

} // verus!
