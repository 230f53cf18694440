use vstd::prelude::*;
use crate::point::Point;
use crate::sierpinski::{chaos_step, SierpinskiPoints};

verus! {

/// Number of pixels on the display.
pub const PIXELS: usize = 8192;

/// Number of pages (8-pixel-tall column slices) on the display.
pub const PAGES: usize = 1024;

/// The display's first visible column: the controller has two dummy columns.
pub const COLUMN_OFFSET: u8 = 2;

/// Position of a pixel in the column-major lifetime buffer. The eight
/// pixels of a page are contiguous, so pixel `i` lies in page `i / 8`.
pub open spec fn pixel_index(p: Point) -> int {
    p.0 * 64 + p.1
}

/// Position of page (`column`, `page_row`) in the dirty-flag buffer.
pub open spec fn page_index(column: int, page_row: int) -> int {
    column * 8 + page_row
}

/// A counter after one tick: lit counters go down by one, dark ones stay dark.
pub open spec fn decayed(c: u8) -> u8 {
    if c == 0 {
        0
    } else {
        (c - 1) as u8
    }
}

/// Whether a pixel with counter `a` and a pixel with counter `b` differ in liveness.
pub open spec fn liveness_differs(a: u8, b: u8) -> bool {
    (a != 0) != (b != 0)
}

/// One pixel's bit in a page byte.
pub open spec fn lit(c: u8) -> u8 {
    if c > 0 {
        1
    } else {
        0
    }
}

/// The display byte of page `k`: bit `i` is set iff pixel `8 * k + i`, the
/// page's `i`-th row from the top, is lit.
pub open spec fn page_byte(cells: Seq<u8>, k: int) -> u8 {
    lit(cells[8 * k]) | (lit(cells[8 * k + 1]) << 1u8) | (lit(cells[8 * k + 2]) << 2u8) | (lit(
        cells[8 * k + 3],
    ) << 3u8) | (lit(cells[8 * k + 4]) << 4u8) | (lit(cells[8 * k + 5]) << 5u8) | (lit(
        cells[8 * k + 6],
    ) << 6u8) | (lit(cells[8 * k + 7]) << 7u8)
}

/// The bits of rows `i..8` of the page starting at `base`, folded from the
/// bottom row up, shifting left before each new bit.
pub open spec fn fold_rows(cells: Seq<u8>, base: int, i: int) -> u8
    decreases 8 - i,
{
    if i >= 8 {
        0
    } else {
        (fold_rows(cells, base, i + 1) << 1u8) | lit(cells[base + i])
    }
}

/// Whether some pixel of page `k` is about to go dark.
pub open spec fn page_expires(cells: Seq<u8>, k: int) -> bool {
    exists|j: int| 8 * k <= j < 8 * k + 8 && #[trigger] cells[j] == 1
}

/// Dirty flags with no page marked.
pub open spec fn no_marks() -> Seq<bool> {
    Seq::new(PAGES as nat, |k: int| false)
}

/// Indices below `n` of the set flags, ascending.
pub open spec fn set_flags_below(flags: Seq<bool>, n: int) -> Seq<int>
    decreases n,
{
    if n <= 0 {
        Seq::empty()
    } else if flags[n - 1] {
        set_flags_below(flags, n - 1).push(n - 1)
    } else {
        set_flags_below(flags, n - 1)
    }
}

/// The (column, page row) of page `k`.
pub open spec fn page_coords(k: int) -> (usize, usize) {
    ((k / 8) as usize, (k % 8) as usize)
}

/// The dirty pages as (column, page row), in ascending column-major order.
pub open spec fn dirty_pages(flags: Seq<bool>) -> Seq<(usize, usize)> {
    set_flags_below(flags, flags.len() as int).map_values(|k: int| page_coords(k))
}

/// The write that brings page `k` of the display up to date.
pub open spec fn page_write(cells: Seq<u8>, k: int) -> PageWrite {
    PageWrite {
        column: (k / 8 + COLUMN_OFFSET) as u8,
        page_start: ((k % 8) * 8) as u8,
        data: page_byte(cells, k),
    }
}

/// The writes for every dirty page, in ascending column-major order.
pub open spec fn page_writes(cells: Seq<u8>, flags: Seq<bool>) -> Seq<PageWrite> {
    set_flags_below(flags, flags.len() as int).map_values(|k: int| page_write(cells, k))
}

/// Number of new points lit in each frame.
pub const POINTS_PER_TICK: usize = 5;

/// Number of ticks a newly lit point stays lit.
pub const POINT_LIFETIME: u8 = 100;

/// Every counter after one tick of ageing.
pub open spec fn decayed_cells(cells: Seq<u8>) -> Seq<u8> {
    Seq::new(cells.len(), |i: int| decayed(cells[i]))
}

/// The dirty flags after one tick of ageing: a page is also marked where
/// one of its pixels goes dark.
pub open spec fn decayed_flags(cells: Seq<u8>, flags: Seq<bool>) -> Seq<bool> {
    Seq::new(flags.len(), |k: int| flags[k] || page_expires(cells, k))
}

/// Counters and flags after lighting `points` in turn for `POINT_LIFETIME`
/// ticks each, marking a page wherever a pixel changes liveness.
pub open spec fn light_points(cells: Seq<u8>, flags: Seq<bool>, points: Seq<Point>) -> (
    Seq<u8>,
    Seq<bool>,
)
    decreases points.len(),
{
    if points.len() == 0 {
        (cells, flags)
    } else {
        let (c, f) = light_points(cells, flags, points.drop_last());
        let i = pixel_index(points.last());
        (
            c.update(i, POINT_LIFETIME),
            if liveness_differs(c[i], POINT_LIFETIME) {
                f.update(i / 8, true)
            } else {
                f
            },
        )
    }
}

/// Counters and flags of a frame just before its dirty pages are listed:
/// aged by one tick, then with `points` lit.
pub open spec fn frame_state(cells: Seq<u8>, flags: Seq<bool>, points: Seq<Point>) -> (
    Seq<u8>,
    Seq<bool>,
) {
    light_points(decayed_cells(cells), decayed_flags(cells, flags), points)
}

/// One page update for the display: select the column, select the page
/// row (given as its first pixel row), then send one byte.
#[derive(Clone, Copy, Debug, PartialEq, Eq, Structural)]
pub struct PageWrite {
    pub column: u8,
    pub page_start: u8,
    pub data: u8,
}

/// Per-pixel fade counters and the pages that must be resent.
pub struct FadingBufferedDrawer {
    /// Column-major: pixel (x, y) at `x * 64 + y`.
    pixel_lifetimes: Vec<u8>,
    /// Page (x, page_row) at `x * 8 + page_row`.
    resend: Vec<bool>,
}

impl FadingBufferedDrawer {
    /// The lifetime counters, column-major.
    pub closed spec fn lifetimes(&self) -> Seq<u8> {
        self.pixel_lifetimes@
    }

    /// The dirty flags, one per page, column-major.
    pub closed spec fn flags(&self) -> Seq<bool> {
        self.resend@
    }

    /// One counter per pixel and one flag per page.
    pub open spec fn wf(&self) -> bool {
        self.lifetimes().len() == PIXELS && self.flags().len() == PAGES
    }

    /// A dark display with no page to resend.
    pub fn new() -> (r: Self)
        ensures
            r.wf(),
            r.lifetimes() == Seq::new(PIXELS as nat, |i: int| 0u8),
            r.flags() == no_marks(),
    {
        FadingBufferedDrawer { pixel_lifetimes: vec![0u8; PIXELS], resend: vec![false; PAGES] }
    }

    /// Lets every lit pixel age by one tick. A pixel whose counter reaches
    /// zero goes dark, and its page is marked to be resent.
    pub fn decrease_lifetimes(&mut self)
        requires
            old(self).wf(),
        ensures
            final(self).wf(),
            forall|i: int|
                0 <= i < PIXELS ==> #[trigger] final(self).lifetimes()[i] == decayed(
                    old(self).lifetimes()[i],
                ),
            forall|k: int|
                0 <= k < PAGES ==> #[trigger] final(self).flags()[k] == (old(self).flags()[k]
                    || page_expires(old(self).lifetimes(), k)),
    {
        let ghost cells = self.pixel_lifetimes@;
        let ghost flags = self.resend@;
        let mut i: usize = 0;
        while i < PIXELS
            invariant
                0 <= i <= PIXELS,
                self.pixel_lifetimes@.len() == PIXELS,
                self.resend@.len() == PAGES,
                cells.len() == PIXELS,
                flags.len() == PAGES,
                forall|j: int| 0 <= j < i ==> #[trigger] self.pixel_lifetimes@[j] == decayed(cells[j]),
                forall|j: int| i <= j < PIXELS ==> #[trigger] self.pixel_lifetimes@[j] == cells[j],
                forall|k: int|
                    0 <= k < PAGES ==> #[trigger] self.resend@[k] == (flags[k] || exists|j: int|
                        8 * k <= j < 8 * k + 8 && j < i && #[trigger] cells[j] == 1),
            decreases PIXELS - i,
        {
            let lifetime = self.pixel_lifetimes[i];
            if lifetime != 0 {
                self.pixel_lifetimes.set(i, lifetime - 1);
                if lifetime == 1 {
                    self.resend.set(i / 8, true);
                }
            }
            assert forall|k: int| 0 <= k < PAGES implies #[trigger] self.resend@[k] == (flags[k]
                || exists|j: int| 8 * k <= j < 8 * k + 8 && j < i + 1 && #[trigger] cells[j] == 1) by {
                if 8 * k <= i < 8 * k + 8 {
                    assert(k == i / 8);
                } else {
                    assert(k != i / 8);
                }
            }
            i = i + 1;
        }
    }

    /// Sets the counter of pixel `p`, overwriting the old one. Returns
    /// whether the pixel went from dark to lit or from lit to dark; its
    /// page is then marked to be resent.
    pub fn set_pixel_lifetime(&mut self, p: Point, new_lifetime: u8) -> (changed: bool)
        requires
            old(self).wf(),
            p.on_display(),
        ensures
            final(self).wf(),
            changed == liveness_differs(old(self).lifetimes()[pixel_index(p)], new_lifetime),
            final(self).lifetimes() == old(self).lifetimes().update(pixel_index(p), new_lifetime),
            final(self).flags() == if changed {
                old(self).flags().update(pixel_index(p) / 8, true)
            } else {
                old(self).flags()
            },
    {
        let i = p.0 * 64 + p.1;
        let changed = (self.pixel_lifetimes[i] != 0) != (new_lifetime != 0);
        if changed {
            self.resend.set(i / 8, true);
        }
        self.pixel_lifetimes.set(i, new_lifetime);
        changed
    }

    /// Marks the page that holds pixel `p` to be resent.
    pub fn mark_dirty(&mut self, p: Point)
        requires
            old(self).wf(),
            p.on_display(),
        ensures
            final(self).wf(),
            final(self).lifetimes() == old(self).lifetimes(),
            final(self).flags() == old(self).flags().update(pixel_index(p) / 8, true),
    {
        let i = p.0 * 64 + p.1;
        self.resend.set(i / 8, true);
    }

    /// The counter of pixel `p`.
    pub fn lifetime(&self, p: Point) -> (r: u8)
        requires
            self.wf(),
            p.on_display(),
        ensures
            r == self.lifetimes()[pixel_index(p)],
    {
        self.pixel_lifetimes[p.0 * 64 + p.1]
    }

    /// Whether page (`column`, `page_row`) is marked to be resent.
    pub fn is_dirty(&self, column: usize, page_row: usize) -> (r: bool)
        requires
            self.wf(),
            column < 128,
            page_row < 8,
        ensures
            r == self.flags()[page_index(column as int, page_row as int)],
    {
        self.resend[column * 8 + page_row]
    }

    /// Lists every page marked to be resent, as (column, page row) in
    /// ascending column-major order, and clears all marks.
    pub fn drain_dirty_pages(&mut self) -> (pages: Vec<(usize, usize)>)
        requires
            old(self).wf(),
        ensures
            final(self).wf(),
            pages@ == dirty_pages(old(self).flags()),
            final(self).lifetimes() == old(self).lifetimes(),
            final(self).flags() == no_marks(),
    {
        let mut pages: Vec<(usize, usize)> = Vec::new();
        let mut k: usize = 0;
        while k < PAGES
            invariant
                0 <= k <= PAGES,
                self.resend@.len() == PAGES,
                pages@ == set_flags_below(self.resend@, k as int).map_values(
                    |k: int| page_coords(k),
                ),
            decreases PAGES - k,
        {
            if self.resend[k] {
                pages.push((k / 8, k % 8));
            }
            assert(set_flags_below(self.resend@, k + 1) == if self.resend@[k as int] {
                set_flags_below(self.resend@, k as int).push(k as int)
            } else {
                set_flags_below(self.resend@, k as int)
            });
            assert(pages@ =~= set_flags_below(self.resend@, k + 1).map_values(
                |k: int| page_coords(k),
            ));
            k = k + 1;
        }
        self.resend = vec![false; PAGES];
        pages
    }

    /// The display byte of page (`column`, `page_row`), built from the
    /// current counters by folding the page's rows from the bottom up.
    pub fn pack_page(&self, column: usize, page_row: usize) -> (r: u8)
        requires
            self.wf(),
            column < 128,
            page_row < 8,
        ensures
            r == page_byte(self.lifetimes(), page_index(column as int, page_row as int)),
    {
        let base: usize = (column * 8 + page_row) * 8;
        let ghost cells = self.pixel_lifetimes@;
        let mut acc: u8 = 0;
        let mut i: usize = 8;
        while i > 0
            invariant
                0 <= i <= 8,
                cells.len() == PIXELS,
                base + 8 <= PIXELS,
                cells == self.pixel_lifetimes@,
                acc == fold_rows(cells, base as int, i as int),
            decreases i,
        {
            i = i - 1;
            let bit: u8 = if self.pixel_lifetimes[base + i] > 0 {
                1
            } else {
                0
            };
            acc = (acc << 1u8) | bit;
        }
        proof {
            lemma_fold_rows_is_page_byte(cells, page_index(column as int, page_row as int));
        }
        acc
    }

    /// Lists the writes that bring every dirty page of the display up to
    /// date, from the counters as they are now, in ascending column-major
    /// order, and clears all marks.
    pub fn draw_pixels(&mut self) -> (writes: Vec<PageWrite>)
        requires
            old(self).wf(),
        ensures
            final(self).wf(),
            writes@ == page_writes(old(self).lifetimes(), old(self).flags()),
            final(self).lifetimes() == old(self).lifetimes(),
            final(self).flags() == no_marks(),
    {
        let ghost flags = self.resend@;
        let pages = self.drain_dirty_pages();
        let ghost ks = set_flags_below(flags, PAGES as int);
        proof {
            lemma_set_flags_below_bounded(flags, PAGES as int);
        }
        let mut writes: Vec<PageWrite> = Vec::new();
        let mut j: usize = 0;
        while j < pages.len()
            invariant
                self.wf(),
                0 <= j <= pages@.len(),
                pages@ == ks.map_values(|k: int| page_coords(k)),
                forall|m: int| 0 <= m < ks.len() ==> 0 <= #[trigger] ks[m] < PAGES,
                writes@ == ks.take(j as int).map_values(|k: int| page_write(self.lifetimes(), k)),
            decreases pages@.len() - j,
        {
            let (column, page_row) = pages[j];
            proof {
                let k = ks[j as int];
                assert(pages@[j as int] == page_coords(k));
            }
            let data = self.pack_page(column, page_row);
            writes.push(
                PageWrite {
                    column: column as u8 + COLUMN_OFFSET,
                    page_start: page_row as u8 * 8,
                    data,
                },
            );
            assert(ks.take(j + 1) == ks.take(j as int).push(ks[j as int]));
            assert(writes@ =~= ks.take(j + 1).map_values(|k: int| page_write(self.lifetimes(), k)));
            j = j + 1;
        }
        assert(ks.take(pages@.len() as int) =~= ks);
        writes
    }

    /// One animation frame for the given new points: every counter ages by
    /// one tick, each point is lit for `POINT_LIFETIME` ticks, then the
    /// writes for the dirty pages are listed from the resulting counters and
    /// all marks are cleared.
    pub fn render_frame(&mut self, points: &[Point]) -> (writes: Vec<PageWrite>)
        requires
            old(self).wf(),
            forall|j: int| 0 <= j < points@.len() ==> (#[trigger] points@[j]).on_display(),
        ensures
            final(self).wf(),
            final(self).lifetimes() == frame_state(
                old(self).lifetimes(),
                old(self).flags(),
                points@,
            ).0,
            final(self).flags() == no_marks(),
            writes@ == page_writes(
                frame_state(old(self).lifetimes(), old(self).flags(), points@).0,
                frame_state(old(self).lifetimes(), old(self).flags(), points@).1,
            ),
    {
        self.decrease_lifetimes();
        assert(self.lifetimes() =~= decayed_cells(old(self).lifetimes()));
        assert(self.flags() =~= decayed_flags(old(self).lifetimes(), old(self).flags()));
        let ghost start = (self.lifetimes(), self.flags());
        let mut j: usize = 0;
        while j < points.len()
            invariant
                self.wf(),
                0 <= j <= points@.len(),
                forall|m: int| 0 <= m < points@.len() ==> (#[trigger] points@[m]).on_display(),
                (self.lifetimes(), self.flags()) == light_points(
                    start.0,
                    start.1,
                    points@.take(j as int),
                ),
            decreases points@.len() - j,
        {
            self.set_pixel_lifetime(points[j], POINT_LIFETIME);
            assert(points@.take(j + 1).drop_last() =~= points@.take(j as int));
            j = j + 1;
        }
        assert(points@.take(points@.len() as int) =~= points@);
        self.draw_pixels()
    }

    /// One animation frame with `POINTS_PER_TICK` new points drawn from
    /// `points`; see `render_frame`.
    pub fn tick(&mut self, points: &mut SierpinskiPoints) -> (writes: Vec<PageWrite>)
        requires
            old(self).wf(),
            old(points).wf(),
        ensures
            final(self).wf(),
            final(points).wf(),
            final(self).flags() == no_marks(),
            exists|new_points: Seq<Point>|
                {
                    &&& new_points.len() == POINTS_PER_TICK
                    &&& chaos_step(old(points).cursor_point(), new_points[0])
                    &&& forall|j: int|
                        0 <= j < POINTS_PER_TICK - 1 ==> chaos_step(
                            #[trigger] new_points[j],
                            new_points[j + 1],
                        )
                    &&& final(points).cursor_point() == new_points[POINTS_PER_TICK - 1]
                    &&& forall|j: int|
                        0 <= j < POINTS_PER_TICK ==> (#[trigger] new_points[j]).on_display()
                    &&& final(self).lifetimes() == frame_state(
                        old(self).lifetimes(),
                        old(self).flags(),
                        new_points,
                    ).0
                    &&& writes@ == page_writes(
                        frame_state(old(self).lifetimes(), old(self).flags(), new_points).0,
                        frame_state(old(self).lifetimes(), old(self).flags(), new_points).1,
                    )
                },
    {
        let mut new_points: Vec<Point> = Vec::new();
        let mut j: usize = 0;
        while j < POINTS_PER_TICK
            invariant
                points.wf(),
                0 <= j <= POINTS_PER_TICK,
                new_points@.len() == j,
                forall|m: int| 0 <= m < j ==> (#[trigger] new_points@[m]).on_display(),
                j == 0 ==> points.cursor_point() == old(points).cursor_point(),
                j > 0 ==> points.cursor_point() == new_points@[j - 1],
                j > 0 ==> chaos_step(old(points).cursor_point(), new_points@[0]),
                forall|m: int| 0 <= m < j - 1 ==> chaos_step(
                    #[trigger] new_points@[m],
                    new_points@[m + 1],
                ),
            decreases POINTS_PER_TICK - j,
        {
            let p = points.next_point();
            new_points.push(p);
            j = j + 1;
        }
        let writes = self.render_frame(new_points.as_slice());
        assert(forall|j: int|
            0 <= j < POINTS_PER_TICK - 1 ==> chaos_step(
                #[trigger] new_points@[j],
                new_points@[j + 1],
            ));
        writes
    }

}

/// Folding the rows of page `k` from the bottom up gives the page's byte.
proof fn lemma_fold_rows_is_page_byte(cells: Seq<u8>, k: int)
    ensures
        fold_rows(cells, 8 * k, 0) == page_byte(cells, k),
{
    reveal_with_fuel(fold_rows, 9);
    let b0 = lit(cells[8 * k]);
    let b1 = lit(cells[8 * k + 1]);
    let b2 = lit(cells[8 * k + 2]);
    let b3 = lit(cells[8 * k + 3]);
    let b4 = lit(cells[8 * k + 4]);
    let b5 = lit(cells[8 * k + 5]);
    let b6 = lit(cells[8 * k + 6]);
    let b7 = lit(cells[8 * k + 7]);
    assert(((((((((((((((((0u8 << 1u8) | b7) << 1u8) | b6) << 1u8) | b5) << 1u8) | b4) << 1u8)
        | b3) << 1u8) | b2) << 1u8) | b1) << 1u8) | b0) == b0 | (b1 << 1u8) | (b2 << 2u8) | (b3
        << 3u8) | (b4 << 4u8) | (b5 << 5u8) | (b6 << 6u8) | (b7 << 7u8)) by (bit_vector)
        requires
            b0 <= 1,
            b1 <= 1,
            b2 <= 1,
            b3 <= 1,
            b4 <= 1,
            b5 <= 1,
            b6 <= 1,
            b7 <= 1,
    ;
}

/// Every index that `set_flags_below` lists is below its bound.
proof fn lemma_set_flags_below_bounded(flags: Seq<bool>, n: int)
    ensures
        forall|m: int|
            0 <= m < set_flags_below(flags, n).len() ==> 0 <= #[trigger] set_flags_below(
                flags,
                n,
            )[m] < n,
    decreases n,
{
    if n > 0 {
        lemma_set_flags_below_bounded(flags, n - 1);
        let prev = set_flags_below(flags, n - 1);
        if flags[n - 1] {
            assert forall|m: int| 0 <= m < prev.len() + 1 implies 0 <= #[trigger] prev.push(
                n - 1,
            )[m] < n by {
                if m < prev.len() {
                    assert(prev.push(n - 1)[m] == prev[m]);
                }
            }
        }
    }
}

/// What one tick does to a single counter: a dark pixel stays dark, a
/// pixel at 1 goes dark and is reported, and a pixel above 1 counts down
/// by one without being reported.
pub proof fn lemma_decay_counter(c: u8)
    ensures
        c == 0 ==> decayed(c) == 0 && !liveness_differs(c, decayed(c)),
        c == 1 ==> decayed(c) == 0 && liveness_differs(c, decayed(c)),
        c > 1 ==> decayed(c) == c - 1 && !liveness_differs(c, decayed(c)),
        liveness_differs(c, decayed(c)) <==> c == 1,
{
}

/// `set_flags_below` lists exactly the set flags below `n`, each once, in
/// ascending order.
proof fn lemma_set_flags_below(flags: Seq<bool>, n: int)
    requires
        0 <= n <= flags.len(),
    ensures
        forall|k: int|
            set_flags_below(flags, n).contains(k) <==> (0 <= k < n && #[trigger] flags[k]),
        forall|a: int, b: int|
            0 <= a < b < set_flags_below(flags, n).len() ==> #[trigger] set_flags_below(
                flags,
                n,
            )[a] < #[trigger] set_flags_below(flags, n)[b],
    decreases n,
{
    if n > 0 {
        lemma_set_flags_below(flags, n - 1);
        lemma_set_flags_below_bounded(flags, n - 1);
        let prev = set_flags_below(flags, n - 1);
        if flags[n - 1] {
            let cur = prev.push(n - 1);
            assert forall|k: int| cur.contains(k) <==> (0 <= k < n && #[trigger] flags[k]) by {
                if cur.contains(k) {
                    let m = choose|m: int| 0 <= m < cur.len() && cur[m] == k;
                    if m < prev.len() {
                        assert(prev[m] == k);
                    }
                }
                if 0 <= k < n - 1 && flags[k] {
                    assert(prev.contains(k));
                    let m = choose|m: int| 0 <= m < prev.len() && prev[m] == k;
                    assert(cur[m] == k);
                }
                if k == n - 1 && flags[k] {
                    assert(cur[prev.len() as int] == k);
                }
            }
            assert forall|a: int, b: int| 0 <= a < b < cur.len() implies #[trigger] cur[a]
                < #[trigger] cur[b] by {
                assert(cur[a] == prev[a]);
                if b < prev.len() {
                    assert(cur[b] == prev[b]);
                }
            }
        }
    }
}

/// Draining lists each marked page exactly once, as (column, page row),
/// in ascending column-major order; and a drain right after a drain,
/// with nothing marked in between, lists nothing.
pub proof fn lemma_drain_lists_marked_pages(flags: Seq<bool>)
    requires
        flags.len() == PAGES,
    ensures
        forall|x: usize, r: usize|
            x < 128 && r < 8 ==> (dirty_pages(flags).contains((x, r)) <==> #[trigger] flags[page_index(
                x as int,
                r as int,
            )]),
        forall|a: int, b: int|
            0 <= a < b < dirty_pages(flags).len() ==> page_index(
                #[trigger] dirty_pages(flags)[a].0 as int,
                dirty_pages(flags)[a].1 as int,
            ) < page_index(
                #[trigger] dirty_pages(flags)[b].0 as int,
                dirty_pages(flags)[b].1 as int,
            ),
        dirty_pages(no_marks()).len() == 0,
{
    let ks = set_flags_below(flags, PAGES as int);
    let pages = dirty_pages(flags);
    lemma_set_flags_below(flags, PAGES as int);
    lemma_set_flags_below_bounded(flags, PAGES as int);
    assert forall|m: int| 0 <= m < ks.len() implies page_index(
        (#[trigger] pages[m]).0 as int,
        pages[m].1 as int,
    ) == ks[m] by {
        assert(pages[m] == page_coords(ks[m]));
    }
    assert forall|x: usize, r: usize| x < 128 && r < 8 implies (pages.contains((x, r))
        <==> #[trigger] flags[page_index(x as int, r as int)]) by {
        let k = page_index(x as int, r as int);
        if flags[k] {
            assert(ks.contains(k));
            let m = choose|m: int| 0 <= m < ks.len() && ks[m] == k;
            assert(pages[m] == page_coords(k));
            assert(k / 8 == x && k % 8 == r);
        }
        if pages.contains((x, r)) {
            let m = choose|m: int| 0 <= m < pages.len() && pages[m] == (x, r);
            assert(ks.contains(ks[m]));
        }
    }
    let cleared = no_marks();
    lemma_set_flags_below(cleared, PAGES as int);
    let none = set_flags_below(cleared, PAGES as int);
    if none.len() > 0 {
        assert(none.contains(none[0]));
        assert(!cleared[none[0]]);
    }
    assert(dirty_pages(cleared).len() == none.len());
}

/// Flags after `mark_dirty` on each of `marks` in turn.
pub open spec fn marked(flags: Seq<bool>, marks: Seq<Point>) -> Seq<bool>
    decreases marks.len(),
{
    if marks.len() == 0 {
        flags
    } else {
        marked(flags, marks.drop_last()).update(pixel_index(marks.last()) / 8, true)
    }
}

/// Some point of `marks` lies in page (`column`, `page_row`).
pub open spec fn page_was_marked(marks: Seq<Point>, column: int, page_row: int) -> bool {
    exists|j: int| 0 <= j < marks.len() && marks[j].0 == column && #[trigger] marks[j].1 / 8 == page_row
}

proof fn lemma_marked_flags(marks: Seq<Point>)
    requires
        forall|j: int| 0 <= j < marks.len() ==> (#[trigger] marks[j]).on_display(),
    ensures
        marked(no_marks(), marks).len() == PAGES,
        forall|x: int, r: int|
            0 <= x < 128 && 0 <= r < 8 ==> (#[trigger] marked(
                no_marks(),
                marks,
            )[page_index(x, r)] <==> page_was_marked(marks, x, r)),
    decreases marks.len(),
{
    let clean = no_marks();
    if marks.len() > 0 {
        let prev = marks.drop_last();
        lemma_marked_flags(prev);
        let p = marks.last();
        assert(pixel_index(p) / 8 == page_index(p.0 as int, (p.1 / 8) as int));
        assert forall|x: int, r: int| 0 <= x < 128 && 0 <= r < 8 implies (#[trigger] marked(
            clean,
            marks,
        )[page_index(x, r)] <==> page_was_marked(marks, x, r)) by {
            if page_was_marked(prev, x, r) {
                let j = choose|j: int|
                    0 <= j < prev.len() && prev[j].0 == x && #[trigger] prev[j].1 / 8 == r;
                assert(marks[j] == prev[j]);
            }
            if page_was_marked(marks, x, r) {
                let j = choose|j: int|
                    0 <= j < marks.len() && marks[j].0 == x && #[trigger] marks[j].1 / 8 == r;
                if j < prev.len() {
                    assert(prev[j] == marks[j]);
                }
            }
            if page_index(x, r) == page_index(p.0 as int, (p.1 / 8) as int) {
                assert(x == p.0 && r == p.1 / 8);
                assert(marks[marks.len() - 1] == p);
            }
        }
    }
}

/// Starting from no marks, after `mark_dirty` on each of `marks` in turn,
/// draining lists a page iff one of the marked points lies in it.
pub proof fn lemma_drain_after_marks(marks: Seq<Point>)
    requires
        forall|j: int| 0 <= j < marks.len() ==> (#[trigger] marks[j]).on_display(),
    ensures
        forall|x: usize, r: usize|
            x < 128 && r < 8 ==> (#[trigger] dirty_pages(
                marked(no_marks(), marks),
            ).contains((x, r)) <==> page_was_marked(marks, x as int, r as int)),
{
    let flags = marked(no_marks(), marks);
    lemma_marked_flags(marks);
    lemma_drain_lists_marked_pages(flags);
    assert forall|x: usize, r: usize| x < 128 && r < 8 implies (#[trigger] dirty_pages(
        flags,
    ).contains((x, r)) <==> page_was_marked(marks, x as int, r as int)) by {
        assert(flags[page_index(x as int, r as int)] <==> page_was_marked(
            marks,
            x as int,
            r as int,
        ));
    }
}

} // verus!
