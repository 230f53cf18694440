use sierpinski_fade::{FadingBufferedDrawer, PageWrite, Point, SierpinskiPoints};

const SEED: [u8; 32] = *b"I am an adequate seed of chaos:)";

#[test]
fn decay_leaves_dark_pixel_dark() {
    let mut d = FadingBufferedDrawer::new();
    d.decrease_lifetimes();
    assert_eq!(d.lifetime(Point(3, 9)), 0);
    assert!(!d.is_dirty(3, 1));
    assert!(d.drain_dirty_pages().is_empty());
}

#[test]
fn decay_from_one_goes_dark_and_marks_page() {
    let mut d = FadingBufferedDrawer::new();
    d.set_pixel_lifetime(Point(3, 9), 1);
    d.drain_dirty_pages();
    d.decrease_lifetimes();
    assert_eq!(d.lifetime(Point(3, 9)), 0);
    assert!(d.is_dirty(3, 1));
    assert_eq!(d.drain_dirty_pages(), vec![(3, 1)]);
}

#[test]
fn decay_from_many_counts_down_without_mark() {
    let mut d = FadingBufferedDrawer::new();
    d.set_pixel_lifetime(Point(127, 63), 42);
    d.drain_dirty_pages();
    d.decrease_lifetimes();
    assert_eq!(d.lifetime(Point(127, 63)), 41);
    assert!(!d.is_dirty(127, 7));
}

#[test]
fn set_lifetime_reports_liveness_changes() {
    let mut d = FadingBufferedDrawer::new();
    assert!(d.set_pixel_lifetime(Point(10, 20), 5));
    assert!(d.is_dirty(10, 2));
    d.drain_dirty_pages();
    assert!(!d.set_pixel_lifetime(Point(10, 20), 9));
    assert_eq!(d.lifetime(Point(10, 20)), 9);
    assert!(!d.is_dirty(10, 2));
    assert!(d.set_pixel_lifetime(Point(10, 20), 0));
    assert!(d.is_dirty(10, 2));
    d.drain_dirty_pages();
    assert!(!d.set_pixel_lifetime(Point(10, 20), 0));
    assert!(!d.is_dirty(10, 2));
}

#[test]
fn set_lifetime_overwrites() {
    let mut d = FadingBufferedDrawer::new();
    d.set_pixel_lifetime(Point(0, 0), 200);
    d.set_pixel_lifetime(Point(0, 0), 3);
    assert_eq!(d.lifetime(Point(0, 0)), 3);
}

#[test]
fn drain_lists_marked_pages_once_in_order() {
    let mut d = FadingBufferedDrawer::new();
    d.mark_dirty(Point(5, 63));
    d.mark_dirty(Point(0, 17));
    d.mark_dirty(Point(5, 2));
    d.mark_dirty(Point(0, 16));
    d.mark_dirty(Point(5, 60));
    d.mark_dirty(Point(127, 0));
    assert_eq!(d.drain_dirty_pages(), vec![(0, 2), (5, 0), (5, 7), (127, 0)]);
    assert!(d.drain_dirty_pages().is_empty());
}

#[test]
fn drain_of_all_pages() {
    let mut d = FadingBufferedDrawer::new();
    for x in 0..128 {
        for y in 0..64 {
            d.set_pixel_lifetime(Point(x, y), 1);
        }
    }
    let pages = d.drain_dirty_pages();
    assert_eq!(pages.len(), 1024);
    assert_eq!(pages[0], (0, 0));
    assert_eq!(pages[9], (1, 1));
    assert_eq!(pages[1023], (127, 7));
    d.decrease_lifetimes();
    assert_eq!(d.drain_dirty_pages().len(), 1024);
}

#[test]
fn pack_literal_page() {
    let mut d = FadingBufferedDrawer::new();
    let counters = [0u8, 5, 0, 0, 3, 0, 0, 7];
    for (i, c) in counters.iter().enumerate() {
        d.set_pixel_lifetime(Point(40, 24 + i), *c);
    }
    assert_eq!(d.pack_page(40, 3), 0b1001_0010);
    assert_eq!(d.pack_page(40, 2), 0);
    assert_eq!(
        d.draw_pixels(),
        vec![PageWrite { column: 42, page_start: 24, data: 0b1001_0010 }]
    );
    assert!(d.draw_pixels().is_empty());
}

#[test]
fn pack_top_and_bottom_rows() {
    let mut d = FadingBufferedDrawer::new();
    d.set_pixel_lifetime(Point(0, 0), 1);
    assert_eq!(d.pack_page(0, 0), 0b0000_0001);
    d.set_pixel_lifetime(Point(0, 0), 0);
    d.set_pixel_lifetime(Point(0, 7), 1);
    assert_eq!(d.pack_page(0, 0), 0b1000_0000);
}

#[test]
fn draw_uses_current_state() {
    let mut d = FadingBufferedDrawer::new();
    d.set_pixel_lifetime(Point(7, 8), 1);
    d.set_pixel_lifetime(Point(7, 8), 0);
    d.set_pixel_lifetime(Point(7, 8), 4);
    d.set_pixel_lifetime(Point(7, 9), 2);
    assert_eq!(
        d.draw_pixels(),
        vec![PageWrite { column: 9, page_start: 8, data: 0b0000_0011 }]
    );
}

#[test]
fn midpoint_rounds_down() {
    assert_eq!(Point(64, 0).midpoint(&Point(32, 63)), Point(48, 31));
    assert_eq!(Point(1, 1).midpoint(&Point(0, 0)), Point(0, 0));
}

#[test]
fn first_point_is_a_midpoint_of_the_first_corner() {
    let mut g = SierpinskiPoints::new(SEED);
    let p = g.next_point();
    assert!(p == Point(64, 0) || p == Point(48, 31) || p == Point(80, 31));
}

#[test]
fn generator_points_follow_the_chaos_game() {
    let corners = [Point(64, 0), Point(32, 63), Point(96, 63)];
    let mut g = SierpinskiPoints::new(SEED);
    let mut last = corners[0];
    let mut seen = [false; 3];
    for _ in 0..10_000 {
        let p = g.next_point();
        assert!(p.0 < 128 && p.1 < 64);
        let i = corners.iter().position(|c| last.midpoint(c) == p);
        assert!(i.is_some());
        seen[i.unwrap()] = true;
        last = p;
    }
    assert_eq!(seen, [true, true, true]);
}

#[test]
fn generator_is_deterministic() {
    let mut a = SierpinskiPoints::new(SEED);
    let mut b = SierpinskiPoints::new(SEED);
    for _ in 0..10_000 {
        assert_eq!(a.next_point(), b.next_point());
    }
}

#[test]
fn render_frame_ages_then_lights() {
    let mut d = FadingBufferedDrawer::new();
    d.set_pixel_lifetime(Point(1, 1), 1);
    d.set_pixel_lifetime(Point(2, 2), 3);
    d.drain_dirty_pages();
    let writes = d.render_frame(&[Point(1, 1), Point(100, 50)]);
    assert_eq!(d.lifetime(Point(1, 1)), 100);
    assert_eq!(d.lifetime(Point(2, 2)), 2);
    assert_eq!(d.lifetime(Point(100, 50)), 100);
    assert_eq!(
        writes,
        vec![
            PageWrite { column: 3, page_start: 0, data: 0b0000_0010 },
            PageWrite { column: 102, page_start: 48, data: 0b0000_0100 },
        ]
    );
}

fn run(ticks: usize) -> (Vec<u8>, Vec<PageWrite>) {
    let mut d = FadingBufferedDrawer::new();
    let mut g = SierpinskiPoints::new(SEED);
    let mut writes = Vec::new();
    for _ in 0..ticks {
        writes = d.tick(&mut g);
    }
    let mut cells = Vec::new();
    for x in 0..128 {
        for y in 0..64 {
            cells.push(d.lifetime(Point(x, y)));
        }
    }
    (cells, writes)
}

#[test]
fn thousand_ticks_are_reproducible() {
    let (cells, writes) = run(1000);
    assert_eq!((cells.clone(), writes), run(1000));
    let lit = cells.iter().filter(|c| **c > 0).count();
    assert!(lit > 0 && lit <= 500);
    assert!(cells.iter().all(|c| *c <= 100));
}

// The expected values below follow rand 0.8's SmallRng stream on 64-bit targets.

#[test]
fn seeded_points_golden() {
    let mut g = SierpinskiPoints::new(SEED);
    let first: Vec<Point> = (0..6).map(|_| g.next_point()).collect();
    assert_eq!(
        first,
        vec![Point(48, 31), Point(72, 47), Point(52, 55), Point(58, 27), Point(61, 13), Point(78, 38)]
    );
}

#[test]
fn thousand_ticks_golden() {
    let (cells, writes) = run(1000);
    let lit = cells.iter().filter(|c| **c > 0).count();
    let sum: u64 = cells.iter().map(|c| *c as u64).sum();
    let weighted: u64 =
        cells.iter().enumerate().map(|(i, c)| (i as u64 + 1) * (*c as u64)).sum();
    assert_eq!(lit, 393);
    assert_eq!(sum, 21064);
    assert_eq!(weighted, 88249535);
    assert_eq!(
        writes,
        vec![
            PageWrite { column: 56, page_start: 40, data: 48 },
            PageWrite { column: 61, page_start: 16, data: 192 },
            PageWrite { column: 68, page_start: 0, data: 32 },
            PageWrite { column: 70, page_start: 8, data: 9 },
            PageWrite { column: 92, page_start: 56, data: 38 },
        ]
    );
}
