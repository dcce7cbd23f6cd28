use tilewm::geometry::Region;
use tilewm::layout::{arrange, bottom_stack, paper, side_stack, LayoutKind, LayoutParams};

fn r(x: u32, y: u32, w: u32, h: u32) -> Region {
    Region::new(x, y, w, h)
}

fn overlaps(a: &Region, b: &Region) -> bool {
    a.x < b.x + b.w && b.x < a.x + a.w && a.y < b.y + b.h && b.y < a.y + a.h
}

fn check_tiling(rects: &[Region], screen: Region) {
    let mut area: u64 = 0;
    for (i, a) in rects.iter().enumerate() {
        assert!(a.x >= screen.x && a.x + a.w <= screen.x + screen.w);
        assert!(a.y >= screen.y && a.y + a.h <= screen.y + screen.h);
        area += a.w as u64 * a.h as u64;
        for b in rects.iter().skip(i + 1) {
            assert!(!overlaps(a, b), "{:?} overlaps {:?}", a, b);
        }
    }
    assert_eq!(area, screen.w as u64 * screen.h as u64);
}

#[test]
fn side_stack_splits_main_and_stack() {
    let out = side_stack(3, 1, 55, r(0, 0, 1000, 600));
    assert_eq!(out, vec![r(0, 0, 550, 600), r(550, 0, 450, 300), r(550, 300, 450, 300)]);
}

#[test]
fn side_stack_all_main_uses_full_width() {
    let out = side_stack(2, 5, 55, r(0, 0, 1000, 600));
    assert_eq!(out, vec![r(0, 0, 1000, 300), r(0, 300, 1000, 300)]);
}

#[test]
fn side_stack_no_main_uses_full_width() {
    let out = side_stack(2, 0, 55, r(10, 20, 100, 50));
    assert_eq!(out, vec![r(10, 20, 100, 25), r(10, 45, 100, 25)]);
}

#[test]
fn side_stack_uneven_rows_cover_height() {
    let out = side_stack(3, 0, 50, r(0, 0, 90, 100));
    assert_eq!(out, vec![r(0, 0, 90, 33), r(0, 33, 90, 33), r(0, 66, 90, 34)]);
}

#[test]
fn side_stack_ratio_above_hundred_is_clamped() {
    let out = side_stack(2, 1, 250, r(0, 0, 1000, 600));
    assert_eq!(out, vec![r(0, 0, 1000, 600), r(1000, 0, 0, 600)]);
}

#[test]
fn bottom_stack_puts_main_on_top() {
    let out = bottom_stack(3, 1, 55, r(0, 0, 1000, 600));
    assert_eq!(out, vec![r(0, 0, 1000, 330), r(0, 330, 500, 270), r(500, 330, 500, 270)]);
}

#[test]
fn paper_gives_focus_the_wide_column() {
    let out = paper(3, 1, 55, r(0, 0, 1000, 600));
    assert_eq!(out, vec![r(0, 0, 225, 600), r(225, 0, 550, 600), r(775, 0, 225, 600)]);
}

#[test]
fn paper_single_client_fills_screen() {
    assert_eq!(paper(1, 0, 55, r(5, 5, 640, 480)), vec![r(5, 5, 640, 480)]);
}

#[test]
fn paper_width_at_least_half() {
    let out = paper(2, 0, 10, r(0, 0, 1000, 600));
    assert_eq!(out, vec![r(0, 0, 500, 600), r(500, 0, 500, 600)]);
}

#[test]
fn zero_clients_give_no_rectangles() {
    let p = LayoutParams { max_main: 1, ratio: 55 };
    for kind in [LayoutKind::SideStack, LayoutKind::BottomStack, LayoutKind::Paper] {
        assert!(arrange(kind, 0, 0, p, r(0, 0, 800, 600)).is_empty());
    }
}

#[test]
fn floating_layout_places_nothing() {
    let p = LayoutParams { max_main: 1, ratio: 55 };
    assert!(arrange(LayoutKind::Floating, 4, 0, p, r(0, 0, 800, 600)).is_empty());
}

#[test]
fn stacks_tile_the_screen() {
    let screen = r(7, 3, 1366, 767);
    for n in 1..9usize {
        for max_main in 0..10u32 {
            for ratio in [0u32, 1, 33, 55, 99, 100, 150] {
                let s = side_stack(n, max_main, ratio, screen);
                assert_eq!(s.len(), n);
                check_tiling(&s, screen);
                let b = bottom_stack(n, max_main, ratio, screen);
                assert_eq!(b.len(), n);
                check_tiling(&b, screen);
            }
        }
    }
}

#[test]
fn paper_zero_clients_is_empty() {
    assert!(paper(0, 0, 55, r(0, 0, 800, 600)).is_empty());
}
