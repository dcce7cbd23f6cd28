use tilewm::layout::LayoutParams;
use tilewm::workspace::{Direction, Workspace};

fn ws(ids: &[u32]) -> Workspace {
    let mut w = Workspace::new("1".to_string(), vec![LayoutParams { max_main: 1, ratio: 55 }]);
    for id in ids {
        w.add_client(*id);
    }
    w
}

#[test]
fn add_client_appends_and_focuses() {
    let w = ws(&[4, 5, 6]);
    assert_eq!(w.clients, vec![4, 5, 6]);
    assert_eq!(w.focused_client(), Some(6));
}

#[test]
fn cycle_forward_then_backward_restores_focus() {
    for wrap in [true, false] {
        for start in 0..3usize {
            let mut w = ws(&[1, 2, 3]);
            w.focus = start;
            if !wrap && start == 2 {
                continue;
            }
            w.cycle_client(Direction::Forward, wrap);
            w.cycle_client(Direction::Backward, wrap);
            assert_eq!(w.focus, start);
            assert_eq!(w.clients, vec![1, 2, 3]);
        }
    }
}

#[test]
fn cycle_wraps_only_when_allowed() {
    let mut w = ws(&[1, 2, 3]);
    w.cycle_client(Direction::Forward, true);
    assert_eq!(w.focused_client(), Some(1));
    let mut v = ws(&[1, 2, 3]);
    v.cycle_client(Direction::Forward, false);
    assert_eq!(v.focused_client(), Some(3));
}

#[test]
fn cycle_single_client_is_no_op() {
    let mut w = ws(&[9]);
    w.cycle_client(Direction::Backward, true);
    assert_eq!(w.focused_client(), Some(9));
}

#[test]
fn drag_swaps_with_neighbour() {
    let mut w = ws(&[1, 2, 3]);
    w.focus = 0;
    w.drag_client(Direction::Forward);
    assert_eq!(w.clients, vec![2, 1, 3]);
    assert_eq!(w.focused_client(), Some(1));
}

#[test]
fn drag_k_times_and_back_restores_order() {
    for k in 0..7 {
        for start in 0..4usize {
            let mut w = ws(&[1, 2, 3, 4]);
            w.focus = start;
            for _ in 0..k {
                w.drag_client(Direction::Forward);
            }
            for _ in 0..k {
                w.drag_client(Direction::Backward);
            }
            assert_eq!(w.clients, vec![1, 2, 3, 4]);
            assert_eq!(w.focus, start);
        }
    }
}

#[test]
fn remove_client_keeps_focus_on_same_client() {
    let mut w = ws(&[1, 2, 3]);
    w.focus = 2;
    assert!(w.remove_client(1));
    assert_eq!(w.clients, vec![2, 3]);
    assert_eq!(w.focused_client(), Some(3));
    assert!(!w.remove_client(7));
    assert!(w.remove_client(3));
    assert_eq!(w.focused_client(), Some(2));
}
