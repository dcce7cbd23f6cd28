use tilewm::geometry::Region;
use tilewm::layout::{Layout, LayoutConf, LayoutKind};
use tilewm::manager::{Action, Manager};
use tilewm::scratchpad::Scratchpad;

#[test]
fn scratchpad_spawns_once_then_hides_and_shows() {
    let mut sp = Scratchpad::new("st".to_string(), "st".to_string(), 80, 80);
    let first = sp.toggle();
    assert_eq!(first.len(), 1);
    assert!(matches!(&first[0], Action::Spawn(p) if p == "st"));
    assert!(sp.toggle().is_empty());
    let screen = Region::new(0, 0, 1000, 500);
    assert_eq!(sp.claim(7, &"firefox".to_string(), screen), None);
    assert_eq!(sp.claim(7, &"st".to_string(), screen), Some(Region::new(100, 50, 800, 400)));
    assert_eq!(sp.client, Some(7));
    let hide = sp.toggle();
    assert!(matches!(hide[..], [Action::Hide(7)]));
    let show = sp.toggle();
    assert!(matches!(show[..], [Action::Show(7), Action::Focus(7)]));
    sp.forget(7);
    assert_eq!(sp.client, None);
    assert!(sp.claim(8, &"st".to_string(), screen).is_none());
}

#[test]
fn scratchpad_share_is_clamped() {
    let mut sp = Scratchpad::new("firefox".to_string(), "firefox".to_string(), 90, 300);
    sp.toggle();
    let g = sp.claim(1, &"firefox".to_string(), Region::new(10, 10, 1001, 600)).unwrap();
    assert_eq!(g, Region::new(60, 10, 900, 600));
}

#[test]
fn floated_client_leaves_tiling() {
    let names = vec!["1".to_string()];
    let layouts = vec![Layout::new("[side]".to_string(), LayoutConf::standard(), LayoutKind::SideStack, 1, 50)];
    let mut m = Manager::new(&names, layouts, vec![], vec![], &vec![Region::new(0, 0, 800, 600)]).unwrap();
    m.handle_mapped(1, "st".to_string(), Region::new(0, 0, 10, 10));
    m.handle_mapped(2, "st".to_string(), Region::new(0, 0, 10, 10));
    let out = m.float_client(2, Region::new(80, 60, 640, 480));
    assert!(matches!(out[0], Action::Place(2, r) if r == Region::new(80, 60, 640, 480)));
    assert!(matches!(out[1], Action::Place(1, r) if r == Region::new(0, 0, 800, 600)));
    assert!(m.clients[1].floating);
    assert!(m.float_client(9, Region::new(0, 0, 1, 1)).is_empty());
}
