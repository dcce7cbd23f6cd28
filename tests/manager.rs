use tilewm::geometry::Region;
use tilewm::layout::{Layout, LayoutConf, LayoutKind};
use tilewm::manager::{
    Action, Command, DefaultWorkspace, KeyBindings, KeyCode, Manager, Selector,
};
use tilewm::workspace::{Change, Direction};

fn screen() -> Region {
    Region::new(0, 0, 1920, 1080)
}

fn layouts() -> Vec<Layout> {
    let follow = LayoutConf { floating: false, gapless: true, follow_focus: true, allow_wrapping: true };
    vec![
        Layout::new("[side]".to_string(), LayoutConf::standard(), LayoutKind::SideStack, 1, 55),
        Layout::new("[botm]".to_string(), LayoutConf::standard(), LayoutKind::BottomStack, 1, 55),
        Layout::new("[papr]".to_string(), follow, LayoutKind::Paper, 1, 55),
        Layout::floating("[----]".to_string()),
    ]
}

fn manager_on(outputs: Vec<Region>) -> Manager {
    let names: Vec<String> = (1..=9).map(|i| i.to_string()).collect();
    let floating = vec!["dmenu".to_string(), "dunst".to_string(), "polybar".to_string(), "rofi".to_string()];
    let hooks = vec![DefaultWorkspace {
        workspace: "9".to_string(),
        layout: "[botm]".to_string(),
        programs: vec!["st".to_string(), "st".to_string(), "alacritty -e ranger".to_string()],
    }];
    Manager::new(&names, layouts(), floating, hooks, &outputs).unwrap()
}

fn manager() -> Manager {
    manager_on(vec![screen()])
}

fn spawns(actions: &[Action]) -> Vec<String> {
    actions
        .iter()
        .filter_map(|a| match a {
            Action::Spawn(p) => Some(p.clone()),
            _ => None,
        })
        .collect()
}

fn placements(actions: &[Action]) -> Vec<(u32, Region)> {
    actions
        .iter()
        .filter_map(|a| match a {
            Action::Place(id, r) => Some((*id, *r)),
            _ => None,
        })
        .collect()
}

#[test]
fn new_refuses_empty_configuration() {
    let names: Vec<String> = vec![];
    assert!(Manager::new(&names, layouts(), vec![], vec![], &vec![screen()]).is_none());
    let one = vec!["1".to_string()];
    assert!(Manager::new(&one, vec![], vec![], vec![], &vec![screen()]).is_none());
    assert!(Manager::new(&one, layouts(), vec![], vec![], &vec![]).is_none());
    let bad = Region::new(u32::MAX, 0, 10, 10);
    assert!(Manager::new(&one, layouts(), vec![], vec![], &vec![bad]).is_none());
}

#[test]
fn default_workspace_spawns_once() {
    let mut m = manager();
    let out = m.focus_workspace(8);
    assert_eq!(spawns(&out), vec!["st", "st", "alacritty -e ranger"]);
    assert_eq!(m.workspaces[8].layout, 1);
    for id in [11, 12, 13] {
        m.handle_mapped(id, "st".to_string(), Region::new(0, 0, 100, 100));
    }
    assert_eq!(m.workspaces[8].clients, vec![11, 12, 13]);
    let away = m.focus_workspace(0);
    assert!(spawns(&away).is_empty());
    let back = m.focus_workspace(8);
    assert!(spawns(&back).is_empty());
    let again = m.toggle_workspace();
    assert!(spawns(&again).is_empty());
}

#[test]
fn fullscreen_key_twice_restores_geometry() {
    let mut m = manager();
    let mut keys = KeyBindings::new();
    let key = KeyCode { mask: 0x40 | 0x1, code: 41 };
    keys.bind(key, Command::ToggleClientFullscreen(Selector::Focused));
    let start = Region::new(10, 20, 300, 200);
    m.handle_mapped(5, "dunst".to_string(), start);
    let first = m.handle_key(&keys, key);
    assert!(matches!(first[0], Action::Place(5, r) if r == screen()));
    assert!(m.clients[0].place.fullscreen);
    let second = m.handle_key(&keys, key);
    assert!(matches!(second[0], Action::Place(5, r) if r == start));
    assert_eq!(m.clients[0].place.geometry, start);
    assert!(!m.clients[0].place.fullscreen);
}

#[test]
fn fullscreen_client_leaves_tiling() {
    let mut m = manager();
    m.handle_mapped(1, "st".to_string(), Region::new(0, 0, 10, 10));
    m.handle_mapped(2, "st".to_string(), Region::new(0, 0, 10, 10));
    let out = m.toggle_client_fullscreen(&Selector::WmClass("st".to_string()));
    let placed = placements(&out);
    assert_eq!(placed[0], (1, screen()));
    assert_eq!(placed[1..].to_vec(), vec![(2, screen())]);
    assert!(m.toggle_client_fullscreen(&Selector::Index(7)).is_empty());
}

#[test]
fn kill_client_waits_for_unmap() {
    let mut m = manager();
    m.handle_mapped(3, "st".to_string(), Region::new(0, 0, 10, 10));
    let mut keys = KeyBindings::new();
    let key = KeyCode { mask: 0x41, code: 54 };
    keys.bind(key, Command::KillClient);
    let out = m.handle_key(&keys, key);
    assert_eq!(out.len(), 1);
    assert!(matches!(out[0], Action::Close(3)));
    assert_eq!(m.clients.len(), 1);
    assert_eq!(m.workspaces[0].clients, vec![3]);
    m.handle_unmapped(3);
    assert!(m.clients.is_empty());
    assert!(m.workspaces[0].clients.is_empty());
    assert!(m.kill_client().is_none());
}

#[test]
fn mapped_clients_are_tiled_side_by_side() {
    let mut m = manager();
    m.handle_mapped(1, "st".to_string(), Region::new(0, 0, 10, 10));
    let out = m.handle_mapped(2, "st".to_string(), Region::new(0, 0, 10, 10));
    assert!(matches!(out[0], Action::Show(2)));
    assert_eq!(
        placements(&out),
        vec![(1, Region::new(0, 0, 1056, 1080)), (2, Region::new(1056, 0, 864, 1080))]
    );
    assert!(matches!(out.last(), Some(Action::Focus(2))));
}

#[test]
fn floating_class_is_not_tiled() {
    let mut m = manager();
    let out = m.handle_mapped(1, "rofi".to_string(), Region::new(0, 0, 10, 10));
    assert!(m.clients[0].floating);
    assert!(placements(&out).is_empty());
    let again = m.handle_mapped(1, "rofi".to_string(), Region::new(0, 0, 10, 10));
    assert!(again.is_empty());
}

#[test]
fn cycle_and_drag_through_manager() {
    let mut m = manager();
    for id in [1, 2, 3] {
        m.handle_mapped(id, "st".to_string(), Region::new(0, 0, 10, 10));
    }
    let out = m.cycle_client(Direction::Forward);
    assert_eq!(out.len(), 1);
    assert!(matches!(out[0], Action::Focus(1)));
    m.cycle_client(Direction::Backward);
    assert_eq!(m.workspaces[0].focused_client(), Some(3));
    m.drag_client(Direction::Backward);
    assert_eq!(m.workspaces[0].clients, vec![1, 3, 2]);
    m.drag_client(Direction::Forward);
    assert_eq!(m.workspaces[0].clients, vec![1, 2, 3]);
}

#[test]
fn paper_layout_follows_focus() {
    let mut m = manager();
    for id in [1, 2] {
        m.handle_mapped(id, "st".to_string(), Region::new(0, 0, 10, 10));
    }
    m.cycle_layout(Direction::Forward);
    m.cycle_layout(Direction::Forward);
    assert_eq!(m.workspaces[0].layout, 2);
    let out = m.cycle_client(Direction::Forward);
    assert_eq!(
        placements(&out),
        vec![(1, Region::new(0, 0, 1056, 1080)), (2, Region::new(1056, 0, 864, 1080))]
    );
    m.cycle_layout(Direction::Backward);
    m.cycle_layout(Direction::Backward);
    m.cycle_layout(Direction::Backward);
    assert_eq!(m.workspaces[0].layout, 3);
}

#[test]
fn layout_parameters_are_per_workspace_and_clamped() {
    let mut m = manager();
    for _ in 0..6 {
        m.update_main_ratio(Change::More);
    }
    assert_eq!(m.workspaces[0].params[0].ratio, 100);
    m.update_max_main(Change::Less);
    m.update_max_main(Change::Less);
    assert_eq!(m.workspaces[0].params[0].max_main, 0);
    m.update_max_main(Change::More);
    assert_eq!(m.workspaces[0].params[0].max_main, 1);
    assert_eq!(m.workspaces[1].params[0].ratio, 55);
    m.update_main_ratio(Change::Less);
    assert_eq!(m.workspaces[0].params[0].ratio, 90);
}

#[test]
fn client_to_workspace_moves_focused_client() {
    let mut m = manager();
    m.handle_mapped(1, "st".to_string(), Region::new(0, 0, 10, 10));
    m.handle_mapped(2, "st".to_string(), Region::new(0, 0, 10, 10));
    let out = m.client_to_workspace(3);
    assert!(matches!(out[0], Action::Hide(2)));
    assert_eq!(m.workspaces[0].clients, vec![1]);
    assert_eq!(m.workspaces[3].clients, vec![2]);
    assert!(m.client_to_workspace(42).is_empty());
}

#[test]
fn focus_workspace_hides_and_shows() {
    let mut m = manager();
    m.handle_mapped(1, "st".to_string(), Region::new(0, 0, 10, 10));
    let out = m.focus_workspace(2);
    assert!(matches!(out[0], Action::Hide(1)));
    assert_eq!(m.screens[0].workspace, 2);
    assert_eq!(m.previous, 0);
    assert!(m.focus_workspace(2).is_empty());
    assert!(m.focus_workspace(99).is_empty());
    m.toggle_workspace();
    assert_eq!(m.screens[0].workspace, 0);
}

#[test]
fn detect_screens_assigns_unused_workspaces() {
    let mut m = manager();
    m.focus_workspace(1);
    let outs = vec![screen(), Region::new(1920, 0, 1280, 1024), Region::new(3200, 0, 800, 600)];
    m.detect_screens(&outs);
    let shown: Vec<usize> = m.screens.iter().map(|s| s.workspace).collect();
    assert_eq!(shown, vec![1, 0, 2]);
    assert_eq!(m.screens[2].region, Region::new(3200, 0, 800, 600));
    m.active = 2;
    m.detect_screens(&vec![Region::new(0, 0, 800, 600)]);
    assert_eq!(m.screens.len(), 1);
    assert_eq!(m.screens[0].workspace, 1);
    assert_eq!(m.active, 0);
    m.detect_screens(&vec![]);
    assert_eq!(m.screens.len(), 1);
}

#[test]
fn detect_screens_with_more_outputs_than_workspaces() {
    let names = vec!["a".to_string(), "b".to_string()];
    let mut m = Manager::new(&names, layouts(), vec![], vec![], &vec![screen()]).unwrap();
    let outs: Vec<Region> = (0..4).map(|i| Region::new(i * 100, 0, 100, 100)).collect();
    m.detect_screens(&outs);
    let shown: Vec<usize> = m.screens.iter().map(|s| s.workspace).collect();
    assert_eq!(shown, vec![0, 1]);
}

#[test]
fn screens_cycle_and_workspaces_drag() {
    let mut m = manager_on(vec![screen(), Region::new(1920, 0, 1920, 1080)]);
    assert_eq!(m.screens.len(), 2);
    m.cycle_screen(Direction::Forward);
    assert_eq!(m.active, 1);
    m.cycle_screen(Direction::Forward);
    assert_eq!(m.active, 0);
    m.drag_workspace(Direction::Forward);
    assert_eq!(m.active, 1);
    assert_eq!(m.screens[1].workspace, 0);
    assert_eq!(m.screens[0].workspace, 1);
    m.focus_workspace(1);
    assert_eq!(m.screens[1].workspace, 1);
    assert_eq!(m.screens[0].workspace, 0);
}

#[test]
fn unbound_keys_and_commands() {
    let mut m = manager();
    let mut keys = KeyBindings::new();
    let spawn = KeyCode { mask: 0x40, code: 33 };
    keys.bind(spawn, Command::Spawn("rofi -show combi".to_string()));
    keys.bind(spawn, Command::Exit);
    keys.bind(KeyCode { mask: 0x40, code: 9 }, Command::Exit);
    keys.bind(KeyCode { mask: 0x40, code: 10 }, Command::DetectScreens);
    assert!(m.handle_key(&keys, KeyCode { mask: 0, code: 1 }).is_empty());
    assert_eq!(spawns(&m.handle_key(&keys, spawn)), vec!["rofi -show combi"]);
    assert!(m.running);
    let q = m.handle_key(&keys, KeyCode { mask: 0x40, code: 10 });
    assert!(matches!(q[0], Action::QueryOutputs));
    let out = m.handle_key(&keys, KeyCode { mask: 0x40, code: 9 });
    assert!(matches!(out[0], Action::Quit));
    assert!(!m.running);
}

#[test]
fn layout_symbol_becomes_root_name() {
    let mut m = manager();
    let quiet = m.cycle_layout(Direction::Forward);
    assert!(!quiet.iter().any(|a| matches!(a, Action::SetRootName(_))));
    m.layout_symbol_as_root_name = true;
    let out = m.cycle_layout(Direction::Forward);
    assert!(matches!(&out[0], Action::SetRootName(s) if s == "[papr]"));
    let back = m.cycle_layout(Direction::Backward);
    assert!(matches!(&back[0], Action::SetRootName(s) if s == "[botm]"));
}

#[test]
fn cycle_runs_change_only_the_focus() {
    let mut m = manager();
    for id in [1, 2, 3, 4] {
        m.handle_mapped(id, "st".to_string(), Region::new(0, 0, 10, 10));
    }
    let dirs = [Direction::Forward, Direction::Forward, Direction::Backward, Direction::Forward, Direction::Forward];
    for d in dirs {
        m.cycle_client(d);
        assert_eq!(m.workspaces[0].clients, vec![1, 2, 3, 4]);
        assert_eq!(m.workspaces[0].layout, 0);
        assert_eq!(m.workspaces[0].params[0].ratio, 55);
    }
    assert_eq!(m.workspaces[0].focused_client(), Some(3));
    m.cycle_client(Direction::Backward);
    m.cycle_client(Direction::Backward);
    m.cycle_client(Direction::Forward);
    m.cycle_client(Direction::Forward);
    assert_eq!(m.workspaces[0].focused_client(), Some(3));
}

#[test]
fn drag_runs_through_manager_restore_order() {
    let mut m = manager();
    for id in [1, 2, 3] {
        m.handle_mapped(id, "st".to_string(), Region::new(0, 0, 10, 10));
    }
    for _ in 0..4 {
        m.drag_client(Direction::Forward);
    }
    assert_ne!(m.workspaces[0].clients, vec![1, 2, 3]);
    for _ in 0..4 {
        m.drag_client(Direction::Backward);
    }
    assert_eq!(m.workspaces[0].clients, vec![1, 2, 3]);
    assert_eq!(m.workspaces[0].focused_client(), Some(3));
}
