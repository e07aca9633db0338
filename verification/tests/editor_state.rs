use logsim::board::{Board, BoardItem, Device};
use logsim::presets::default_presets;
use logsim::ui_state::clone_selected_devices;
use logsim::geom::Point;
use logsim::pack::map_links;
use logsim::platform::os_name;
use logsim::presets::Library;
use logsim::sim;
use logsim::ui_state::{AppAction, AppItem, ChipPlacer, CreateLinks, NamePopup, FADE_TIME};
use logsim::{rand_link_color, Link, LinkStart, LinkTarget, NUM_LINK_COLORS};

#[test]
fn higher_items_win() {
    let mut item = AppItem::default();
    assert_eq!(item.layer(), 0);
    item.set(AppItem::Board(BoardItem::Device(3)));
    assert_eq!(item.layer(), 2);
    item.set(AppItem::Board(BoardItem::Board));
    assert_eq!(item.layer(), 2);
    item.set(AppItem::PresetPlacer);
    assert_eq!(item.layer(), 5);
    item.set(AppItem::NamePopup);
    assert_eq!(item.layer(), 5);
}

#[test]
fn first_action_wins() {
    let mut a = AppAction::default();
    a.set(AppAction::StepSim);
    a.set(AppAction::Clear);
    assert!(matches!(a, AppAction::StepSim));
    let mut b = AppAction::default();
    b.set(AppAction::HoldPreset("And".to_string()));
    match b {
        AppAction::HoldPreset(n) => assert_eq!(n, "And"),
        _ => panic!("wrong action"),
    }
}

#[test]
fn drawing_links() {
    let mut c = CreateLinks::new();
    c.color = 5;
    c.anchors.push(Point::new(1, 2));
    c.push(LinkStart::Input(1));
    assert_eq!(c.color, 0);
    assert!(c.anchors.is_empty());
    c.color = 3;
    c.push(LinkStart::DeviceOutput(2, 0));
    c.push(LinkStart::Input(1));
    assert_eq!(c.starts.len(), 2);
    match c.take() {
        Some((LinkStart::Input(i), col)) => {
            assert_eq!(i, 1);
            assert_eq!(col, 3);
        }
        _ => panic!("wrong start"),
    }
    assert!(matches!(c.take(), Some((LinkStart::DeviceOutput(2, 0), 3))));
    assert!(c.take().is_none());
}

#[test]
fn recent_presets() {
    let mut p = ChipPlacer::default();
    for i in 0..12 {
        p.push_recent(&format!("P{}", i));
    }
    assert_eq!(p.recent.len(), 10);
    assert_eq!(p.recent[0], "P11");
    assert_eq!(p.recent[9], "P2");
    p.push_recent("P5");
    assert_eq!(p.recent.len(), 10);
    assert_eq!(p.recent[0], "P5");
    assert_eq!(p.recent[1], "P11");
    let mut q = ChipPlacer::default();
    q.push_recent("And");
    q.push_recent("Gone");
    q.push_recent("Not");
    q.check_recent(&Library::new());
    assert_eq!(q.recent, vec!["Not".to_string(), "And".to_string()]);
}

#[test]
fn name_popups_fade() {
    let mut n = NamePopup::input(4);
    assert_eq!(n.timer, FADE_TIME);
    for _ in 0..FADE_TIME {
        assert!(!n.is_dead());
        n.update();
    }
    assert!(n.is_dead());
    n.update();
    assert_eq!(n.timer, 0);
    n.persist();
    assert_eq!(n.timer, 50);
    assert_eq!(NamePopup::output(9).id, 9);
}

#[test]
fn operating_systems() {
    assert_eq!(os_name("5.0 (Windows NT 10.0; Win64; x64)"), "windows");
    assert_eq!(os_name("5.0 (Macintosh; Intel Mac OS X 10_15_7)"), "macos");
    assert_eq!(os_name("5.0 (X11; Linux x86_64)"), "linux");
    assert_eq!(os_name("5.0 (X11; CrOS)"), "unix");
    assert_eq!(os_name("5.0"), "Unknown");
}

#[test]
fn link_targets_in_order() {
    let links = vec![
        Link::new(LinkTarget::Output(2), 0, vec![]),
        Link::new(LinkTarget::DeviceInput(7, 1), 1, vec![Point::new(3, 4)]),
    ];
    let t = map_links(&links);
    assert_eq!(t.len(), 2);
    assert!(matches!(t[0], LinkTarget::Output(2)));
    assert!(matches!(t[1], LinkTarget::DeviceInput(7, 1)));
}

#[test]
fn random_link_colors_in_range() {
    for _ in 0..20 {
        assert!(rand_link_color() < NUM_LINK_COLORS);
    }
}

#[test]
fn first_simulator_bits() {
    let mut f = sim::BitField(0);
    f.set(2, true);
    assert_eq!(f.0, 4);
    assert!(f.get(2));
    assert_eq!(f.states(3), vec![false, false, true]);
    let w = sim::BoardWrite { target: sim::BoardWriteTarget::BoardOutput(1), state: true };
    assert!(w.state);
    let i = sim::BoardInput::default();
    assert!(!i.state && i.links.is_empty());
    assert!(!sim::BoardOutput::default().state);
}

#[test]
fn cloning_the_selection() {
    let presets = default_presets();
    let mut board = Board::new();
    board.add_device(1, Device::from_preset(&presets[0], Point::new(10, 20)));
    board.add_device(2, Device::from_preset(&presets[1], Point::new(5, 30)));
    let mut selected = vec![1u64, 2u64];
    clone_selected_devices(&mut board, &mut selected, Point::new(100, 100));
    assert_eq!(selected.len(), 2);
    assert_eq!(board.device_ids().len(), 4);
    assert_eq!(board.device(selected[0]).unwrap().pos, Point::new(105, 100));
    assert_eq!(board.device(selected[1]).unwrap().pos, Point::new(100, 110));
    assert_eq!(board.device(selected[1]).unwrap().preset, "Not");
    assert_eq!(board.device(1).unwrap().pos, Point::new(10, 20));
}

#[test]
fn saturating_points() {
    let p = Point::new(i64::MAX, 0).add(Point::new(1, -1));
    assert_eq!(p, Point::new(i64::MAX, -1));
    let q = Point::new(i64::MIN, 3).sub(Point::new(1, 5));
    assert_eq!(q, Point::new(i64::MIN, -2));
}
