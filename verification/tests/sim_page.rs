use logsim::bits::TruthTable;
use logsim::chip::Chip;
use logsim::chip_preset::{ChipPreset, CombGate};
use logsim::board::{Board, BoardItem, Device, IoSel};
use logsim::geom::Point;
use logsim::input_step::{board_input, KeyEvents};
use logsim::pack::is_packable;
use logsim::presets::{default_presets, Library};
use logsim::sim_page::{
    drag_item, exec_action, place_held_presets, place_preset, run_sim, sim_page_keys, OutEvent, PageKeys, PageMenus,
};
use logsim::ui_state::{AppAction, AppItem, ChipPlacer, CreateLinks, NamePopup};
use logsim::{Link, LinkStart, LinkTarget};

fn no_page_keys() -> PageKeys {
    PageKeys { command_l: false, command_t: false, command_d: false, escape: false }
}

fn closed_menus() -> PageMenus {
    PageMenus { library_open: false, pack_open: false, sim_open: false, settings_open: false }
}

/// A board with one input linked to an inverter whose output feeds an output pin.
fn not_board() -> (Board, u64, u64) {
    let presets = default_presets();
    let mut board = Board::new();
    board.add_input(0);
    board.add_output(0);
    let i = board.inputs_sorted()[0];
    let o = board.outputs_sorted()[0];
    board.add_device(5, Device::from_preset(&presets[1], Point::new(0, 0)));
    board.add_link(LinkStart::Input(i), Link::new(LinkTarget::DeviceInput(5, 0), 0, vec![]));
    board.add_link(LinkStart::DeviceOutput(5, 0), Link::new(LinkTarget::Output(o), 0, vec![]));
    (board, i, o)
}

#[test]
fn running_the_simulation() {
    let (mut board, _, o) = not_board();
    run_sim(&mut board, true, 50);
    assert!(!board.get_io(IoSel::Output, o).unwrap().state);
    run_sim(&mut board, false, 50);
    assert!(board.get_io(IoSel::Output, o).unwrap().state);
}

#[test]
fn page_key_binds() {
    let (mut board, _, _) = not_board();
    let mut auto_link = false;
    let mut selected = vec![5u64];
    let mut links = CreateLinks::new();
    links.push(LinkStart::DeviceOutput(5, 0));
    let keys = PageKeys { command_l: true, ..no_page_keys() };
    sim_page_keys(&mut auto_link, &mut board, &mut selected, &mut links, keys, false, Point::new(0, 0));
    assert!(auto_link);
    assert_eq!(links.starts.len(), 1);
    let keys = PageKeys { command_l: true, escape: true, ..no_page_keys() };
    sim_page_keys(&mut auto_link, &mut board, &mut selected, &mut links, keys, false, Point::new(0, 0));
    assert!(!auto_link);
    assert!(links.starts.is_empty());
    let keys = PageKeys { command_d: true, ..no_page_keys() };
    sim_page_keys(&mut auto_link, &mut board, &mut selected, &mut links, keys, false, Point::new(40, 50));
    assert_eq!(board.device_ids().len(), 2);
    assert_ne!(selected, vec![5u64]);
    assert_eq!(board.device(selected[0]).unwrap().pos, Point::new(40, 50));
}

#[test]
fn a_step_only_while_paused() {
    let (mut board, _, o) = not_board();
    let mut auto_link = false;
    let mut selected = Vec::new();
    let mut links = CreateLinks::new();
    let keys = PageKeys { command_t: true, ..no_page_keys() };
    for _ in 0..20 {
        sim_page_keys(&mut auto_link, &mut board, &mut selected, &mut links, keys, false, Point::new(0, 0));
    }
    assert!(!board.get_io(IoSel::Output, o).unwrap().state);
    for _ in 0..20 {
        sim_page_keys(&mut auto_link, &mut board, &mut selected, &mut links, keys, true, Point::new(0, 0));
    }
    assert!(board.get_io(IoSel::Output, o).unwrap().state);
}

#[test]
fn dragging_items() {
    let presets = default_presets();
    let mut board = Board::new();
    board.add_device(1, Device::from_preset(&presets[0], Point::new(0, 0)));
    board.add_device(2, Device::from_preset(&presets[1], Point::new(10, 10)));
    board.add_device(3, Device::from_preset(&presets[1], Point::new(20, 20)));
    let selected = vec![1u64, 2u64];
    drag_item(&mut board, &selected, AppItem::Board(BoardItem::Device(2)), Point::new(5, -5));
    assert_eq!(board.device(1).unwrap().pos, Point::new(5, -5));
    assert_eq!(board.device(2).unwrap().pos, Point::new(15, 5));
    assert_eq!(board.device(3).unwrap().pos, Point::new(20, 20));
    drag_item(&mut board, &selected, AppItem::Board(BoardItem::Device(3)), Point::new(1, 1));
    assert_eq!(board.device(3).unwrap().pos, Point::new(21, 21));
    assert_eq!(board.device(1).unwrap().pos, Point::new(5, -5));
    drag_item(&mut board, &selected, AppItem::Board(BoardItem::InputCol), Point::new(7, 100));
    assert_eq!(board.rect.min, Point::new(7, 0));
    drag_item(&mut board, &selected, AppItem::Board(BoardItem::OutputCol), Point::new(-7, 100));
    assert_eq!(board.rect.max, Point::new(593, 400));
    board.add_input(10);
    let id = board.inputs_sorted()[0];
    drag_item(&mut board, &selected, AppItem::Board(BoardItem::InputBulb(id)), Point::new(3, 4));
    assert_eq!(board.get_io(IoSel::Input, id).unwrap().y_pos, 14);
}

#[test]
fn placing_presets() {
    let lib = Library::new();
    let mut board = Board::new();
    let mut placer = ChipPlacer::default();
    place_preset(&mut board, &mut placer, &lib, "Nope", Point::new(0, 0));
    assert!(board.device_ids().is_empty());
    place_preset(&mut board, &mut placer, &lib, "Not", Point::new(3, 4));
    let ids = board.device_ids();
    assert_eq!(ids.len(), 1);
    assert_eq!(board.device(ids[0]).unwrap().preset, "Not");
    assert_eq!(board.device(ids[0]).unwrap().pos, Point::new(3, 4));
    assert_eq!(placer.recent, vec!["Not".to_string()]);
}

#[test]
fn placing_held_presets() {
    let lib = Library::new();
    let mut board = Board::new();
    let mut placer = ChipPlacer::default();
    let mut held = vec!["And".to_string(), "Not".to_string()];
    let heights = vec![30i64, 40];
    place_held_presets(&mut board, &mut placer, &lib, &mut held, AppItem::Other, true, Point::new(10, 10), &heights);
    assert_eq!(held.len(), 2);
    place_held_presets(
        &mut board,
        &mut placer,
        &lib,
        &mut held,
        AppItem::Board(BoardItem::Board),
        false,
        Point::new(10, 10),
        &heights,
    );
    assert!(board.device_ids().is_empty());
    place_held_presets(
        &mut board,
        &mut placer,
        &lib,
        &mut held,
        AppItem::Board(BoardItem::Device(9)),
        true,
        Point::new(10, 10),
        &heights,
    );
    assert!(held.is_empty());
    let ids = board.device_ids();
    assert_eq!(ids.len(), 2);
    for id in ids {
        let d = board.device(id).unwrap();
        if d.preset == "And" {
            assert_eq!(d.pos, Point::new(10, 10));
        } else {
            assert_eq!(d.preset, "Not");
            assert_eq!(d.pos, Point::new(10, 40));
        }
    }
    assert_eq!(placer.recent, vec!["Not".to_string(), "And".to_string()]);
}

#[test]
fn menu_actions() {
    let mut board = Board::new();
    board.add_input(0);
    let mut lib = Library::new();
    let mut held = Vec::new();
    let mut menus = closed_menus();
    let e = exec_action(AppAction::HoldPreset("And".to_string()), &mut board, &mut lib, &mut held, &mut menus);
    assert!(matches!(e, OutEvent::Nothing));
    assert_eq!(held, vec!["And".to_string()]);
    exec_action(AppAction::ToggleSimMenu, &mut board, &mut lib, &mut held, &mut menus);
    assert!(menus.sim_open);
    exec_action(AppAction::ToggleSimMenu, &mut board, &mut lib, &mut held, &mut menus);
    assert!(!menus.sim_open);
    exec_action(AppAction::OpenSettings, &mut board, &mut lib, &mut held, &mut menus);
    assert!(menus.settings_open);
    let e = exec_action(AppAction::ReloadLibrary, &mut board, &mut lib, &mut held, &mut menus);
    assert!(matches!(e, OutEvent::LoadLibrary));
    exec_action(AppAction::DeletePreset("And".to_string()), &mut board, &mut lib, &mut held, &mut menus);
    assert_eq!(lib.preset_names(), vec!["Not".to_string()]);
    exec_action(AppAction::StepSim, &mut board, &mut lib, &mut held, &mut menus);
    assert_eq!(board.inputs_sorted().len(), 1);
    exec_action(AppAction::Clear, &mut board, &mut lib, &mut held, &mut menus);
    assert!(board.inputs_sorted().is_empty());
}

#[test]
fn packable_boards() {
    let (board, _, _) = not_board();
    assert!(is_packable(&board));
    let mut direct = Board::new();
    direct.add_input(0);
    direct.add_output(0);
    let i = direct.inputs_sorted()[0];
    let o = direct.outputs_sorted()[0];
    direct.add_link(LinkStart::Input(i), Link::new(LinkTarget::Output(o), 0, vec![]));
    assert!(!is_packable(&direct));
    let (mut gone, _, _) = not_board();
    gone.remove_device(5);
    assert!(!is_packable(&gone));
}

#[test]
fn both_arrows_stack_then_unstack() {
    let mut board = Board::new();
    board.add_input(0);
    let id = board.inputs_sorted()[0];
    let mut selected = Vec::new();
    let mut links = CreateLinks::new();
    let mut popup: Option<NamePopup> = None;
    let keys = KeyEvents {
        pressed_prim: false,
        clicked_prim: false,
        shift: false,
        backspace: false,
        arrow_down: true,
        arrow_up: true,
        try_link: false,
        focus_clear: true,
    };
    board_input(&mut board, &mut selected, &mut links, &mut popup, BoardItem::InputBulb(id), keys, Point::new(0, 0), 20);
    assert_eq!(board.inputs_sorted(), vec![id]);
    assert_eq!(board.get_io(IoSel::Input, id).unwrap().group_member, None);
    board.add_output(0);
    let o = board.outputs_sorted()[0];
    board_input(&mut board, &mut selected, &mut links, &mut popup, BoardItem::OutputBulb(o), keys, Point::new(0, 0), 20);
    assert_eq!(board.outputs_sorted(), vec![o]);
}

#[test]
fn a_chip_from_a_table_with_only_a_first_row() {
    let preset = ChipPreset {
        inputs: vec![],
        outputs: vec!["o".to_string()],
        input_links: vec![],
        comb_gates: vec![CombGate {
            table: TruthTable { num_inputs: 2, num_outputs: 1, map: vec![1] },
            links: vec![vec![LinkTarget::Output(0)]],
        }],
    };
    let chip = Chip::from_preset(&preset);
    assert_eq!(chip.devices.len(), 1);
    assert_eq!(chip.devices[0].data.output.data, 1);
    assert_eq!(chip.write_queue.buffer.len(), 1);
    assert!(matches!(chip.write_queue.buffer[0], (LinkTarget::Output(0), true)));
    assert!(chip.write_queue.writes.is_empty());
}
