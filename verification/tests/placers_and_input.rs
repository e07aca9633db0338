use logsim::bits::{BitField, ChangedOutputs, TruthTable};
use logsim::board::{Board, BoardItem, Device, IoSel};
use logsim::geom::Point;
use logsim::input_step::{board_input, KeyEvents};
use logsim::presets::{default_presets, CombGatePreset, DevicePreset, Library, PresetData, PresetSource, Presets};
use logsim::ui_state::{ChipPlacer, CreateLinks, NamePopup, PinType, PresetPlacer, FADE_TIME};
use logsim::{Link, LinkStart, LinkTarget};

fn gate(name: &str, cat: &str) -> DevicePreset {
    DevicePreset {
        name: name.to_owned(),
        cat: cat.to_owned(),
        color: [1, 2, 3, 4],
        data: PresetData::CombGate(CombGatePreset {
            inputs: vec![String::new()],
            outputs: vec![String::new()],
            table: TruthTable { num_inputs: 1, num_outputs: 1, map: vec![1, 0] },
        }),
        src: PresetSource::Default,
    }
}

fn no_keys() -> KeyEvents {
    KeyEvents {
        pressed_prim: false,
        clicked_prim: false,
        shift: false,
        backspace: false,
        arrow_down: false,
        arrow_up: false,
        try_link: false,
        focus_clear: true,
    }
}

fn strings(v: &[&str]) -> Vec<String> {
    v.iter().map(|s| s.to_string()).collect()
}

#[test]
fn chip_placer_results() {
    let mut lib = Library::new();
    lib.add_preset(gate("Nand", "Logic"), false);
    let mut p = ChipPlacer::default();
    p.field = ":log".to_string();
    p.refresh_results(&lib);
    assert_eq!(p.results, strings(&["Nand"]));
    assert_eq!(p.results_cat, Some("Logic".to_string()));
    p.field = ":zz".to_string();
    p.refresh_results(&lib);
    assert!(p.results.is_empty());
    assert_eq!(p.results_cat, None);
    p.field = ":".to_string();
    p.refresh_results(&lib);
    assert!(p.results.is_empty());
    p.field = "and".to_string();
    p.refresh_results(&lib);
    assert_eq!(p.results, strings(&["And", "Nand"]));
    assert_eq!(p.results_cat, None);
    assert_eq!(p.entered_pick(), Some("And".to_string()));
    p.push_recent("Nand");
    p.push_recent("Not");
    p.field = "  ".to_string();
    p.refresh_results(&lib);
    assert_eq!(p.results, strings(&["Not", "Nand", "And"]));
    p.field = String::new();
    p.refresh_results(&lib);
    assert_eq!(p.results, strings(&["Not", "Nand", "And"]));
    p.field = "zz".to_string();
    p.refresh_results(&lib);
    assert_eq!(p.entered_pick(), None);
}

#[test]
fn preset_placer_results() {
    let mut presets = Presets::default();
    presets.add_preset(gate("Or", "Logic"));
    let mut p = PresetPlacer::default();
    p.field = ":lo".to_string();
    p.refresh_results(&presets);
    assert_eq!(p.results, strings(&["Or"]));
    assert_eq!(p.results_cat, Some("Logic".to_string()));
    p.field = "o".to_string();
    p.refresh_results(&presets);
    assert_eq!(p.results, strings(&["Or", "Not"]));
    assert_eq!(p.results_cat, None);
    assert_eq!(p.entered_pick(), Some("Or".to_string()));
    assert_eq!(p.listed(&presets), strings(&["Or", "Not"]));
    p.field = String::new();
    p.refresh_results(&presets);
    assert!(p.results.is_empty());
    assert_eq!(p.entered_pick(), None);
    p.push_recent("And");
    p.push_recent("Gone");
    p.push_recent("Or");
    assert_eq!(p.listed(&presets), strings(&["Or", "And"]));
    assert_eq!(p.recent, strings(&["Or", "And"]));
    p.push_recent("Xor");
    p.check_recent(&presets);
    assert_eq!(p.recent, strings(&["Or", "And"]));
}

#[test]
fn changed_outputs_drain_in_order() {
    let mut c = ChangedOutputs::new(BitField::from_parts(0b0101, 4), BitField::from_parts(0b0011, 4));
    assert_eq!(c.next(), Some((1, true)));
    assert_eq!(c.next(), Some((2, false)));
    assert_eq!(c.next(), None);
    assert_eq!(c.next(), None);
}

#[test]
fn a_new_link_is_the_only_one_into_its_target() {
    let mut board = Board::new();
    board.add_input(0);
    board.add_input(10);
    board.add_output(0);
    let ins = board.inputs_sorted();
    let out = board.outputs_sorted()[0];
    board.add_link(LinkStart::Input(ins[0]), Link::new(LinkTarget::Output(out), 1, vec![]));
    board.add_link(LinkStart::Input(ins[1]), Link::new(LinkTarget::Output(out), 2, vec![Point::new(3, 4)]));
    assert!(board.input(ins[0]).unwrap().links.is_empty());
    let last = board.input(ins[1]).unwrap().links.last().unwrap().clone();
    assert_eq!(last.color, 2);
    assert_eq!(last.anchors, vec![Point::new(3, 4)]);
    assert!(board.remove_link_to(LinkTarget::Output(out)));
    assert!(!board.remove_link_to(LinkTarget::Output(out)));
}

#[test]
fn stacking_then_unstacking_restores_a_group() {
    let mut board = Board::new();
    board.add_input(0);
    let id = board.inputs_sorted()[0];
    board.stack_input(id, 20);
    let group = board.get_io(IoSel::Input, id).unwrap().group_member.unwrap();
    let before = board.inputs_sorted();
    board.stack_input(id, 20);
    assert_eq!(board.inputs_sorted().len(), 3);
    board.unstack_input(id);
    assert_eq!(board.inputs_sorted(), before);
    assert_eq!(board.get_io_group(IoSel::Input, group).unwrap().members, before);
}

#[test]
fn clicking_an_input_bulb_toggles_it() {
    let mut board = Board::new();
    board.add_input(0);
    board.add_output(0);
    let id = board.inputs_sorted()[0];
    let out = board.outputs_sorted()[0];
    board.add_link(LinkStart::Input(id), Link::new(LinkTarget::Output(out), 0, vec![]));
    let mut selected = Vec::new();
    let mut links = CreateLinks::new();
    let mut popup: Option<NamePopup> = None;
    let keys = KeyEvents { clicked_prim: true, ..no_keys() };
    board_input(&mut board, &mut selected, &mut links, &mut popup, BoardItem::InputBulb(id), keys, Point::new(0, 0), 20);
    assert!(board.get_io(IoSel::Input, id).unwrap().state);
    let p = popup.clone().unwrap();
    assert_eq!(p.id, id);
    assert_eq!(p.timer, FADE_TIME);
    assert!(matches!(p.ty, PinType::Input));
    assert!(matches!(board.write_queue.buffer.last(), Some((LinkTarget::Output(o), true)) if *o == out));
    let down = KeyEvents { arrow_down: true, ..no_keys() };
    board_input(&mut board, &mut selected, &mut links, &mut popup, BoardItem::InputBulb(id), down, Point::new(0, 0), 20);
    assert_eq!(board.inputs_sorted().len(), 2);
    let gone = KeyEvents { backspace: true, ..no_keys() };
    board_input(&mut board, &mut selected, &mut links, &mut popup, BoardItem::InputBulb(id), gone, Point::new(0, 0), 20);
    assert!(board.inputs_sorted().is_empty());
}

#[test]
fn drawing_a_link_by_pressing_pins() {
    let mut board = Board::new();
    board.add_input(0);
    board.add_output(0);
    let id = board.inputs_sorted()[0];
    let out = board.outputs_sorted()[0];
    let mut selected = Vec::new();
    let mut links = CreateLinks::new();
    let mut popup: Option<NamePopup> = None;
    let press = KeyEvents { pressed_prim: true, ..no_keys() };
    board_input(&mut board, &mut selected, &mut links, &mut popup, BoardItem::InputPin(id), press, Point::new(0, 0), 20);
    assert_eq!(links.starts.len(), 1);
    board_input(&mut board, &mut selected, &mut links, &mut popup, BoardItem::Board, press, Point::new(5, 6), 20);
    assert_eq!(links.anchors, vec![Point::new(5, 6)]);
    board_input(&mut board, &mut selected, &mut links, &mut popup, BoardItem::OutputPin(out), press, Point::new(0, 0), 20);
    assert!(links.starts.is_empty());
    let l = &board.input(id).unwrap().links[0];
    assert!(matches!(l.target, LinkTarget::Output(o) if o == out));
    assert_eq!(l.anchors, vec![Point::new(5, 6)]);
    assert!(popup.is_none());
    let cut = KeyEvents { backspace: true, ..no_keys() };
    board_input(&mut board, &mut selected, &mut links, &mut popup, BoardItem::InputLink(id, 0), cut, Point::new(0, 0), 20);
    assert!(board.input(id).unwrap().links.is_empty());
    assert!(matches!(board.write_queue.buffer.last(), Some((LinkTarget::Output(o), false)) if *o == out));
}

#[test]
fn deleting_the_selection() {
    let presets = default_presets();
    let mut board = Board::new();
    board.add_device(1, Device::from_preset(&presets[0], Point::new(0, 0)));
    board.add_device(2, Device::from_preset(&presets[1], Point::new(0, 0)));
    board.add_device(3, Device::from_preset(&presets[1], Point::new(0, 0)));
    let mut selected = Vec::new();
    let mut links = CreateLinks::new();
    let mut popup: Option<NamePopup> = None;
    let shift = KeyEvents { pressed_prim: true, shift: true, ..no_keys() };
    board_input(&mut board, &mut selected, &mut links, &mut popup, BoardItem::Device(1), shift, Point::new(0, 0), 20);
    board_input(&mut board, &mut selected, &mut links, &mut popup, BoardItem::Device(2), shift, Point::new(0, 0), 20);
    board_input(&mut board, &mut selected, &mut links, &mut popup, BoardItem::Device(2), shift, Point::new(0, 0), 20);
    assert_eq!(selected, vec![1, 2]);
    let gone = KeyEvents { backspace: true, ..no_keys() };
    board_input(&mut board, &mut selected, &mut links, &mut popup, BoardItem::Device(2), gone, Point::new(0, 0), 20);
    assert!(selected.is_empty());
    assert_eq!(board.device_ids(), vec![3]);
    board_input(&mut board, &mut selected, &mut links, &mut popup, BoardItem::Device(3), gone, Point::new(0, 0), 20);
    assert!(board.device_ids().is_empty());
}

#[test]
fn device_pins_and_columns() {
    let presets = default_presets();
    let mut board = Board::new();
    board.add_device(1, Device::from_preset(&presets[0], Point::new(0, 0)));
    board.add_output(0);
    let out = board.outputs_sorted()[0];
    board.add_link(LinkStart::DeviceOutput(1, 0), Link::new(LinkTarget::Output(out), 0, vec![]));
    let mut selected = Vec::new();
    let mut links = CreateLinks::new();
    let mut popup: Option<NamePopup> = None;
    let press = KeyEvents { pressed_prim: true, ..no_keys() };
    board_input(&mut board, &mut selected, &mut links, &mut popup, BoardItem::DeviceInput(1, 1), press, Point::new(0, 0), 20);
    assert_eq!(board.get_device_input(1, 1), Some(true));
    let cut = KeyEvents { backspace: true, ..no_keys() };
    board_input(&mut board, &mut selected, &mut links, &mut popup, BoardItem::DeviceOutput(1, 0), cut, Point::new(0, 0), 20);
    assert!(board.device(1).unwrap().links[0].is_empty());
    let click = KeyEvents { clicked_prim: true, ..no_keys() };
    board_input(&mut board, &mut selected, &mut links, &mut popup, BoardItem::InputCol, click, Point::new(3, 40), 20);
    let ins = board.inputs_sorted();
    assert_eq!(ins.len(), 1);
    assert_eq!(board.get_io(IoSel::Input, ins[0]).unwrap().y_pos, 40);
    board_input(&mut board, &mut selected, &mut links, &mut popup, BoardItem::OutputBulb(out), cut, Point::new(0, 0), 20);
    assert!(board.outputs_sorted().is_empty());
    assert!(matches!(popup.unwrap().ty, PinType::Output));
}
