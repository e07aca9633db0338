use logsim::bits::{BitField, TruthTable};
use logsim::board::{Board, Device, Group, IoSel};
use logsim::chip_preset::ChipPreset;
use logsim::gate::CombGate;
use logsim::geom::Point;
use logsim::presets::{default_presets, CombGatePreset, DevicePreset, PresetData, PresetSource};
use logsim::{Link, LinkStart, LinkTarget};

/// A board with two inputs (top first), one output, and an and gate between.
fn and_board() -> (Board, Vec<u64>, u64) {
    let mut board = Board::new();
    board.add_input(10);
    board.add_input(20);
    board.add_output(10);
    let ins = board.inputs_sorted();
    let out = board.outputs_sorted()[0];
    let presets = default_presets();
    let dev = Device::from_preset(&presets[0], Point::new(0, 0));
    board.add_device(7, dev);
    board.add_link(LinkStart::Input(ins[0]), Link::new(LinkTarget::DeviceInput(7, 0), 0, vec![]));
    board.add_link(LinkStart::Input(ins[1]), Link::new(LinkTarget::DeviceInput(7, 1), 0, vec![]));
    board.add_link(LinkStart::DeviceOutput(7, 0), Link::new(LinkTarget::Output(out), 0, vec![]));
    (board, ins, out)
}

fn settle(board: &mut Board) {
    let mut n = 0;
    loop {
        board.update();
        n += 1;
        if board.write_queue.len() == 0 || n > 100 {
            break;
        }
    }
}

#[test]
fn and_gate_on_a_board() {
    let (mut board, ins, out) = and_board();
    settle(&mut board);
    assert_eq!(board.get_io(IoSel::Output, out).unwrap().state, false);
    board.set_input(ins[0], true);
    board.set_input(ins[1], true);
    settle(&mut board);
    assert_eq!(board.get_io(IoSel::Output, out).unwrap().state, true);
    assert_eq!(board.get_device_output(7, 0), Some(true));
    assert_eq!(board.get_device_input(7, 1), Some(true));
    board.set_input(ins[1], false);
    settle(&mut board);
    assert_eq!(board.get_io(IoSel::Output, out).unwrap().state, false);
    assert_eq!(board.item_count(), 4);
}

#[test]
fn gate_preset_from_board() {
    let (mut board, _, _) = and_board();
    let t = CombGatePreset::from_board(&mut board).ok().unwrap();
    assert_eq!(t.table.num_inputs, 2);
    assert_eq!(t.table.num_outputs, 1);
    assert_eq!(t.table.map, vec![0, 0, 0, 1]);
    assert_eq!(t.inputs, vec![String::new(), String::new()]);
    assert_eq!(t.outputs, vec![String::new()]);
    // the board is as it was
    let again = CombGatePreset::from_board(&mut board).ok().unwrap();
    assert_eq!(again.table.map, vec![0, 0, 0, 1]);
}

#[test]
fn gate_preset_from_an_empty_board() {
    let mut board = Board::new();
    let t = CombGatePreset::from_board(&mut board).ok().unwrap();
    assert_eq!(t.table.num_inputs, 0);
    assert_eq!(t.table.map, vec![0]);
}

#[test]
fn too_many_outputs() {
    let mut board = Board::new();
    for i in 0..65 {
        board.add_output(i);
    }
    match CombGatePreset::from_board(&mut board) {
        Err(e) => assert_eq!(e, "Too many outputs (max is 64)"),
        Ok(_) => panic!("must fail"),
    }
}

#[test]
fn too_many_inputs() {
    let mut board = Board::new();
    for i in 0..65 {
        board.add_input(i);
    }
    match CombGatePreset::from_board(&mut board) {
        Err(e) => assert_eq!(e, "Too many inputs (max is 64)"),
        Ok(_) => panic!("must fail"),
    }
}

#[test]
fn a_loop_is_reported() {
    // a not gate whose output feeds its own input never settles
    let mut board = Board::new();
    let presets = default_presets();
    board.add_device(1, Device::from_preset(&presets[1], Point::new(0, 0)));
    board.add_link(LinkStart::DeviceOutput(1, 0), Link::new(LinkTarget::DeviceInput(1, 0), 0, vec![]));
    match CombGatePreset::from_board(&mut board) {
        Err(e) => assert_eq!(e, "Has a loop or is too big"),
        Ok(_) => panic!("must fail"),
    }
}

#[test]
fn packing_a_board_into_a_chip() {
    let (board, _, _) = and_board();
    let chip = ChipPreset::from_scene(&board);
    assert_eq!(chip.inputs.len(), 2);
    assert_eq!(chip.outputs.len(), 1);
    assert_eq!(chip.comb_gates.len(), 1);
    assert_eq!(chip.comb_gates[0].table.map, vec![0, 0, 0, 1]);
    assert_eq!(chip.input_links[0].len(), 1);
    assert_eq!(chip.input_links[0][0].0, 0);
    assert_eq!(chip.input_links[0][0].1, 0);
    assert_eq!(chip.input_links[1][0].1, 1);
    match chip.comb_gates[0].links[0][0] {
        LinkTarget::Output(o) => assert_eq!(o, 0),
        LinkTarget::DeviceInput(_, _) => panic!("wrong target"),
    }
}

#[test]
fn one_link_per_target() {
    let (mut board, ins, _) = and_board();
    // linking the second input into the first gate input takes the first link away
    board.add_link(LinkStart::Input(ins[1]), Link::new(LinkTarget::DeviceInput(7, 0), 0, vec![]));
    assert!(board.remove_link_to(LinkTarget::DeviceInput(7, 0)));
    assert!(!board.remove_link_to(LinkTarget::DeviceInput(7, 0)));
    assert!(board.remove_link_to(LinkTarget::DeviceInput(7, 1)));
}

#[test]
fn removing_a_device_sends_off() {
    let (mut board, ins, out) = and_board();
    board.set_input(ins[0], true);
    board.set_input(ins[1], true);
    settle(&mut board);
    board.remove_device(7);
    settle(&mut board);
    assert_eq!(board.get_io(IoSel::Output, out).unwrap().state, false);
    assert_eq!(board.get_device_output(7, 0), None);
}

#[test]
fn group_values() {
    let g = Group::new(vec![1, 2, 3]);
    assert_eq!(g.display_value(BitField::from_parts(0b011, 3)), "3");
    assert_eq!(g.display_value(BitField::from_parts(0b111, 3)), "-1");
    let mut h = Group::new(vec![1, 2, 3]);
    h.hex = true;
    assert_eq!(h.display_value(BitField::from_parts(0b111, 3)), "FFFFFFFFFFFFFFFF");
    let mut u = Group::new(vec![1, 2, 3]);
    u.signed = false;
    u.lsb_top = false;
    assert_eq!(u.display_value(BitField::from_parts(0b001, 3)), "4");
}

#[test]
fn stacking_inputs() {
    let mut board = Board::new();
    board.add_input(0);
    let id = board.inputs_sorted()[0];
    board.stack_input(id, 20);
    assert_eq!(board.inputs_sorted().len(), 2);
    assert!(board.get_io_group(IoSel::Input, board.get_io(IoSel::Input, id).unwrap().group_member.unwrap()).is_some());
    board.unstack_input(id);
    assert_eq!(board.get_io(IoSel::Input, id).unwrap().group_member, None);
}

#[test]
fn gate_set_input() {
    let mut g = CombGate::new(TruthTable { num_inputs: 2, num_outputs: 1, map: vec![0, 0, 0, 1] });
    let mut c = g.set_input(0, true);
    assert_eq!(c.next(), None);
    let mut c = g.set_input(1, true);
    assert_eq!(c.next(), Some((0, true)));
    assert_eq!(g.output.data, 1);
}

#[test]
fn packed_chip_can_be_placed() {
    let (board, _, _) = and_board();
    let chip = ChipPreset::from_scene(&board);
    let preset = DevicePreset {
        name: "And2".to_string(),
        cat: "Chips".to_string(),
        color: [0, 0, 0, 255],
        data: PresetData::Chip(chip),
        src: PresetSource::Default,
    };
    let mut outer = Board::new();
    outer.add_input(0);
    outer.add_input(5);
    outer.add_output(0);
    let ins = outer.inputs_sorted();
    let out = outer.outputs_sorted()[0];
    outer.add_device(3, Device::from_preset(&preset, Point::new(0, 0)));
    outer.add_link(LinkStart::Input(ins[0]), Link::new(LinkTarget::DeviceInput(3, 0), 0, vec![]));
    outer.add_link(LinkStart::Input(ins[1]), Link::new(LinkTarget::DeviceInput(3, 1), 0, vec![]));
    outer.add_link(LinkStart::DeviceOutput(3, 0), Link::new(LinkTarget::Output(out), 0, vec![]));
    outer.set_input(ins[0], true);
    outer.set_input(ins[1], true);
    for _ in 0..40 {
        outer.update();
    }
    assert_eq!(outer.get_io(IoSel::Output, out).unwrap().state, true);
    outer.set_input(ins[1], false);
    for _ in 0..40 {
        outer.update();
    }
    assert_eq!(outer.get_io(IoSel::Output, out).unwrap().state, false);
}

#[test]
fn gate_preset_follows_the_first_input() {
    let mut b = Board::new();
    b.add_input(0);
    b.add_input(10);
    b.add_output(0);
    let ins = b.inputs_sorted();
    let out = b.outputs_sorted()[0];
    b.add_link(LinkStart::Input(ins[0]), Link::new(LinkTarget::Output(out), 0, vec![]));
    let p = CombGatePreset::from_board(&mut b).ok().unwrap();
    assert_eq!(p.table.num_inputs, 2);
    assert_eq!(p.table.num_outputs, 1);
    assert_eq!(p.table.map, vec![0, 1, 0, 1]);
    assert_eq!(b.get_io(IoSel::Output, out).unwrap().state, false);
    assert_eq!(b.get_io(IoSel::Input, ins[0]).unwrap().state, false);
}

#[test]
fn too_many_outputs_with_64_inputs() {
    let mut board = Board::new();
    for i in 0..64 {
        board.add_input(i);
    }
    for i in 0..65 {
        board.add_output(i);
    }
    match CombGatePreset::from_board(&mut board) {
        Err(e) => assert_eq!(e, "Too many outputs (max is 64)"),
        Ok(_) => panic!("must fail"),
    }
}
