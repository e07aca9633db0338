//! One frame of pointer and key input on the board: what the item under the
//! pointer does with the keys pressed in that frame.

use crate::board::{lemma_can_unstack, lemma_remove_device_wf, lemma_set_input_wf, lemma_stacked_can_unstack, Board, BoardItem, BoardView, DeviceView, IoSel, IoView};
use crate::geom::Point;
use crate::ui_state::{CreateLinks, NamePopup, PinType, FADE_TIME};
use crate::{copy_vec, Link, LinkStart, LinkTarget, LinkView};
use vstd::prelude::*;

verus! {

/// The pointer and key events of one frame that the board reacts to.
#[derive(Debug, Clone, Copy)]
pub struct KeyEvents {
    /// The primary button went down.
    pub pressed_prim: bool,
    /// The primary button clicked.
    pub clicked_prim: bool,
    /// Shift is held.
    pub shift: bool,
    /// Backspace was pressed.
    pub backspace: bool,
    /// The down arrow was pressed.
    pub arrow_down: bool,
    /// The up arrow was pressed.
    pub arrow_up: bool,
    /// Links are made on hover and the pointer just moved onto the item.
    pub try_link: bool,
    /// No text field has the keyboard.
    pub focus_clear: bool,
}

/// The links being drawn, as values: starts (the newest first), colour and
/// anchors.
pub open spec fn pending(c: CreateLinks) -> (Seq<LinkStart<u64>>, usize, Seq<Point>) {
    (c.starts@, c.color, c.anchors@)
}

/// The links being drawn after a link is started at `start` (see
/// `CreateLinks::push`).
pub open spec fn pushed(p: (Seq<LinkStart<u64>>, usize, Seq<Point>), start: LinkStart<u64>) -> (
    Seq<LinkStart<u64>>,
    usize,
    Seq<Point>,
) {
    if p.0.contains(start) {
        p
    } else if p.0.len() == 0 {
        (seq![start], 0, Seq::empty())
    } else {
        (seq![start] + p.0, p.1, p.2)
    }
}

/// The links being drawn after the oldest start is taken.
pub open spec fn taken(p: (Seq<LinkStart<u64>>, usize, Seq<Point>)) -> (Seq<LinkStart<u64>>, usize, Seq<Point>) {
    if p.0.len() == 0 {
        p
    } else {
        (p.0.drop_last(), p.1, p.2)
    }
}

/// A link from `start` can be made on `b`.
pub open spec fn start_ok(b: BoardView, start: LinkStart<u64>) -> bool {
    match start {
        LinkStart::Input(id) => b.inputs.contains_key(id),
        LinkStart::DeviceOutput(id, idx) => b.devices.contains_key(id) && idx < b.devices[id].data.num_outputs(),
    }
}

/// `r` is `b` after the oldest link being drawn is finished at `target`:
/// with none being drawn, `b` itself; else `b` with one link into `target`
/// removed (see `link_removed`) and the new link, of the pending colour and
/// anchors, attached to the start.
pub open spec fn link_finished(
    b: BoardView,
    p: (Seq<LinkStart<u64>>, usize, Seq<Point>),
    target: LinkTarget<u64>,
    r: BoardView,
) -> bool {
    if p.0.len() == 0 {
        r == b
    } else {
        exists|m: BoardView|
            #[trigger] b.link_removed(target, m) && r == m.attach(
                p.0.last(),
                LinkView { target, anchors: p.2, color: p.1 },
            )
    }
}

/// The board without the devices `ids`, removed in order.
pub open spec fn without_devices(b: BoardView, ids: Seq<u64>) -> BoardView
    decreases ids.len(),
{
    if ids.len() == 0 {
        b
    } else {
        without_devices(b, ids.drop_last()).remove_device(ids.last())
    }
}

/// `r` is `b` with a pin stacked under pin `id` of column `sel`, under some
/// drawn ids.
pub open spec fn stacked(b: BoardView, sel: IoSel, id: u64, spacing: i64, r: BoardView) -> bool {
    exists|gid: u64, nid: u64| #[trigger] b.stack_io(sel, id, spacing, gid, nid) == r
}

/// `r` is `b` with a pin stacked under pin `id` of column `sel`, under some
/// drawn ids, and then the last pin of that stack taken away (with new ids
/// this gives `b` back: see `lemma_stack_unstack`).
pub open spec fn stacked_unstacked(b: BoardView, sel: IoSel, id: u64, spacing: i64, r: BoardView) -> bool {
    exists|gid: u64, nid: u64|
        #![trigger b.stack_io(sel, id, spacing, gid, nid)]
        b.stack_io(sel, id, spacing, gid, nid).unstack_io(sel, id) == r
}

/// `r` is `b` after the bulb of input pin `id` is worked on: a click toggles
/// the pin, backspace (with the keyboard free) deletes it, the down arrow
/// stacks a pin under it and then the up arrow takes the last pin of its
/// stack away.
pub open spec fn input_bulb_after(b: BoardView, id: u64, keys: KeyEvents, spacing: i64, r: BoardView) -> bool {
    let b1 = if keys.clicked_prim {
        b.set_input(id, !b.inputs[id].io.state)
    } else {
        b
    };
    let b2 = if keys.backspace && keys.focus_clear {
        b1.remove_io(IoSel::Input, id)
    } else {
        b1
    };
    if keys.arrow_down && keys.arrow_up {
        stacked_unstacked(b2, IoSel::Input, id, spacing, r)
    } else if keys.arrow_down {
        stacked(b2, IoSel::Input, id, spacing, r)
    } else if keys.arrow_up {
        r == b2.unstack_io(IoSel::Input, id)
    } else {
        r == b2
    }
}

/// `r` is `b` after the bulb of output pin `id` is worked on: backspace
/// deletes the pin, the down arrow (with the keyboard free) stacks a pin
/// under it and then the up arrow takes the last pin of its stack away.
pub open spec fn output_bulb_after(b: BoardView, id: u64, keys: KeyEvents, spacing: i64, r: BoardView) -> bool {
    let b2 = if keys.backspace {
        b.remove_io(IoSel::Output, id)
    } else {
        b
    };
    if keys.arrow_down && keys.focus_clear && keys.arrow_up {
        stacked_unstacked(b2, IoSel::Output, id, spacing, r)
    } else if keys.arrow_down && keys.focus_clear {
        stacked(b2, IoSel::Output, id, spacing, r)
    } else if keys.arrow_up {
        r == b2.unstack_io(IoSel::Output, id)
    } else {
        r == b2
    }
}

/// An unnamed, off pin at height `y`, in no group.
pub open spec fn new_pin(y: i64) -> IoView {
    IoView { name: Seq::empty(), y_pos: y, state: false, group_member: None }
}

/// The events of a frame can be handled over `item` without fault: what
/// they touch exists, and no pin is stacked or unstacked in the frame that
/// deletes it.
pub open spec fn input_ok(
    b: BoardView,
    sel: Seq<u64>,
    p: (Seq<LinkStart<u64>>, usize, Seq<Point>),
    item: BoardItem,
    keys: KeyEvents,
) -> bool {
    let go = keys.pressed_prim || keys.try_link;
    match item {
        BoardItem::Device(id) => keys.backspace ==> b.devices.contains_key(id) && (sel.contains(id) ==> sel.no_duplicates()
            && forall|k: int| 0 <= k < sel.len() ==> b.devices.contains_key(#[trigger] sel[k])),
        BoardItem::InputBulb(id) => {
            &&& keys.clicked_prim || (keys.backspace && keys.focus_clear) || keys.arrow_down || keys.arrow_up
                ==> b.inputs.contains_key(id)
            &&& !(keys.backspace && keys.focus_clear && (keys.arrow_down || keys.arrow_up))
        },
        BoardItem::InputLink(i, k) => keys.backspace ==> b.inputs.contains_key(i) && k < b.inputs[i].links.len(),
        BoardItem::OutputBulb(id) => {
            let down = keys.arrow_down && keys.focus_clear;
            &&& keys.backspace || down || keys.arrow_up ==> b.outputs.contains_key(id)
            &&& !(keys.backspace && (down || keys.arrow_up))
        },
        BoardItem::OutputPin(_) => go && p.0.len() > 0 ==> start_ok(b, p.0.last()),
        BoardItem::DeviceInput(d, i) => {
            &&& go && p.0.len() > 0 ==> start_ok(b, p.0.last())
            &&& keys.pressed_prim && !(go && p.0.len() > 0) ==> b.devices.contains_key(d) && i
                < b.devices[d].data.num_inputs()
        },
        BoardItem::DeviceOutput(d, o) => keys.backspace ==> b.devices.contains_key(d) && o < b.devices[d].links.len(),
        BoardItem::DeviceOutputLink(d, o, k) => keys.backspace ==> b.devices.contains_key(d) && o
            < b.devices[d].links.len() && k < b.devices[d].links[o as int].len(),
        _ => true,
    }
}

/// `r` is board `b` after a frame's events over `item`, with `sel` the
/// selected devices and `p` the links being drawn. A device takes
/// backspace (deleting the selection when it is selected, else itself);
/// a pin bulb, see `input_bulb_after` and `output_bulb_after`; a link,
/// backspace (deleting it and sending its target `false`); an output pin or
/// device input, a press (finishing the link being drawn; a device input
/// pressed with none is toggled); a device output, backspace (deleting its
/// links); a pin column, a click (adding a pin there).
pub open spec fn board_after(
    b: BoardView,
    sel: Seq<u64>,
    p: (Seq<LinkStart<u64>>, usize, Seq<Point>),
    item: BoardItem,
    keys: KeyEvents,
    world: Point,
    spacing: i64,
    r: BoardView,
) -> bool {
    let go = keys.pressed_prim || keys.try_link;
    match item {
        BoardItem::Device(id) => if keys.backspace {
            if sel.contains(id) {
                r == without_devices(b, sel)
            } else {
                r == b.remove_device(id)
            }
        } else {
            r == b
        },
        BoardItem::InputBulb(id) => input_bulb_after(b, id, keys, spacing, r),
        BoardItem::InputLink(i, k) => r == if keys.backspace {
            BoardView {
                buffer: b.buffer.push((b.inputs[i].links[k as int].target, false)),
                ..b.remove_input_link(i, k as int)
            }
        } else {
            b
        },
        BoardItem::OutputBulb(id) => output_bulb_after(b, id, keys, spacing, r),
        BoardItem::OutputPin(id) => if go {
            link_finished(b, p, LinkTarget::Output(id), r)
        } else {
            r == b
        },
        BoardItem::DeviceInput(d, i) => if go && p.0.len() > 0 {
            link_finished(b, p, LinkTarget::DeviceInput(d, i), r)
        } else if keys.pressed_prim {
            r == b.set_device_input(d, i as nat, !crate::bits::bit_of(b.devices[d].data.input(), i as nat))
        } else {
            r == b
        },
        BoardItem::DeviceOutput(d, o) => r == if keys.backspace {
            BoardView {
                devices: b.devices.insert(
                    d,
                    DeviceView { links: b.devices[d].links.update(o as int, Seq::empty()), ..b.devices[d] },
                ),
                ..b
            }
        } else {
            b
        },
        BoardItem::DeviceOutputLink(d, o, k) => r == if keys.backspace {
            BoardView {
                buffer: b.buffer.push((b.devices[d].links[o as int][k as int].target, false)),
                ..b.remove_device_link(d, o as int, k as int)
            }
        } else {
            b
        },
        BoardItem::InputCol => if keys.clicked_prim {
            exists|id: u64| r == b.add_pin(IoSel::Input, id, new_pin(world.y))
        } else {
            r == b
        },
        BoardItem::OutputCol => if keys.clicked_prim {
            exists|id: u64| r == b.add_pin(IoSel::Output, id, new_pin(world.y))
        } else {
            r == b
        },
        _ => r == b,
    }
}

/// The selected devices after a frame's events over `item`: over a device,
/// backspace clears the selection when the device is in it, and a shift
/// press adds the device when it is not.
pub open spec fn selected_after(sel: Seq<u64>, item: BoardItem, keys: KeyEvents) -> Seq<u64> {
    match item {
        BoardItem::Device(id) => {
            let s1 = if keys.backspace && sel.contains(id) {
                Seq::empty()
            } else {
                sel
            };
            if keys.pressed_prim && keys.shift && !s1.contains(id) {
                s1.push(id)
            } else {
                s1
            }
        },
        _ => sel,
    }
}

/// The links being drawn after a frame's events over `item`: a press on
/// the board adds an anchor; pressing (or hovering, when links are made on
/// hover) an input pin or a device output starts a link there; doing so on
/// an output pin or a device input takes the oldest start.
pub open spec fn links_after(
    p: (Seq<LinkStart<u64>>, usize, Seq<Point>),
    item: BoardItem,
    keys: KeyEvents,
    world: Point,
) -> (Seq<LinkStart<u64>>, usize, Seq<Point>) {
    let go = keys.pressed_prim || keys.try_link;
    match item {
        BoardItem::Board => if keys.pressed_prim {
            (p.0, p.1, p.2.push(world))
        } else {
            p
        },
        BoardItem::InputPin(id) => if go {
            pushed(p, LinkStart::Input(id))
        } else {
            p
        },
        BoardItem::DeviceOutput(d, o) => if go {
            pushed(p, LinkStart::DeviceOutput(d, o))
        } else {
            p
        },
        BoardItem::OutputPin(_) => if go {
            taken(p)
        } else {
            p
        },
        BoardItem::DeviceInput(_, _) => if go {
            taken(p)
        } else {
            p
        },
        _ => p,
    }
}

/// The name popup after a frame over `item`: a pin bulb opens one for its
/// pin.
pub open spec fn popup_after(popup: Option<NamePopup>, item: BoardItem) -> Option<NamePopup> {
    match item {
        BoardItem::InputBulb(id) => Some(NamePopup { timer: FADE_TIME, id, ty: PinType::Input }),
        BoardItem::OutputBulb(id) => Some(NamePopup { timer: FADE_TIME, id, ty: PinType::Output }),
        _ => popup,
    }
}

/// Whether `id` is in `v`.
fn has_id(v: &Vec<u64>, id: u64) -> (r: bool)
    ensures
        r == v@.contains(id),
{
    let mut k: usize = 0;
    while k < v.len()
        invariant
            k <= v@.len(),
            forall|j: int| 0 <= j < k ==> v@[j] != id,
        decreases v@.len() - k,
    {
        if v[k] == id {
            assert(v@[k as int] == id);
            return true;
        }
        k = k + 1;
    }
    false
}

/// Deletes the devices `ids`, in order.
fn remove_devices(board: &mut Board, ids: &Vec<u64>)
    requires
        old(board)@.wf(),
        ids@.no_duplicates(),
        forall|k: int| 0 <= k < ids@.len() ==> old(board)@.devices.contains_key(#[trigger] ids@[k]),
    ensures
        final(board)@ == without_devices(old(board)@, ids@),
{
    let ghost b0 = board@;
    let mut k: usize = 0;
    while k < ids.len()
        invariant
            k <= ids@.len(),
            ids@.no_duplicates(),
            board@.wf(),
            board@ == without_devices(b0, ids@.take(k as int)),
            forall|j: int| k <= j < ids@.len() ==> board@.devices.contains_key(#[trigger] ids@[j]),
        decreases ids@.len() - k,
    {
        let id = ids[k];
        proof {
            lemma_remove_device_wf(board@, id);
            assert(ids@.take(k + 1).drop_last() =~= ids@.take(k as int));
            assert forall|j: int| k + 1 <= j < ids@.len() implies board@.remove_device(id).devices.contains_key(
                #[trigger] ids@[j],
            ) by {
                assert(ids@[j] != ids@[k as int]);
            }
        }
        board.remove_device(id);
        k = k + 1;
    }
    assert(ids@.take(k as int) =~= ids@);
}

/// Finishes the oldest link being drawn at `target`; whether there was one.
fn finish_link(board: &mut Board, links: &mut CreateLinks, target: LinkTarget<u64>) -> (r: bool)
    requires
        old(board)@.sim_wf(),
        old(links).starts@.len() > 0 ==> start_ok(old(board)@, old(links).starts@.last()),
    ensures
        r == (old(links).starts@.len() > 0),
        link_finished(old(board)@, pending(*old(links)), target, final(board)@),
        pending(*final(links)) == taken(pending(*old(links))),
{
    match links.take() {
        Some((start, color)) => {
            let anchors = copy_vec(&links.anchors);
            board.add_link(start, Link::new(target, color, anchors));
            true
        },
        None => false,
    }
}

/// Handles one frame's pointer and key events over board item `item`, with
/// `world` the pointer on the board and `spacing` the gap between stacked
/// pins: changes the board, the selected devices, the links being drawn and
/// the name popup as `board_after`, `selected_after`, `links_after` and
/// `popup_after` say.
pub fn board_input(
    board: &mut Board,
    selected: &mut Vec<u64>,
    links: &mut CreateLinks,
    popup: &mut Option<NamePopup>,
    item: BoardItem,
    keys: KeyEvents,
    world: Point,
    spacing: i64,
)
    requires
        old(board)@.wf(),
        input_ok(old(board)@, old(selected)@, pending(*old(links)), item, keys),
    ensures
        board_after(
            old(board)@,
            old(selected)@,
            pending(*old(links)),
            item,
            keys,
            world,
            spacing,
            final(board)@,
        ),
        final(selected)@ == selected_after(old(selected)@, item, keys),
        pending(*final(links)) == links_after(pending(*old(links)), item, keys, world),
        *final(popup) == popup_after(*old(popup), item),
{
    let go = keys.pressed_prim || keys.try_link;
    match item {
        BoardItem::Board => {
            if keys.pressed_prim {
                links.anchors.push(world);
            }
        },
        BoardItem::Device(id) => {
            if keys.backspace {
                if has_id(selected, id) {
                    remove_devices(board, selected);
                    selected.clear();
                } else {
                    board.remove_device(id);
                }
            }
            if keys.pressed_prim && keys.shift {
                if !has_id(selected, id) {
                    selected.push(id);
                }
            }
        },
        BoardItem::InputBulb(id) => {
            if keys.clicked_prim {
                let state = board.inputs.get(id).unwrap().io.state;
                proof {
                    lemma_set_input_wf(board@, id, !state);
                }
                board.set_input(id, !state);
            }
            *popup = Some(NamePopup::input(id));
            if keys.backspace && keys.focus_clear {
                board.remove_input(id);
            }
            let ghost b2 = board@;
            if keys.arrow_down {
                board.stack_input(id, spacing);
            }
            if keys.arrow_up {
                proof {
                    if keys.arrow_down {
                        let (gid, nid) = choose|gid: u64, nid: u64|
                            board@ == b2.stack_io(IoSel::Input, id, spacing, gid, nid);
                        lemma_stacked_can_unstack(b2, IoSel::Input, id, spacing, gid, nid);
                    } else {
                        lemma_can_unstack(b2, IoSel::Input, id);
                    }
                }
                board.unstack_input(id);
            }
        },
        BoardItem::InputPin(id) => {
            if go {
                links.push(LinkStart::Input(id));
            }
        },
        BoardItem::InputLink(i, k) => {
            if keys.backspace {
                board.cut_input_link(i, k);
            }
        },
        BoardItem::InputGroup(_) => {},
        BoardItem::OutputBulb(id) => {
            if keys.backspace {
                board.remove_output(id);
            }
            *popup = Some(NamePopup::output(id));
            let ghost b2 = board@;
            if keys.arrow_down && keys.focus_clear {
                board.stack_output(id, spacing);
            }
            if keys.arrow_up {
                proof {
                    if keys.arrow_down && keys.focus_clear {
                        let (gid, nid) = choose|gid: u64, nid: u64|
                            board@ == b2.stack_io(IoSel::Output, id, spacing, gid, nid);
                        lemma_stacked_can_unstack(b2, IoSel::Output, id, spacing, gid, nid);
                    } else {
                        lemma_can_unstack(b2, IoSel::Output, id);
                    }
                }
                board.unstack_output(id);
            }
        },
        BoardItem::OutputGroup(_) => {},
        BoardItem::OutputPin(id) => {
            if go {
                finish_link(board, links, LinkTarget::Output(id));
            }
        },
        BoardItem::DeviceInput(d, i) => {
            let mut created = false;
            if go {
                created = finish_link(board, links, LinkTarget::DeviceInput(d, i));
            }
            if keys.pressed_prim && !created {
                let state = board.get_device_input(d, i).unwrap();
                board.set_device_input(d, i, !state);
            }
        },
        BoardItem::DeviceOutput(d, o) => {
            if go {
                links.push(LinkStart::DeviceOutput(d, o));
            }
            if keys.backspace {
                board.clear_output_links(d, o);
            }
        },
        BoardItem::DeviceOutputLink(d, o, k) => {
            if keys.backspace {
                board.cut_device_link(d, o, k);
            }
        },
        BoardItem::InputCol => {
            if keys.clicked_prim {
                board.add_input(world.y);
            }
        },
        BoardItem::OutputCol => {
            if keys.clicked_prim {
                board.add_output(world.y);
            }
        },
    }
}

} // verus!
