//! The editable board: input and output pins (optionally grouped into
//! multi-bit values), placed devices, links between them, and the write
//! queue that carries states along the links.

use crate::bits::{changes_from, with_bit, BitField, ChangedOutputs};
use crate::chip::{after_tick, Chip, ChipView};
use crate::gate::{CombGate, GateView};
use crate::geom::{Point, Rect};
use crate::maps::{
    device_entries, group_entries, input_entries, output_entries, DeviceMap, GroupMap, InputMap,
    OutputMap,
};
use crate::queue::{all_waiting, delays_ok, find_ready, flushed, ticked, change_writes, fanout, lemma_change_writes_append, lemma_change_writes_single, links_view, Write, WriteQueue};
use crate::{copy_vec, Link, LinkStart, LinkTarget, LinkView, targets_of};
use vstd::prelude::*;

verus! {

/// What sits on the board at a point.
#[derive(Clone, Copy, Debug)]
pub enum BoardItem {
    Board,
    InputCol,
    OutputCol,
    Device(u64),
    DeviceInput(u64, usize),
    DeviceOutput(u64, usize),
    DeviceOutputLink(u64, usize, usize),
    InputPin(u64),
    InputBulb(u64),
    InputLink(u64, usize),
    InputGroup(u64),
    OutputPin(u64),
    OutputBulb(u64),
    OutputGroup(u64),
}

/// The simulated part of a device.
pub enum DeviceData {
    CombGate(CombGate),
    Chip(Chip),
}

/// The simulated part of a device, as values.
pub enum DeviceDataView {
    CombGate(GateView),
    Chip(ChipView),
}

impl View for DeviceData {
    type V = DeviceDataView;

    open spec fn view(&self) -> DeviceDataView {
        match self {
            DeviceData::CombGate(g) => DeviceDataView::CombGate(g@),
            DeviceData::Chip(c) => DeviceDataView::Chip(c@),
        }
    }
}

impl DeviceDataView {
    /// Number of inputs.
    pub open spec fn num_inputs(self) -> nat {
        match self {
            DeviceDataView::CombGate(g) => g.input_len,
            DeviceDataView::Chip(c) => c.input_len,
        }
    }

    /// Number of outputs.
    pub open spec fn num_outputs(self) -> nat {
        match self {
            DeviceDataView::CombGate(g) => g.output_len,
            DeviceDataView::Chip(c) => c.output_len,
        }
    }

    /// The input pattern.
    pub open spec fn input(self) -> u64 {
        match self {
            DeviceDataView::CombGate(g) => g.input,
            DeviceDataView::Chip(c) => c.input,
        }
    }

    /// The output pattern.
    pub open spec fn output(self) -> u64 {
        match self {
            DeviceDataView::CombGate(g) => g.output,
            DeviceDataView::Chip(c) => c.output,
        }
    }

    /// A well-formed gate or chip.
    pub open spec fn wf(self) -> bool {
        match self {
            DeviceDataView::CombGate(g) => g.wf(),
            DeviceDataView::Chip(c) => c.wf(),
        }
    }

    /// The device after input `i` takes `state`.
    pub open spec fn set_input(self, i: nat, state: bool) -> DeviceDataView {
        match self {
            DeviceDataView::CombGate(g) => DeviceDataView::CombGate(g.set_input(i, state)),
            DeviceDataView::Chip(c) => DeviceDataView::Chip(c.set_input(i, state)),
        }
    }

    /// The outputs that change at once when input `i` takes `state` (a
    /// chip's outputs only change when the chip ticks).
    pub open spec fn set_input_changes(self, i: nat, state: bool) -> Seq<(usize, bool)> {
        match self {
            DeviceDataView::CombGate(g) => g.set_input_changes(i, state),
            DeviceDataView::Chip(c) => Seq::empty(),
        }
    }
}

impl DeviceData {
    /// A copy (a chip's buffered writes are dropped).
    pub fn duplicate(&self) -> (r: DeviceData)
        ensures
            match self@ {
                DeviceDataView::CombGate(g) => r@ == DeviceDataView::CombGate(g),
                DeviceDataView::Chip(c) => r@ == DeviceDataView::Chip(ChipView { buffer: Seq::empty(), ..c }),
            },
    {
        match self {
            DeviceData::CombGate(g) => DeviceData::CombGate(g.clone()),
            DeviceData::Chip(c) => DeviceData::Chip(c.duplicate()),
        }
    }

    /// Sets input `input` to `state`; a gate reports its changed outputs at
    /// once, a chip reports none (its outputs change when it ticks).
    pub fn set_input(&mut self, input: usize, state: bool) -> (r: ChangedOutputs)
        requires
            old(self)@.wf(),
            input < old(self)@.num_inputs(),
        ensures
            final(self)@ == old(self)@.set_input(input as nat, state),
            final(self)@.wf(),
            r.wf(),
            r.bound() <= old(self)@.num_outputs(),
            r.remaining() == old(self)@.set_input_changes(input as nat, state),
    {
        match self {
            DeviceData::CombGate(e) => e.set_input(input, state),
            DeviceData::Chip(e) => {
                e.set_input(input, state);
                ChangedOutputs::none()
            },
        }
    }

    /// The input pattern.
    pub fn input(&self) -> (r: BitField)
        ensures
            r.data == self@.input(),
            r.spec_len() == self@.num_inputs(),
    {
        match self {
            DeviceData::CombGate(e) => e.input,
            DeviceData::Chip(e) => e.input,
        }
    }

    /// The output pattern.
    pub fn output(&self) -> (r: BitField)
        ensures
            r.data == self@.output(),
            r.spec_len() == self@.num_outputs(),
    {
        match self {
            DeviceData::CombGate(e) => e.output,
            DeviceData::Chip(e) => e.output,
        }
    }
}

/// A device placed on the board.
pub struct Device {
    pub pos: Point,
    pub data: DeviceData,
    pub links: Vec<Vec<Link>>,
    pub preset: String,
}

/// A device, as values.
pub struct DeviceView {
    pub pos: Point,
    pub data: DeviceDataView,
    pub links: Seq<Seq<LinkView>>,
    pub preset: Seq<char>,
}

/// The views of the link lists of each output.
pub open spec fn link_lists_view(links: Seq<Vec<Link>>) -> Seq<Seq<LinkView>> {
    links.map_values(|v: Vec<Link>| v@.map_values(|l: Link| l@))
}

/// The targets of the link lists of each output.
pub open spec fn link_targets(links: Seq<Seq<LinkView>>) -> Seq<Seq<LinkTarget<u64>>> {
    links.map_values(|v: Seq<LinkView>| targets_of(v))
}

impl View for Device {
    type V = DeviceView;

    open spec fn view(&self) -> DeviceView {
        DeviceView {
            pos: self.pos,
            data: self.data@,
            links: link_lists_view(self.links@),
            preset: self.preset@,
        }
    }
}

impl DeviceView {
    /// The device is well formed and has one link list per output.
    pub open spec fn wf(self) -> bool {
        &&& self.data.wf()
        &&& self.links.len() == self.data.num_outputs()
    }
}

/// A copy of a list of links.
pub fn copy_links(v: &Vec<Link>) -> (r: Vec<Link>)
    ensures
        r@.map_values(|l: Link| l@) == v@.map_values(|l: Link| l@),
{
    let mut r: Vec<Link> = Vec::new();
    let mut i: usize = 0;
    while i < v.len()
        invariant
            i <= v@.len(),
            r@.len() == i,
            forall|j: int| 0 <= j < i ==> (#[trigger] r@[j])@ == v@[j]@,
        decreases v@.len() - i,
    {
        r.push(v[i].clone());
        i = i + 1;
    }
    assert(r@.map_values(|l: Link| l@) =~= v@.map_values(|l: Link| l@));
    r
}

/// A copy of the link lists of each output.
pub fn copy_link_lists(v: &Vec<Vec<Link>>) -> (r: Vec<Vec<Link>>)
    ensures
        link_lists_view(r@) == link_lists_view(v@),
{
    let mut r: Vec<Vec<Link>> = Vec::new();
    let mut i: usize = 0;
    while i < v.len()
        invariant
            i <= v@.len(),
            r@.len() == i,
            forall|j: int| 0 <= j < i ==> (#[trigger] r@[j])@.map_values(|l: Link| l@) == v@[j]@.map_values(|l: Link| l@),
        decreases v@.len() - i,
    {
        r.push(copy_links(&v[i]));
        i = i + 1;
    }
    assert(link_lists_view(r@) =~= link_lists_view(v@));
    r
}

impl Clone for Device {
    fn clone(&self) -> (r: Self)
        ensures
            r@ == (DeviceView {
                data: match self@.data {
                    DeviceDataView::CombGate(g) => DeviceDataView::CombGate(g),
                    DeviceDataView::Chip(c) => DeviceDataView::Chip(ChipView { buffer: Seq::empty(), ..c }),
                },
                ..self@
            }),
    {
        Device {
            pos: self.pos,
            data: self.data.duplicate(),
            links: copy_link_lists(&self.links),
            preset: self.preset.clone(),
        }
    }
}

impl Device {
    /// Number of inputs.
    pub fn num_inputs(&self) -> (r: usize)
        ensures
            r == self@.data.num_inputs(),
    {
        self.data.input().len()
    }

    /// Number of outputs.
    pub fn num_outputs(&self) -> (r: usize)
        ensures
            r == self@.data.num_outputs(),
    {
        self.data.output().len()
    }
}

/// Which column of pins an operation is about.
#[derive(Clone, Copy, Debug)]
pub enum IoSel {
    Input,
    Output,
}

/// A pin at the side of the board.
#[derive(Debug)]
pub struct Io {
    pub name: String,
    pub y_pos: i64,
    pub state: bool,
    pub group_member: Option<u64>,
}

/// A pin, as values.
pub struct IoView {
    pub name: Seq<char>,
    pub y_pos: i64,
    pub state: bool,
    pub group_member: Option<u64>,
}

impl View for Io {
    type V = IoView;

    open spec fn view(&self) -> IoView {
        IoView { name: self.name@, y_pos: self.y_pos, state: self.state, group_member: self.group_member }
    }
}

impl Clone for Io {
    fn clone(&self) -> (r: Self)
        ensures
            r@ == self@,
    {
        Io { name: self.name.clone(), y_pos: self.y_pos, state: self.state, group_member: self.group_member }
    }
}

impl Io {
    /// An unnamed, off pin at height `y_pos`, in no group.
    pub fn new(y_pos: i64) -> (r: Io)
        ensures
            r@ == (IoView { name: Seq::empty(), y_pos, state: false, group_member: None }),
    {
        Io { name: String::new(), y_pos, state: false, group_member: None }
    }
}

/// An input pin and the links leaving it.
#[derive(Debug)]
pub struct Input {
    pub io: Io,
    pub links: Vec<Link>,
}

/// An input pin, as values.
pub struct InputView {
    pub io: IoView,
    pub links: Seq<LinkView>,
}

impl View for Input {
    type V = InputView;

    open spec fn view(&self) -> InputView {
        InputView { io: self.io@, links: self.links@.map_values(|l: Link| l@) }
    }
}

impl Clone for Input {
    fn clone(&self) -> (r: Self)
        ensures
            r@ == self@,
    {
        Input { io: self.io.clone(), links: copy_links(&self.links) }
    }
}

impl Input {
    /// The pin `io` with no links.
    pub fn new(io: Io) -> (r: Input)
        ensures
            r@ == (InputView { io: io@, links: Seq::empty() }),
    {
        let r = Input { io, links: Vec::new() };
        assert(r@.links =~= Seq::<LinkView>::empty());
        r
    }
}

/// An output pin.
#[derive(Debug)]
pub struct Output {
    pub io: Io,
}

impl View for Output {
    type V = IoView;

    open spec fn view(&self) -> IoView {
        self.io@
    }
}

impl Clone for Output {
    fn clone(&self) -> (r: Self)
        ensures
            r@ == self@,
    {
        Output { io: self.io.clone() }
    }
}

impl Output {
    /// The pin `io`.
    pub fn new(io: Io) -> (r: Output)
        ensures
            r@ == io@,
    {
        Output { io }
    }
}

/// Pins shown together as one number.
#[derive(Debug)]
pub struct Group {
    pub lsb_top: bool,
    pub signed: bool,
    pub hex: bool,
    pub members: Vec<u64>,
}

/// A group of pins, as values.
pub struct GroupView {
    pub lsb_top: bool,
    pub signed: bool,
    pub hex: bool,
    pub members: Seq<u64>,
}

impl View for Group {
    type V = GroupView;

    open spec fn view(&self) -> GroupView {
        GroupView { lsb_top: self.lsb_top, signed: self.signed, hex: self.hex, members: self.members@ }
    }
}

impl Clone for Group {
    fn clone(&self) -> (r: Self)
        ensures
            r@ == self@,
    {
        Group { lsb_top: self.lsb_top, signed: self.signed, hex: self.hex, members: copy_vec(&self.members) }
    }
}

/// Which bit of the field the `k`-th weight of a group of `n` pins reads:
/// from the top pin down when the least significant bit is on top, from the
/// bottom pin up otherwise.
pub open spec fn group_bit_index(n: nat, lsb_top: bool, k: nat) -> nat {
    if lsb_top {
        k
    } else {
        (n - 1 - k) as nat
    }
}

/// The value of the first `k` (unsigned) weights of a group of `n` pins.
pub open spec fn group_low_sum(data: u64, n: nat, lsb_top: bool, k: nat) -> int
    decreases k,
{
    if k == 0 {
        0
    } else {
        group_low_sum(data, n, lsb_top, (k - 1) as nat) + if crate::bits::bit_of(
            data,
            group_bit_index(n, lsb_top, (k - 1) as nat),
        ) {
            vstd::arithmetic::power2::pow2((k - 1) as nat) as int
        } else {
            0
        }
    }
}

impl GroupView {
    /// The number the group's pins show for the bits `data`: every pin but
    /// the last weighs its power of two; the last weighs the next power, as
    /// a negative weight when the group is signed.
    pub open spec fn value(self, data: u64) -> int {
        let n = self.members.len();
        let last = if self.lsb_top { (n - 1) as nat } else { 0 };
        let top = vstd::arithmetic::power2::pow2((n - 1) as nat) as int;
        group_low_sum(data, n, self.lsb_top, (n - 1) as nat) + if crate::bits::bit_of(data, last) {
            if self.signed {
                -top
            } else {
                top
            }
        } else {
            0
        }
    }

    /// The text shown for the bits `data`: the value in decimal, or in
    /// upper-case hexadecimal (two's complement when negative).
    pub open spec fn display(self, data: u64) -> Seq<char> {
        if self.hex {
            crate::text::digits(((self.value(data) as i64) as u64) as nat, 16)
        } else {
            crate::text::signed_decimal(self.value(data))
        }
    }
}

proof fn lemma_low_sum_bound(data: u64, n: nat, lsb_top: bool, k: nat)
    ensures
        0 <= group_low_sum(data, n, lsb_top, k) < vstd::arithmetic::power2::pow2(k),
    decreases k,
{
    vstd::arithmetic::power2::lemma_pow2_pos(k);
    if k > 0 {
        lemma_low_sum_bound(data, n, lsb_top, (k - 1) as nat);
        vstd::arithmetic::power2::lemma_pow2_unfold(k);
    }
}

/// The value a group shows: unsigned, every pin weighs its power of two
/// and the value lies in `0..2^n`; signed, the most significant pin (the
/// last pin when the least significant bit is at the top, else the first)
/// weighs `-2^(n-1)`, so the signed value is the unsigned one less `2^n`
/// exactly when that pin is on, and lies in `-2^(n-1)..2^(n-1)`.
pub proof fn lemma_group_value(g: GroupView, data: u64)
    requires
        g.members.len() >= 1,
    ensures
        ({
            let n = g.members.len();
            let msb = if g.lsb_top { (n - 1) as nat } else { 0 };
            let unsigned = GroupView { signed: false, ..g }.value(data);
            let signed = GroupView { signed: true, ..g }.value(data);
            &&& 0 <= unsigned < vstd::arithmetic::power2::pow2(n)
            &&& signed == unsigned - if crate::bits::bit_of(data, msb) {
                vstd::arithmetic::power2::pow2(n) as int
            } else {
                0
            }
            &&& -(vstd::arithmetic::power2::pow2((n - 1) as nat) as int) <= signed < vstd::arithmetic::power2::pow2(
                (n - 1) as nat,
            )
            &&& (crate::bits::bit_of(data, msb) <==> signed < 0)
            &&& g.value(data) == if g.signed { signed } else { unsigned }
        }),
{
    let n = g.members.len();
    lemma_low_sum_bound(data, n, g.lsb_top, (n - 1) as nat);
    vstd::arithmetic::power2::lemma_pow2_unfold(n);
    vstd::arithmetic::power2::lemma_pow2_pos((n - 1) as nat);
}

impl Group {
    /// The text the group shows for the bits `field`.
    pub fn display_value(&self, field: BitField) -> (r: String)
        requires
            1 <= self.members@.len() <= 63,
            self.members@.len() <= field.spec_len(),
        ensures
            r@ == self@.display(field.data),
    {
        let n = self.members.len();
        let mut value: i64 = 0;
        let mut bit_value: i64 = 1;
        let mut last_idx: usize = 0;
        let ghost g = self@;
        proof {
            vstd::arithmetic::power2::lemma2_to64();
            vstd::arithmetic::power2::lemma2_to64_rest();
        }
        let mut k: usize = 0;
        while k < n - 1
            invariant
                n == g.members.len(),
                1 <= n <= 63,
                n <= field.spec_len(),
                g == self@,
                k <= n - 1,
                value == group_low_sum(field.data, n as nat, self.lsb_top, k as nat),
                bit_value == vstd::arithmetic::power2::pow2(k as nat),
                vstd::arithmetic::power2::pow2(62) == 0x4000000000000000,
            decreases n - 1 - k,
        {
            let idx = if self.lsb_top { k } else { n - 1 - k };
            proof {
                lemma_low_sum_bound(field.data, n as nat, self.lsb_top, k as nat);
                vstd::arithmetic::power2::lemma_pow2_unfold((k + 1) as nat);
                if k + 1 < 62 {
                    vstd::arithmetic::power2::lemma_pow2_strictly_increases((k + 1) as nat, 62);
                }
            }
            if field.get(idx) {
                value = value + bit_value;
            }
            bit_value = bit_value * 2;
            k = k + 1;
        }
        if self.lsb_top {
            last_idx = n - 1;
        }
        proof {
            lemma_low_sum_bound(field.data, n as nat, self.lsb_top, (n - 1) as nat);
            if n - 1 < 62 {
                vstd::arithmetic::power2::lemma_pow2_strictly_increases((n - 1) as nat, 62);
            }
            assert(k == n - 1);
            assert(bit_value <= 0x4000000000000000);
            assert(0 <= value < 0x4000000000000000);
        }
        let top = bit_value;
        if field.get(last_idx) {
            if self.signed {
                bit_value = -top;
            }
            value = value + bit_value;
        }
        assert(value == g.value(field.data));
        if self.hex {
            crate::text::i64_to_hex(value)
        } else {
            crate::text::i64_to_decimal(value)
        }
    }

    /// The states of the group's pins on `board`, bit `k` for member `k`.
    pub fn field(&self, board: &Board, sel: IoSel) -> (r: BitField)
        requires
            self@.members.len() <= 64,
            forall|k: int| 0 <= k < self@.members.len() ==> board@.pins(sel).contains_key(#[trigger] self@.members[k]),
        ensures
            r.spec_len() == self@.members.len(),
            r.data == crate::bits::pack_bits(self@.members.map_values(|id: u64| board@.pins(sel)[id].state)),
    {
        let ghost states = self@.members.map_values(|id: u64| board@.pins(sel)[id].state);
        let mut field = BitField::empty(self.members.len());
        let mut idx: usize = 0;
        while idx < self.members.len()
            invariant
                self@.members.len() <= 64,
                forall|k: int| 0 <= k < self@.members.len() ==> board@.pins(sel).contains_key(#[trigger] self@.members[k]),
                states == self@.members.map_values(|id: u64| board@.pins(sel)[id].state),
                idx <= self@.members.len(),
                field.spec_len() == self@.members.len(),
                field.data == crate::bits::pack_bits(states.take(idx as int)),
            decreases self@.members.len() - idx,
        {
            let id = self.members[idx];
            assert(board@.pins(sel).contains_key(self@.members[idx as int]));
            let state = board.get_io(sel, id).unwrap().state;
            field.set(idx, state);
            proof {
                let s1 = states.take(idx + 1);
                assert(s1.drop_last() =~= states.take(idx as int));
            }
            idx = idx + 1;
        }
        assert(states.take(idx as int) =~= states);
        field
    }

    /// A group of `members`, least significant on top, signed, decimal.
    pub fn new(members: Vec<u64>) -> (r: Group)
        ensures
            r@ == (GroupView { lsb_top: true, signed: true, hex: false, members: members@ }),
    {
        Group { lsb_top: true, signed: true, hex: false, members }
    }
}

/// The board: a rectangle in world space, the write queue, and id-keyed
/// maps of pins, devices and pin groups.
pub struct Board {
    pub rect: Rect,
    pub write_queue: WriteQueue<u64>,
    pub inputs: InputMap,
    pub outputs: OutputMap,
    pub devices: DeviceMap,
    pub input_groups: GroupMap,
    pub output_groups: GroupMap,
}

/// The board, as values.
pub struct BoardView {
    pub rect: Rect,
    pub writes: Seq<Write<u64>>,
    pub buffer: Seq<(LinkTarget<u64>, bool)>,
    pub inputs: Map<u64, InputView>,
    pub outputs: Map<u64, IoView>,
    pub devices: Map<u64, DeviceView>,
    pub input_groups: Map<u64, GroupView>,
    pub output_groups: Map<u64, GroupView>,
}

impl View for Board {
    type V = BoardView;

    open spec fn view(&self) -> BoardView {
        BoardView {
            rect: self.rect,
            writes: self.write_queue.writes@,
            buffer: self.write_queue.buffer@,
            inputs: input_entries(self.inputs),
            outputs: output_entries(self.outputs),
            devices: device_entries(self.devices),
            input_groups: group_entries(self.input_groups),
            output_groups: group_entries(self.output_groups),
        }
    }
}

impl BoardView {
    /// A write to `t` can land without fault: a device input that exists is
    /// an input the device has.
    pub open spec fn target_ok(self, t: LinkTarget<u64>) -> bool {
        match t {
            LinkTarget::DeviceInput(d, i) => self.devices.contains_key(d) ==> i
                < self.devices[d].data.num_inputs(),
            LinkTarget::Output(_) => true,
        }
    }

    /// Every device is well formed, and every link and queued write points
    /// at a pin that either is gone or exists on its device.
    pub open spec fn sim_wf(self) -> bool {
        &&& forall|d: u64| #[trigger] self.devices.contains_key(d) ==> self.devices[d].wf()
        &&& forall|k: int| 0 <= k < self.writes.len() ==> self.target_ok(#[trigger] self.writes[k].target)
        &&& forall|k: int| 0 <= k < self.buffer.len() ==> self.target_ok(#[trigger] self.buffer[k].0)
        &&& forall|i: u64, k: int|
            #![trigger self.inputs[i].links[k]]
            self.inputs.contains_key(i) && 0 <= k < self.inputs[i].links.len()
                ==> self.target_ok(self.inputs[i].links[k].target)
        &&& forall|d: u64, o: int, k: int|
            #![trigger self.devices[d].links[o][k]]
            self.devices.contains_key(d) && 0 <= o < self.devices[d].links.len() && 0 <= k
                < self.devices[d].links[o].len() ==> self.target_ok(self.devices[d].links[o][k].target)
    }

    /// Input `i` of device `d` takes `state`; the writes for the device's
    /// changed outputs are buffered. Nothing happens if there is no such
    /// device.
    pub open spec fn set_device_input(self, d: u64, i: nat, state: bool) -> BoardView {
        if self.devices.contains_key(d) {
            let dev = self.devices[d];
            BoardView {
                devices: self.devices.insert(d, DeviceView { data: dev.data.set_input(i, state), ..dev }),
                buffer: self.buffer + change_writes(
                    link_targets(dev.links),
                    dev.data.set_input_changes(i, state),
                ),
                ..self
            }
        } else {
            self
        }
    }

    /// Some input pin has a link to `t`.
    pub open spec fn input_has_link_to(self, t: LinkTarget<u64>) -> bool {
        exists|i: u64, k: int|
            #![trigger self.inputs[i].links[k]]
            self.inputs.contains_key(i) && 0 <= k < self.inputs[i].links.len()
                && self.inputs[i].links[k].target == t
    }

    /// Some device output has a link to `t`.
    pub open spec fn device_has_link_to(self, t: LinkTarget<u64>) -> bool {
        exists|d: u64, o: int, k: int|
            #![trigger self.devices[d].links[o][k]]
            self.devices.contains_key(d) && 0 <= o < self.devices[d].links.len() && 0 <= k
                < self.devices[d].links[o].len() && self.devices[d].links[o][k].target == t
    }

    /// The board without link `k` of input pin `i`.
    pub open spec fn remove_input_link(self, i: u64, k: int) -> BoardView {
        BoardView {
            inputs: self.inputs.insert(
                i,
                InputView { links: self.inputs[i].links.remove(k), ..self.inputs[i] },
            ),
            ..self
        }
    }

    /// The board without link `k` of output `o` of device `d`.
    pub open spec fn remove_device_link(self, d: u64, o: int, k: int) -> BoardView {
        let dev = self.devices[d];
        BoardView {
            devices: self.devices.insert(
                d,
                DeviceView { links: dev.links.update(o, dev.links[o].remove(k)), ..dev },
            ),
            ..self
        }
    }

    /// `m` is this board with one link to `t` removed, when there is one:
    /// the first such link of its list, taken from an input pin when any
    /// input pin has one, else from a device output.
    pub open spec fn link_removed(self, t: LinkTarget<u64>, m: BoardView) -> bool {
        if self.input_has_link_to(t) {
            exists|i: u64, k: int|
                #![trigger self.inputs[i].links[k]]
                self.inputs.contains_key(i) && first_link_to(self.inputs[i].links, t, k) && m
                    == self.remove_input_link(i, k)
        } else if self.device_has_link_to(t) {
            exists|d: u64, o: int, k: int|
                #![trigger self.devices[d].links[o][k]]
                self.devices.contains_key(d) && 0 <= o < self.devices[d].links.len()
                    && first_link_to(self.devices[d].links[o], t, k) && m == self.remove_device_link(
                    d,
                    o,
                    k,
                )
        } else {
            m == self
        }
    }

    /// The board with `l` added to the links of `start`, and a write of the
    /// start's state buffered for it.
    pub open spec fn attach(self, start: LinkStart<u64>, l: LinkView) -> BoardView {
        match start {
            LinkStart::Input(id) => BoardView {
                inputs: self.inputs.insert(
                    id,
                    InputView { links: self.inputs[id].links.push(l), ..self.inputs[id] },
                ),
                buffer: self.buffer.push((l.target, self.inputs[id].io.state)),
                ..self
            },
            LinkStart::DeviceOutput(id, idx) => {
                let dev = self.devices[id];
                BoardView {
                    devices: self.devices.insert(
                        id,
                        DeviceView { links: dev.links.update(idx as int, dev.links[idx as int].push(l)), ..dev },
                    ),
                    buffer: self.buffer.push((l.target, crate::bits::bit_of(dev.data.output(), idx as nat))),
                    ..self
                }
            },
        }
    }

    /// The board without device `id`; every output of it that was on sends
    /// `false` along its links.
    pub open spec fn remove_device(self, id: u64) -> BoardView {
        let dev = self.devices[id];
        BoardView {
            devices: self.devices.remove(id),
            buffer: self.buffer + change_writes(
                link_targets(dev.links),
                changes_from(dev.data.output(), 0, 0, dev.data.num_outputs()),
            ),
            ..self
        }
    }

    /// The state a link into `target` delivers to, if the target exists.
    pub open spec fn target_state(self, target: LinkTarget<u64>) -> Option<bool> {
        match target {
            LinkTarget::DeviceInput(d, i) => if self.devices.contains_key(d) {
                Some(crate::bits::bit_of(self.devices[d].data.input(), i as nat))
            } else {
                None
            },
            LinkTarget::Output(o) => if self.outputs.contains_key(o) {
                Some(self.outputs[o].state)
            } else {
                None
            },
        }
    }

    /// The state a link from `start` carries, if the start exists.
    pub open spec fn start_state(self, start: LinkStart<u64>) -> Option<bool> {
        match start {
            LinkStart::DeviceOutput(d, o) => if self.devices.contains_key(d) {
                Some(crate::bits::bit_of(self.devices[d].data.output(), o as nat))
            } else {
                None
            },
            LinkStart::Input(i) => if self.inputs.contains_key(i) {
                Some(self.inputs[i].io.state)
            } else {
                None
            },
        }
    }
}

impl BoardView {
    /// `state` lands on `target`; `None` when the target's device or output
    /// pin is gone.
    pub open spec fn land(self, target: LinkTarget<u64>, state: bool) -> Option<BoardView> {
        match target {
            LinkTarget::DeviceInput(d, i) => if self.devices.contains_key(d) {
                Some(self.set_device_input(d, i as nat, state))
            } else {
                None
            },
            LinkTarget::Output(o) => if self.outputs.contains_key(o) {
                Some(
                    BoardView {
                        outputs: self.outputs.insert(o, IoView { state, ..self.outputs[o] }),
                        ..self
                    },
                )
            } else {
                None
            },
        }
    }

    /// Every ready write lands, first ready first. The flag tells whether a
    /// write found its target gone, which stops the tick right after taking
    /// that write out.
    pub open spec fn run_ready(self) -> (BoardView, bool)
        decreases self.writes.len(),
    {
        let k = find_ready(self.writes, 0);
        if 0 <= k < self.writes.len() {
            let w = self.writes[k];
            let v0 = BoardView { writes: self.writes.remove(k), ..self };
            match v0.land(w.target, w.state) {
                Some(v1) => v1.run_ready(),
                None => (v0, true),
            }
        } else {
            (self, false)
        }
    }

    /// Device `id`, if it is a chip, ticks with the extra delays `ds`; the
    /// writes for its changed outputs are buffered.
    pub open spec fn tick_chip(self, id: u64, ds: Seq<u8>) -> BoardView {
        if self.devices.contains_key(id) {
            let dev = self.devices[id];
            match dev.data {
                DeviceDataView::Chip(c) => {
                    let c2 = after_tick(c.run_ready(), ds);
                    BoardView {
                        devices: self.devices.insert(id, DeviceView { data: DeviceDataView::Chip(c2), ..dev }),
                        buffer: self.buffer + change_writes(
                            link_targets(dev.links),
                            changes_from(c.output, c2.output, 0, c.output_len),
                        ),
                        ..self
                    }
                },
                DeviceDataView::CombGate(_) => self,
            }
        } else {
            self
        }
    }

    /// The devices listed in `order` tick in turn, the `k`-th with the extra
    /// delays `dss[k]`.
    pub open spec fn tick_chips(self, order: Seq<u64>, dss: Seq<Seq<u8>>) -> BoardView
        decreases order.len(),
    {
        if order.len() == 0 {
            self
        } else {
            self.tick_chips(order.drop_last(), dss.drop_last()).tick_chip(order.last(), dss.last())
        }
    }

    /// `ds` is a possible draw of extra delays for device `id` when it ticks.
    pub open spec fn chip_draw_ok(self, id: u64, ds: Seq<u8>) -> bool {
        self.devices.contains_key(id) ==> match self.devices[id].data {
            DeviceDataView::Chip(c) => ds.len() == c.run_ready().buffer.len() && delays_ok(ds),
            DeviceDataView::CombGate(_) => true,
        }
    }

    /// Each draw in `dss` is possible when its device ticks.
    pub open spec fn chip_draws_ok(self, order: Seq<u64>, dss: Seq<Seq<u8>>) -> bool
        decreases order.len(),
    {
        if order.len() == 0 {
            dss.len() == 0
        } else {
            &&& dss.len() == order.len()
            &&& self.chip_draws_ok(order.drop_last(), dss.drop_last())
            &&& self.tick_chips(order.drop_last(), dss.drop_last()).chip_draw_ok(order.last(), dss.last())
        }
    }

    /// The board queue ticks: waiting writes count down and the buffer joins
    /// the queue with the extra delays `ds`.
    pub open spec fn queue_ticked(self, ds: Seq<u8>) -> BoardView {
        BoardView { writes: flushed(ticked(self.writes), self.buffer, ds), buffer: Seq::empty(), ..self }
    }

    /// A full tick with the given draws: ready writes land, every device
    /// (in `order`) ticks, then the queue ticks.
    pub open spec fn tick(self, order: Seq<u64>, dss: Seq<Seq<u8>>, ds: Seq<u8>) -> BoardView {
        self.run_ready().0.tick_chips(order, dss).queue_ticked(ds)
    }

    /// The draws `order`, `dss`, `ds` are possible outcomes of a tick:
    /// `order` lists every device once, and every delay drawn is below 3.
    pub open spec fn tick_draws_ok(self, order: Seq<u64>, dss: Seq<Seq<u8>>, ds: Seq<u8>) -> bool {
        let r = self.run_ready().0;
        &&& order.no_duplicates()
        &&& order.to_set() == r.devices.dom()
        &&& r.chip_draws_ok(order, dss)
        &&& ds.len() == r.tick_chips(order, dss).buffer.len()
        &&& delays_ok(ds)
    }
}

/// Landing a write on a target that exists keeps the board well formed.
pub proof fn lemma_land(v: BoardView, target: LinkTarget<u64>, state: bool)
    requires
        v.sim_wf(),
        v.target_ok(target),
    ensures
        v.land(target, state) matches Some(r) ==> r.sim_wf() && r.writes == v.writes,
{
    match target {
        LinkTarget::DeviceInput(d, i) => {
            if v.devices.contains_key(d) {
                lemma_set_device_input(v, d, i as nat, state);
            }
        },
        LinkTarget::Output(o) => {},
    }
}

/// Setting a device input keeps the board well formed.
pub proof fn lemma_set_device_input(v: BoardView, d: u64, i: nat, state: bool)
    requires
        v.sim_wf(),
        v.devices.contains_key(d) ==> i < v.devices[d].data.num_inputs(),
    ensures
        v.set_device_input(d, i, state).sim_wf(),
        v.set_device_input(d, i, state).writes == v.writes,
        v.set_device_input(d, i, state).devices.dom() == v.devices.dom(),
{
    if v.devices.contains_key(d) {
        let dev = v.devices[d];
        let r = v.set_device_input(d, i, state);
        let nd = dev.data.set_input(i, state);
        let ch = dev.data.set_input_changes(i, state);
        match dev.data {
            DeviceDataView::CombGate(g) => {
                crate::bits::lemma_with_bit_bound(g.input, i, state, g.num_inputs);
                crate::bits::lemma_changes_in_range(g.output, g.set_input(i, state).output, 0, g.num_outputs);
            },
            DeviceDataView::Chip(c) => {
                crate::chip::lemma_set_input(c, i, state);
            },
        }
        assert(nd.num_inputs() == dev.data.num_inputs());
        assert(nd.num_outputs() == dev.data.num_outputs());
        assert forall|t: LinkTarget<u64>| v.target_ok(t) implies r.target_ok(t) by {
            match t {
                LinkTarget::DeviceInput(d2, i2) => {
                    if d2 == d {
                    }
                },
                LinkTarget::Output(_) => {},
            }
        }
        let lt = link_targets(dev.links);
        let p = |t: LinkTarget<u64>| v.target_ok(t);
        assert forall|o: int, k: int| 0 <= o < lt.len() && 0 <= k < lt[o].len() implies p(
            #[trigger] lt[o][k]) by {
            assert(lt[o][k] == dev.links[o][k].target);
        }
        crate::queue::lemma_change_writes_targets(lt, ch, p);
        let cw = change_writes(lt, ch);
        assert forall|k: int| 0 <= k < r.buffer.len() implies r.target_ok(#[trigger] r.buffer[k].0) by {
            if k < v.buffer.len() {
                assert(r.buffer[k] == v.buffer[k]);
            } else {
                assert(r.buffer[k] == cw[k - v.buffer.len()]);
                assert(p(cw[k - v.buffer.len()].0));
            }
        }
        assert forall|d2: u64| #[trigger] r.devices.contains_key(d2) implies r.devices[d2].wf() by {
            if d2 != d {
                assert(r.devices[d2] == v.devices[d2]);
            }
        }
        assert forall|d2: u64, o: int, k: int|
            #![trigger r.devices[d2].links[o][k]]
            r.devices.contains_key(d2) && 0 <= o < r.devices[d2].links.len() && 0 <= k
                < r.devices[d2].links[o].len() implies r.target_ok(r.devices[d2].links[o][k].target) by {
            assert(r.devices[d2].links == v.devices[d2].links);
            assert(v.target_ok(v.devices[d2].links[o][k].target));
        }
        assert forall|i2: u64, k: int|
            #![trigger r.inputs[i2].links[k]]
            r.inputs.contains_key(i2) && 0 <= k < r.inputs[i2].links.len() implies r.target_ok(
            r.inputs[i2].links[k].target) by {
            assert(v.target_ok(v.inputs[i2].links[k].target));
        }
        assert forall|k: int| 0 <= k < r.writes.len() implies r.target_ok(#[trigger] r.writes[k].target) by {
            assert(v.target_ok(v.writes[k].target));
        }
    }
}

/// Landing every ready write keeps the board well formed; unless stopped by
/// a missing target, no write is left ready.
pub proof fn lemma_run_ready(v: BoardView)
    requires
        v.sim_wf(),
    ensures
        v.run_ready().0.sim_wf(),
        !v.run_ready().1 ==> all_waiting(v.run_ready().0.writes),
    decreases v.writes.len(),
{
    let k = find_ready(v.writes, 0);
    crate::queue::lemma_find_ready_range(v.writes, 0);
    if 0 <= k < v.writes.len() {
        let w = v.writes[k];
        let v0 = BoardView { writes: v.writes.remove(k), ..v };
        assert(v.target_ok(w.target));
        assert forall|j: int| 0 <= j < v0.writes.len() implies v0.target_ok(#[trigger] v0.writes[j].target) by {
            if j < k {
                assert(v0.writes[j] == v.writes[j]);
            } else {
                assert(v0.writes[j] == v.writes[j + 1]);
            }
        }
        assert(v0.sim_wf());
        lemma_land(v0, w.target, w.state);
        match v0.land(w.target, w.state) {
            Some(v1) => {
                lemma_run_ready(v1);
            },
            None => {},
        }
    } else {
        crate::queue::lemma_none_ready_all_waiting(v.writes);
    }
}

/// A device tick keeps the board well formed and the queue's pending writes
/// as they were.
pub proof fn lemma_tick_chip(v: BoardView, id: u64, ds: Seq<u8>)
    requires
        v.sim_wf(),
        v.chip_draw_ok(id, ds),
    ensures
        v.tick_chip(id, ds).sim_wf(),
        v.tick_chip(id, ds).writes == v.writes,
        v.tick_chip(id, ds).devices.dom() == v.devices.dom(),
{
    if v.devices.contains_key(id) {
        let dev = v.devices[id];
        match dev.data {
            DeviceDataView::Chip(c) => {
                let r = v.tick_chip(id, ds);
                crate::chip::lemma_after_tick(c, ds);
                let c2 = after_tick(c.run_ready(), ds);
                let ch = changes_from(c.output, c2.output, 0, c.output_len);
                crate::bits::lemma_changes_in_range(c.output, c2.output, 0, c.output_len);
                assert forall|t: LinkTarget<u64>| v.target_ok(t) implies r.target_ok(t) by {}
                let lt = link_targets(dev.links);
                let p = |t: LinkTarget<u64>| v.target_ok(t);
                assert forall|o: int, k: int| 0 <= o < lt.len() && 0 <= k < lt[o].len() implies p(
                    #[trigger] lt[o][k]) by {
                    assert(lt[o][k] == dev.links[o][k].target);
                }
                crate::queue::lemma_change_writes_targets(lt, ch, p);
                let cw = change_writes(lt, ch);
                assert forall|k: int| 0 <= k < r.buffer.len() implies r.target_ok(#[trigger] r.buffer[k].0) by {
                    if k < v.buffer.len() {
                        assert(r.buffer[k] == v.buffer[k]);
                    } else {
                        assert(r.buffer[k] == cw[k - v.buffer.len()]);
                        assert(p(cw[k - v.buffer.len()].0));
                    }
                }
                assert forall|d2: u64| #[trigger] r.devices.contains_key(d2) implies r.devices[d2].wf() by {
                    if d2 != id {
                        assert(r.devices[d2] == v.devices[d2]);
                    }
                }
                assert forall|d2: u64, o: int, k: int|
                    #![trigger r.devices[d2].links[o][k]]
                    r.devices.contains_key(d2) && 0 <= o < r.devices[d2].links.len() && 0 <= k
                        < r.devices[d2].links[o].len() implies r.target_ok(r.devices[d2].links[o][k].target) by {
                    assert(r.devices[d2].links == v.devices[d2].links);
                    assert(v.target_ok(v.devices[d2].links[o][k].target));
                }
                assert forall|i2: u64, k: int|
                    #![trigger r.inputs[i2].links[k]]
                    r.inputs.contains_key(i2) && 0 <= k < r.inputs[i2].links.len() implies r.target_ok(
                    r.inputs[i2].links[k].target) by {
                    assert(v.target_ok(v.inputs[i2].links[k].target));
                }
                assert forall|k: int| 0 <= k < r.writes.len() implies r.target_ok(#[trigger] r.writes[k].target) by {
                    assert(v.target_ok(v.writes[k].target));
                }
            },
            DeviceDataView::CombGate(_) => {},
        }
    }
}

/// Devices ticking in turn keep the board well formed and the queue's
/// pending writes as they were.
pub proof fn lemma_tick_chips(v: BoardView, order: Seq<u64>, dss: Seq<Seq<u8>>)
    requires
        v.sim_wf(),
        v.chip_draws_ok(order, dss),
    ensures
        v.tick_chips(order, dss).sim_wf(),
        v.tick_chips(order, dss).writes == v.writes,
        v.tick_chips(order, dss).devices.dom() == v.devices.dom(),
    decreases order.len(),
{
    if order.len() > 0 {
        lemma_tick_chips(v, order.drop_last(), dss.drop_last());
        lemma_tick_chip(v.tick_chips(order.drop_last(), dss.drop_last()), order.last(), dss.last());
    }
}

/// Link `k` is the first link in `links` to `t`.
pub open spec fn first_link_to(links: Seq<LinkView>, t: LinkTarget<u64>, k: int) -> bool {
    &&& 0 <= k < links.len()
    &&& links[k].target == t
    &&& forall|j: int| 0 <= j < k ==> (#[trigger] links[j]).target != t
}

/// The index of the first link to `t`, if any.
fn find_link(links: &Vec<Link>, t: LinkTarget<u64>) -> (r: Option<usize>)
    ensures
        r matches Some(k) ==> first_link_to(links@.map_values(|l: Link| l@), t, k as int),
        r is None ==> forall|j: int| 0 <= j < links@.len() ==> (#[trigger] links@[j]).target != t,
{
    let ghost lv = links@.map_values(|l: Link| l@);
    let mut k: usize = 0;
    while k < links.len()
        invariant
            k <= links@.len(),
            lv == links@.map_values(|l: Link| l@),
            forall|j: int| 0 <= j < k ==> (#[trigger] links@[j]).target != t,
        decreases links@.len() - k,
    {
        if links[k].target.same(&t) {
            proof {
                assert forall|j: int| 0 <= j < k implies (#[trigger] lv[j]).target != t by {
                    assert(lv[j] == links@[j]@);
                }
            }
            return Some(k);
        }
        k = k + 1;
    }
    None
}

/// Removing a link keeps the pins, the devices and their link lists, and
/// the well-formedness of the board.
pub proof fn lemma_link_removed(v: BoardView, t: LinkTarget<u64>, m: BoardView)
    requires
        v.link_removed(t, m),
    ensures
        m.inputs.dom() == v.inputs.dom(),
        m.devices.dom() == v.devices.dom(),
        forall|i: u64| #[trigger] m.inputs.contains_key(i) ==> m.inputs[i].io == v.inputs[i].io,
        forall|d: u64|
            #[trigger] m.devices.contains_key(d) ==> m.devices[d].data == v.devices[d].data
                && m.devices[d].links.len() == v.devices[d].links.len(),
        m.buffer == v.buffer,
        m.writes == v.writes,
        v.sim_wf() ==> m.sim_wf(),
{
    if v.input_has_link_to(t) {
        let (i, k) = choose|i: u64, k: int|
            #![trigger v.inputs[i].links[k]]
            v.inputs.contains_key(i) && first_link_to(v.inputs[i].links, t, k) && m == v.remove_input_link(i, k);
        assert(m.inputs.dom() =~= v.inputs.dom());
        if v.sim_wf() {
            assert forall|a: u64, j: int|
                #![trigger m.inputs[a].links[j]]
                m.inputs.contains_key(a) && 0 <= j < m.inputs[a].links.len() implies m.target_ok(
                m.inputs[a].links[j].target) by {
                if a == i {
                    if j < k {
                        assert(m.inputs[a].links[j] == v.inputs[a].links[j]);
                    } else {
                        assert(m.inputs[a].links[j] == v.inputs[a].links[j + 1]);
                    }
                } else {
                    assert(m.inputs[a] == v.inputs[a]);
                }
            }
            assert forall|d: u64, o: int, j: int|
                #![trigger m.devices[d].links[o][j]]
                m.devices.contains_key(d) && 0 <= o < m.devices[d].links.len() && 0 <= j
                    < m.devices[d].links[o].len() implies m.target_ok(m.devices[d].links[o][j].target) by {
                assert(v.target_ok(v.devices[d].links[o][j].target));
            }
        }
    } else if v.device_has_link_to(t) {
        let (d, o, k) = choose|d: u64, o: int, k: int|
            #![trigger v.devices[d].links[o][k]]
            v.devices.contains_key(d) && 0 <= o < v.devices[d].links.len() && first_link_to(
                v.devices[d].links[o],
                t,
                k,
            ) && m == v.remove_device_link(d, o, k);
        assert(m.devices.dom() =~= v.devices.dom());
        if v.sim_wf() {
            assert forall|a: u64, o2: int, j: int|
                #![trigger m.devices[a].links[o2][j]]
                m.devices.contains_key(a) && 0 <= o2 < m.devices[a].links.len() && 0 <= j
                    < m.devices[a].links[o2].len() implies m.target_ok(m.devices[a].links[o2][j].target) by {
                if a == d && o2 == o {
                    if j < k {
                        assert(m.devices[a].links[o2][j] == v.devices[a].links[o2][j]);
                    } else {
                        assert(m.devices[a].links[o2][j] == v.devices[a].links[o2][j + 1]);
                    }
                } else if a == d {
                    assert(m.devices[a].links[o2] == v.devices[a].links[o2]);
                } else {
                    assert(m.devices[a] == v.devices[a]);
                }
            }
            assert forall|a: u64| #[trigger] m.devices.contains_key(a) implies m.devices[a].wf() by {
                assert(v.devices[a].wf());
            }
            assert forall|a: u64, j: int|
                #![trigger m.inputs[a].links[j]]
                m.inputs.contains_key(a) && 0 <= j < m.inputs[a].links.len() implies m.target_ok(
                m.inputs[a].links[j].target) by {
                assert(v.target_ok(v.inputs[a].links[j].target));
            }
            assert forall|j: int| 0 <= j < m.writes.len() implies m.target_ok(#[trigger] m.writes[j].target) by {
                assert(v.target_ok(v.writes[j].target));
            }
            assert forall|j: int| 0 <= j < m.buffer.len() implies m.target_ok(#[trigger] m.buffer[j].0) by {
                assert(v.target_ok(v.buffer[j].0));
            }
        }
    }
}

/// Buffers, for each change still to come, one write per link of the
/// changed output.
fn push_link_changes(queue: &mut WriteQueue<u64>, changes: &mut ChangedOutputs, links: &Vec<Vec<Link>>)
    requires
        old(changes).wf(),
        old(changes).bound() <= links@.len(),
    ensures
        final(queue).writes@ == old(queue).writes@,
        final(queue).buffer@ == old(queue).buffer@ + change_writes(
            link_targets(link_lists_view(links@)),
            old(changes).remaining(),
        ),
        final(changes).remaining().len() == 0,
{
    let ghost all = changes.remaining();
    let ghost lv = link_targets(link_lists_view(links@));
    let mut done = false;
    while !done
        invariant
            changes.wf(),
            changes.bound() <= links@.len(),
            lv == link_targets(link_lists_view(links@)),
            queue.writes@ == old(queue).writes@,
            all == old(changes).remaining(),
            all.len() >= changes.remaining().len(),
            changes.remaining() == all.skip(all.len() - changes.remaining().len()),
            queue.buffer@ == old(queue).buffer@ + change_writes(
                lv,
                all.take(all.len() - changes.remaining().len()),
            ),
            done ==> changes.remaining().len() == 0,
        decreases changes.remaining().len() + (if done { 0int } else { 1int }),
    {
        proof {
            changes.lemma_remaining_bound();
        }
        let ghost before = changes.remaining();
        match changes.next() {
            Some((output, state)) => {
                let ghost done_part = all.take(all.len() - before.len());
                let targets = &links[output];
                let ghost buf0 = queue.buffer@;
                let ghost tv = lv[output as int];
                assert(tv == targets@.map_values(|l: Link| l@).map_values(|l: LinkView| l.target));
                let mut i: usize = 0;
                while i < targets.len()
                    invariant
                        i <= targets@.len(),
                        tv.len() == targets@.len(),
                        forall|j: int| 0 <= j < tv.len() ==> tv[j] == (#[trigger] targets@[j]).target,
                        queue.writes@ == old(queue).writes@,
                        queue.buffer@ == buf0 + fanout(tv, state).take(i as int),
                    decreases targets@.len() - i,
                {
                    queue.push(targets[i].target, state);
                    i = i + 1;
                    assert(queue.buffer@ =~= buf0 + fanout(tv, state).take(i as int));
                }
                proof {
                    assert(fanout(tv, state).take(i as int) =~= fanout(tv, state));
                    assert(before[0] == (output, state));
                    assert(all.take(all.len() - changes.remaining().len()) =~= done_part + seq![
                        (output, state),
                    ]);
                    lemma_change_writes_append(lv, done_part, seq![(output, state)]);
                    lemma_change_writes_single(lv, (output, state));
                    assert(changes.remaining() =~= all.skip(all.len() - changes.remaining().len()));
                }
            },
            None => {
                done = true;
            },
        }
    }
    proof {
        assert(all.take(all.len() as int) =~= all);
    }
}

/// A device as its copy holds it: a chip's buffered writes are dropped.
pub open spec fn device_copied(d: DeviceView) -> DeviceView {
    DeviceView {
        data: match d.data {
            DeviceDataView::CombGate(g) => DeviceDataView::CombGate(g),
            DeviceDataView::Chip(c) => DeviceDataView::Chip(ChipView { buffer: Seq::empty(), ..c }),
        },
        ..d
    }
}

impl BoardView {
    /// The board as its copy holds it: the buffered writes of the board and
    /// of every chip are dropped.
    pub open spec fn copied(self) -> BoardView {
        BoardView {
            buffer: Seq::empty(),
            devices: self.devices.map_values(|d: DeviceView| device_copied(d)),
            ..self
        }
    }
}

impl Clone for Board {
    /// A copy of the board. Like every write queue copy, the copy keeps the
    /// pending writes, drops the buffered ones and seeds a fresh generator.
    fn clone(&self) -> (r: Self)
        ensures
            r@ == self@.copied(),
    {
        let r = Board {
            rect: self.rect,
            write_queue: self.write_queue.duplicate(),
            inputs: self.inputs.duplicate(),
            outputs: self.outputs.duplicate(),
            devices: self.devices.duplicate(),
            input_groups: self.input_groups.duplicate(),
            output_groups: self.output_groups.duplicate(),
        };
        assert(r@.buffer =~= Seq::<(LinkTarget<u64>, bool)>::empty());
        r
    }
}

impl BoardView {
    /// The pins of one column, as values.
    pub open spec fn pins(self, sel: IoSel) -> Map<u64, IoView> {
        match sel {
            IoSel::Input => self.inputs.map_values(|i: InputView| i.io),
            IoSel::Output => self.outputs,
        }
    }

    /// The pin groups of one column.
    pub open spec fn groups(self, sel: IoSel) -> Map<u64, GroupView> {
        match sel {
            IoSel::Input => self.input_groups,
            IoSel::Output => self.output_groups,
        }
    }

    /// The board with pin `id` of column `sel` replaced by `io` (an input
    /// keeps its links).
    pub open spec fn set_pin(self, sel: IoSel, id: u64, io: IoView) -> BoardView {
        match sel {
            IoSel::Input => BoardView {
                inputs: self.inputs.insert(id, InputView { io, ..self.inputs[id] }),
                ..self
            },
            IoSel::Output => BoardView { outputs: self.outputs.insert(id, io), ..self },
        }
    }

    /// The board with a new pin `io` under `id` in column `sel` (an input
    /// starts with no links).
    pub open spec fn add_pin(self, sel: IoSel, id: u64, io: IoView) -> BoardView {
        match sel {
            IoSel::Input => BoardView {
                inputs: self.inputs.insert(id, InputView { io, links: Seq::empty() }),
                ..self
            },
            IoSel::Output => BoardView { outputs: self.outputs.insert(id, io), ..self },
        }
    }

    /// The board without pin `id` of column `sel`.
    pub open spec fn remove_pin(self, sel: IoSel, id: u64) -> BoardView {
        match sel {
            IoSel::Input => BoardView { inputs: self.inputs.remove(id), ..self },
            IoSel::Output => BoardView { outputs: self.outputs.remove(id), ..self },
        }
    }

    /// The board with the pin groups of column `sel` replaced by `groups`.
    pub open spec fn set_groups(self, sel: IoSel, groups: Map<u64, GroupView>) -> BoardView {
        match sel {
            IoSel::Input => BoardView { input_groups: groups, ..self },
            IoSel::Output => BoardView { output_groups: groups, ..self },
        }
    }
}

/// The name of the `i`-th pin added to a stack whose first pin is named
/// `name`: blank when `name` is blank, else `name` followed by `i`.
pub open spec fn stacked_name(name: Seq<char>, i: nat) -> Seq<char> {
    if forall|k: int| 0 <= k < name.len() ==> crate::text::is_white_space(#[trigger] name[k]) {
        Seq::empty()
    } else {
        name + crate::text::digits(i, 10)
    }
}

/// The name of the `i`-th pin added to a stack whose first pin is named
/// `name`.
fn new_name(name: &String, i: usize) -> (r: String)
    ensures
        r@ == stacked_name(name@, i as nat),
{
    if crate::text::is_blank(name.as_str()) {
        return String::new();
    }
    let mut s = name.clone();
    let d = crate::text::to_digits(i as u64, 10);
    s.append(d.as_str());
    s
}

impl BoardView {
    /// Every pin of column `sel` that names a group is listed by that group,
    /// and every group has at least two distinct members, all existing pins
    /// that name it.
    pub open spec fn groups_wf(self, sel: IoSel) -> bool {
        let pins = self.pins(sel);
        let groups = self.groups(sel);
        &&& forall|p: u64| #[trigger] pins.contains_key(p) && pins[p].group_member is Some ==> groups.contains_key(
            pins[p].group_member->0,
        ) && groups[pins[p].group_member->0].members.contains(p)
        &&& forall|g: u64|
            #[trigger] groups.contains_key(g) ==> groups[g].members.len() >= 2
                && groups[g].members.no_duplicates() && forall|k: int|
                0 <= k < groups[g].members.len() ==> pins.contains_key(#[trigger] groups[g].members[k])
                    && pins[groups[g].members[k]].group_member == Some(g)
    }

    /// The simulation is well formed and so are both columns' groups.
    pub open spec fn wf(self) -> bool {
        &&& self.sim_wf()
        &&& self.groups_wf(IoSel::Input)
        &&& self.groups_wf(IoSel::Output)
    }

    /// The pins that move with pin `id`: its whole group, or just itself.
    pub open spec fn moving_pins(self, sel: IoSel, id: u64) -> Set<u64> {
        match self.pins(sel)[id].group_member {
            Some(g) => self.groups(sel)[g].members.to_set(),
            None => set![id],
        }
    }

    /// The board without the pins `ids` of column `sel`.
    pub open spec fn remove_pins(self, sel: IoSel, ids: Set<u64>) -> BoardView {
        match sel {
            IoSel::Input => BoardView { inputs: self.inputs.remove_keys(ids), ..self },
            IoSel::Output => BoardView { outputs: self.outputs.remove_keys(ids), ..self },
        }
    }

    /// The board after pin `id` is deleted: with its whole group and the
    /// group itself, or alone.
    pub open spec fn remove_io(self, sel: IoSel, id: u64) -> BoardView {
        match self.pins(sel)[id].group_member {
            Some(g) => self.remove_pins(sel, self.groups(sel)[g].members.to_set()).set_groups(
                sel,
                self.groups(sel).remove(g),
            ),
            None => self.remove_pin(sel, id),
        }
    }

    /// The board after pin `id` is stacked: a new pin, `spacing` below the
    /// bottom of the stack, joins the pin's group (a new group `gid` of the
    /// two when the pin had none). The new pin is `nid`, copies the pin's
    /// state and is named after the stack's first pin and its place.
    pub open spec fn stack_io(self, sel: IoSel, id: u64, spacing: i64, gid: u64, nid: u64) -> BoardView {
        let io = self.pins(sel)[id];
        match io.group_member {
            Some(g) => {
                let grp = self.groups(sel)[g];
                let first = self.pins(sel)[grp.members[0]];
                let bottom = self.pins(sel)[grp.members.last()].y_pos;
                self.set_groups(
                    sel,
                    self.groups(sel).insert(g, GroupView { members: grp.members.push(nid), ..grp }),
                ).add_pin(
                    sel,
                    nid,
                    IoView {
                        y_pos: crate::geom::sat_add_spec(bottom, spacing),
                        group_member: Some(g),
                        name: stacked_name(first.name, grp.members.len()),
                        state: io.state,
                    },
                )
            },
            None => {
                let b1 = self.set_groups(
                    sel,
                    self.groups(sel).insert(
                        gid,
                        GroupView { lsb_top: true, signed: true, hex: false, members: seq![id, nid] },
                    ),
                );
                let b2 = b1.set_pin(sel, id, IoView { group_member: Some(gid), ..io });
                b2.add_pin(
                    sel,
                    nid,
                    IoView {
                        y_pos: crate::geom::sat_add_spec(io.y_pos, spacing),
                        group_member: Some(gid),
                        name: stacked_name(io.name, 1),
                        state: io.state,
                    },
                )
            },
        }
    }

    /// The ids drawn for a stack are new: `nid` is no pin yet, and `gid`
    /// (used when the pin has no group) is no group yet.
    pub open spec fn stack_ids_fresh(self, sel: IoSel, id: u64, gid: u64, nid: u64) -> bool {
        &&& !self.pins(sel).contains_key(nid)
        &&& self.pins(sel)[id].group_member is None ==> !self.groups(sel).contains_key(gid)
    }

    /// Pin `id` of column `sel` can be unstacked without fault: it exists,
    /// and when it names a group, the group exists with a last pin that
    /// exists (and a first one that exists when only two are left).
    pub open spec fn can_unstack(self, sel: IoSel, id: u64) -> bool {
        &&& self.pins(sel).contains_key(id)
        &&& match self.pins(sel)[id].group_member {
            None => true,
            Some(g) => {
                let ms = self.groups(sel)[g].members;
                &&& self.groups(sel).contains_key(g)
                &&& ms.len() >= 1
                &&& self.pins(sel).contains_key(ms.last())
                &&& ms.len() == 2 ==> self.pins(sel).contains_key(ms[0])
            },
        }
    }

    /// The board after the last pin of pin `id`'s stack is removed; a group
    /// left with one pin dissolves.
    pub open spec fn unstack_io(self, sel: IoSel, id: u64) -> BoardView {
        match self.pins(sel)[id].group_member {
            None => self,
            Some(g) => {
                let ms = self.groups(sel)[g].members;
                let member = ms.last();
                let rest = ms.drop_last();
                if rest.len() == 1 {
                    let last = rest[0];
                    let b1 = self.set_groups(sel, self.groups(sel).remove(g));
                    let b2 = b1.set_pin(sel, id, IoView { group_member: None, ..b1.pins(sel)[id] });
                    let b3 = b2.set_pin(sel, last, IoView { group_member: None, ..b2.pins(sel)[last] });
                    b3.remove_pin(sel, member)
                } else {
                    self.set_groups(
                        sel,
                        self.groups(sel).insert(g, GroupView { members: rest, ..self.groups(sel)[g] }),
                    ).remove_pin(sel, member)
                }
            },
        }
    }

    /// Input pin `id` takes `state`, and a write of it is buffered for each
    /// of its links; nothing happens if there is no such pin.
    pub open spec fn set_input(self, id: u64, state: bool) -> BoardView {
        if self.inputs.contains_key(id) {
            let inp = self.inputs[id];
            BoardView {
                inputs: self.inputs.insert(id, InputView { io: IoView { state, ..inp.io }, ..inp }),
                buffer: self.buffer + fanout(targets_of(inp.links), state),
                ..self
            }
        } else {
            self
        }
    }

    /// The board with the pins `ids` of column `sel` moved down by `dy`.
    pub open spec fn move_pins(self, sel: IoSel, ids: Set<u64>, dy: i64) -> BoardView {
        match sel {
            IoSel::Input => BoardView {
                inputs: Map::new(
                    |k: u64| self.inputs.contains_key(k),
                    |k: u64|
                        if ids.contains(k) {
                            InputView {
                                io: IoView {
                                    y_pos: crate::geom::sat_add_spec(self.inputs[k].io.y_pos, dy),
                                    ..self.inputs[k].io
                                },
                                ..self.inputs[k]
                            }
                        } else {
                            self.inputs[k]
                        },
                ),
                ..self
            },
            IoSel::Output => BoardView {
                outputs: Map::new(
                    |k: u64| self.outputs.contains_key(k),
                    |k: u64|
                        if ids.contains(k) {
                            IoView { y_pos: crate::geom::sat_add_spec(self.outputs[k].y_pos, dy), ..self.outputs[k] }
                        } else {
                            self.outputs[k]
                        },
                ),
                ..self
            },
        }
    }
}

/// Deleting a pin (with its group) keeps the board well formed.
pub proof fn lemma_remove_io_wf(v: BoardView, sel: IoSel, id: u64)
    requires
        v.wf(),
        v.pins(sel).contains_key(id),
    ensures
        v.remove_io(sel, id).wf(),
{
    let r = v.remove_io(sel, id);
    let other = match sel {
        IoSel::Input => IoSel::Output,
        IoSel::Output => IoSel::Input,
    };
    assert(r.pins(other) == v.pins(other));
    assert(r.groups(other) == v.groups(other));
    assert(r.devices == v.devices);
    let pins = v.pins(sel);
    let groups = v.groups(sel);
    let rp = r.pins(sel);
    let rg = r.groups(sel);
    match pins[id].group_member {
        Some(g) => {
            let ms = groups[g].members;
            assert(rp =~= pins.remove_keys(ms.to_set()));
            assert(rg == groups.remove(g));
            assert forall|h: u64| #[trigger] rg.contains_key(h) implies rg[h].members.len() >= 2
                && rg[h].members.no_duplicates() && forall|k: int|
                0 <= k < rg[h].members.len() ==> rp.contains_key(#[trigger] rg[h].members[k])
                    && rp[rg[h].members[k]].group_member == Some(h) by {
                assert forall|k: int| 0 <= k < rg[h].members.len() implies rp.contains_key(
                    #[trigger] rg[h].members[k]) && rp[rg[h].members[k]].group_member == Some(h) by {
                    let m = rg[h].members[k];
                    assert(pins.contains_key(m) && pins[m].group_member == Some(h));
                    if ms.to_set().contains(m) {
                        let j = choose|j: int| 0 <= j < ms.len() && ms[j] == m;
                        assert(pins[ms[j]].group_member == Some(g));
                    }
                }
            }
            assert forall|p: u64| #[trigger] rp.contains_key(p) && rp[p].group_member is Some implies rg.contains_key(
                rp[p].group_member->0,
            ) && rg[rp[p].group_member->0].members.contains(p) by {
                assert(pins.contains_key(p));
                let h = pins[p].group_member->0;
                if h == g {
                    assert(groups[g].members.contains(p));
                    assert(ms.to_set().contains(p));
                }
            }
        },
        None => {
            assert(rp =~= pins.remove(id));
            assert(rg == groups);
            assert forall|p: u64| #[trigger] rp.contains_key(p) && rp[p].group_member is Some implies rg.contains_key(
                rp[p].group_member->0,
            ) && rg[rp[p].group_member->0].members.contains(p) by {
                assert(pins.contains_key(p));
            }
            assert forall|h: u64| #[trigger] rg.contains_key(h) implies rg[h].members.len() >= 2
                && rg[h].members.no_duplicates() && forall|k: int|
                0 <= k < rg[h].members.len() ==> rp.contains_key(#[trigger] rg[h].members[k])
                    && rp[rg[h].members[k]].group_member == Some(h) by {
                assert forall|k: int| 0 <= k < rg[h].members.len() implies rp.contains_key(
                    #[trigger] rg[h].members[k]) && rp[rg[h].members[k]].group_member == Some(h) by {
                    let m = rg[h].members[k];
                    assert(pins.contains_key(m) && pins[m].group_member == Some(h));
                }
            }
        },
    }
    assert(r.groups_wf(sel));
    assert(r.groups_wf(other));
    assert(r.sim_wf()) by {
        assert forall|i: u64, k: int|
            #![trigger r.inputs[i].links[k]]
            r.inputs.contains_key(i) && 0 <= k < r.inputs[i].links.len() implies r.target_ok(
            r.inputs[i].links[k].target) by {
            assert(v.inputs.contains_key(i));
            assert(r.inputs[i] == v.inputs[i]);
            assert(v.target_ok(v.inputs[i].links[k].target));
        }
    }
}

/// The other column.
pub open spec fn other_sel(sel: IoSel) -> IoSel {
    match sel {
        IoSel::Input => IoSel::Output,
        IoSel::Output => IoSel::Input,
    }
}

/// How the column views change under the pin and group edits.
proof fn lemma_pin_edits(v: BoardView, sel: IoSel, k: u64, io: IoView, gs: Map<u64, GroupView>)
    ensures
        v.add_pin(sel, k, io).pins(sel) == v.pins(sel).insert(k, io),
        v.add_pin(sel, k, io).groups(sel) == v.groups(sel),
        v.add_pin(sel, k, io).pins(other_sel(sel)) == v.pins(other_sel(sel)),
        v.add_pin(sel, k, io).groups(other_sel(sel)) == v.groups(other_sel(sel)),
        v.add_pin(sel, k, io).devices == v.devices,
        v.pins(sel).contains_key(k) ==> v.set_pin(sel, k, io).pins(sel) == v.pins(sel).insert(k, io),
        v.set_pin(sel, k, io).groups(sel) == v.groups(sel),
        v.set_pin(sel, k, io).pins(other_sel(sel)) == v.pins(other_sel(sel)),
        v.set_pin(sel, k, io).groups(other_sel(sel)) == v.groups(other_sel(sel)),
        v.set_pin(sel, k, io).devices == v.devices,
        v.remove_pin(sel, k).pins(sel) == v.pins(sel).remove(k),
        v.remove_pin(sel, k).groups(sel) == v.groups(sel),
        v.remove_pin(sel, k).pins(other_sel(sel)) == v.pins(other_sel(sel)),
        v.remove_pin(sel, k).groups(other_sel(sel)) == v.groups(other_sel(sel)),
        v.remove_pin(sel, k).devices == v.devices,
        v.set_groups(sel, gs).pins(sel) == v.pins(sel),
        v.set_groups(sel, gs).groups(sel) == gs,
        v.set_groups(sel, gs).pins(other_sel(sel)) == v.pins(other_sel(sel)),
        v.set_groups(sel, gs).groups(other_sel(sel)) == v.groups(other_sel(sel)),
        v.set_groups(sel, gs).devices == v.devices,
{
    match sel {
        IoSel::Input => {
            assert(v.add_pin(sel, k, io).pins(sel) =~= v.pins(sel).insert(k, io));
            if v.pins(sel).contains_key(k) {
                assert(v.set_pin(sel, k, io).pins(sel) =~= v.pins(sel).insert(k, io));
            }
            assert(v.remove_pin(sel, k).pins(sel) =~= v.pins(sel).remove(k));
        },
        IoSel::Output => {},
    }
}

/// Edits to pins keep the simulation part well formed when the inputs
/// edited keep their links (or a new input has none).
proof fn lemma_sim_wf_inputs(v: BoardView, r: BoardView)
    requires
        v.sim_wf(),
        r.devices == v.devices,
        r.writes == v.writes,
        r.buffer == v.buffer,
        forall|i: u64| #[trigger] r.inputs.contains_key(i) ==> r.inputs[i].links.len() == 0 || (
        v.inputs.contains_key(i) && r.inputs[i].links == v.inputs[i].links),
    ensures
        r.sim_wf(),
{
    assert forall|i: u64, k: int|
        #![trigger r.inputs[i].links[k]]
        r.inputs.contains_key(i) && 0 <= k < r.inputs[i].links.len() implies r.target_ok(
        r.inputs[i].links[k].target) by {
        assert(v.target_ok(v.inputs[i].links[k].target));
    }
    assert forall|d: u64, o: int, k: int|
        #![trigger r.devices[d].links[o][k]]
        r.devices.contains_key(d) && 0 <= o < r.devices[d].links.len() && 0 <= k
            < r.devices[d].links[o].len() implies r.target_ok(r.devices[d].links[o][k].target) by {
        assert(v.target_ok(v.devices[d].links[o][k].target));
    }
    assert forall|k: int| 0 <= k < r.writes.len() implies r.target_ok(#[trigger] r.writes[k].target) by {
        assert(v.target_ok(v.writes[k].target));
    }
    assert forall|k: int| 0 <= k < r.buffer.len() implies r.target_ok(#[trigger] r.buffer[k].0) by {
        assert(v.target_ok(v.buffer[k].0));
    }
}

/// Setting an input pin keeps the board well formed, with the same pins
/// and groups.
pub proof fn lemma_set_input_wf(v: BoardView, id: u64, state: bool)
    requires
        v.wf(),
    ensures
        v.set_input(id, state).wf(),
        v.set_input(id, state).inputs.dom() == v.inputs.dom(),
        v.set_input(id, state).outputs == v.outputs,
        v.set_input(id, state).input_groups == v.input_groups,
        v.set_input(id, state).output_groups == v.output_groups,
        v.set_input(id, state).devices == v.devices,
{
    let r = v.set_input(id, state);
    if v.inputs.contains_key(id) {
        let inp = v.inputs[id];
        assert(r.inputs.dom() =~= v.inputs.dom());
        let pv = v.pins(IoSel::Input);
        let pr = r.pins(IoSel::Input);
        assert(pr.dom() =~= pv.dom());
        assert forall|p: u64| #[trigger] pr.contains_key(p) implies pr[p].group_member == pv[p].group_member by {}
        let gs = v.input_groups;
        assert forall|p: u64| #[trigger] pr.contains_key(p) && pr[p].group_member is Some implies gs.contains_key(
            pr[p].group_member->0,
        ) && gs[pr[p].group_member->0].members.contains(p) by {
            assert(pv.contains_key(p));
        }
        assert forall|g: u64| #[trigger] gs.contains_key(g) implies gs[g].members.len() >= 2
            && gs[g].members.no_duplicates() && forall|k: int|
            0 <= k < gs[g].members.len() ==> pr.contains_key(#[trigger] gs[g].members[k])
                && pr[gs[g].members[k]].group_member == Some(g) by {
            assert forall|k: int| 0 <= k < gs[g].members.len() implies pr.contains_key(
                #[trigger] gs[g].members[k],
            ) && pr[gs[g].members[k]].group_member == Some(g) by {
                assert(pv.contains_key(gs[g].members[k]));
            }
        }
        assert(r.groups_wf(IoSel::Input));
        assert(r.pins(IoSel::Output) == v.pins(IoSel::Output));
        let f = fanout(targets_of(inp.links), state);
        assert forall|k: int| 0 <= k < r.buffer.len() implies r.target_ok(#[trigger] r.buffer[k].0) by {
            if k < v.buffer.len() {
                assert(r.buffer[k] == v.buffer[k]);
            } else {
                assert(r.buffer[k] == f[k - v.buffer.len()]);
                assert(v.target_ok(v.inputs[id].links[k - v.buffer.len()].target));
            }
        }
        assert forall|i: u64, k: int|
            #![trigger r.inputs[i].links[k]]
            r.inputs.contains_key(i) && 0 <= k < r.inputs[i].links.len() implies r.target_ok(
            r.inputs[i].links[k].target) by {
            assert(v.target_ok(v.inputs[i].links[k].target));
        }
        assert forall|d: u64, o: int, k: int|
            #![trigger r.devices[d].links[o][k]]
            r.devices.contains_key(d) && 0 <= o < r.devices[d].links.len() && 0 <= k
                < r.devices[d].links[o].len() implies r.target_ok(r.devices[d].links[o][k].target) by {
            assert(v.target_ok(v.devices[d].links[o][k].target));
        }
        assert forall|k: int| 0 <= k < r.writes.len() implies r.target_ok(#[trigger] r.writes[k].target) by {
            assert(v.target_ok(v.writes[k].target));
        }
    }
}

/// Deleting a device keeps the board well formed, with the same pins and
/// groups and every other device.
pub proof fn lemma_remove_device_wf(v: BoardView, id: u64)
    requires
        v.wf(),
        v.devices.contains_key(id),
    ensures
        v.remove_device(id).wf(),
        v.remove_device(id).devices == v.devices.remove(id),
        v.remove_device(id).inputs == v.inputs,
        v.remove_device(id).outputs == v.outputs,
        v.remove_device(id).input_groups == v.input_groups,
        v.remove_device(id).output_groups == v.output_groups,
{
    let r = v.remove_device(id);
    let dev = v.devices[id];
    assert(dev.wf());
    assert(dev.data.num_outputs() <= 64) by {
        match dev.data {
            DeviceDataView::CombGate(g) => {},
            DeviceDataView::Chip(c) => {},
        }
    }
    let ch = changes_from(dev.data.output(), 0, 0, dev.data.num_outputs());
    crate::bits::lemma_changes_in_range(dev.data.output(), 0, 0, dev.data.num_outputs());
    assert forall|t: LinkTarget<u64>| v.target_ok(t) implies r.target_ok(t) by {}
    let lt = link_targets(dev.links);
    let p = |t: LinkTarget<u64>| v.target_ok(t);
    assert forall|o: int, k: int| 0 <= o < lt.len() && 0 <= k < lt[o].len() implies p(#[trigger] lt[o][k]) by {
        assert(lt[o][k] == dev.links[o][k].target);
    }
    crate::queue::lemma_change_writes_targets(lt, ch, p);
    let cw = change_writes(lt, ch);
    assert forall|k: int| 0 <= k < r.buffer.len() implies r.target_ok(#[trigger] r.buffer[k].0) by {
        if k < v.buffer.len() {
            assert(r.buffer[k] == v.buffer[k]);
        } else {
            assert(r.buffer[k] == cw[k - v.buffer.len()]);
            assert(p(cw[k - v.buffer.len()].0));
        }
    }
    assert forall|d2: u64| #[trigger] r.devices.contains_key(d2) implies r.devices[d2].wf() by {}
    assert forall|d2: u64, o: int, k: int|
        #![trigger r.devices[d2].links[o][k]]
        r.devices.contains_key(d2) && 0 <= o < r.devices[d2].links.len() && 0 <= k
            < r.devices[d2].links[o].len() implies r.target_ok(r.devices[d2].links[o][k].target) by {
        assert(v.target_ok(v.devices[d2].links[o][k].target));
    }
    assert forall|i2: u64, k: int|
        #![trigger r.inputs[i2].links[k]]
        r.inputs.contains_key(i2) && 0 <= k < r.inputs[i2].links.len() implies r.target_ok(
        r.inputs[i2].links[k].target) by {
        assert(v.target_ok(v.inputs[i2].links[k].target));
    }
    assert forall|k: int| 0 <= k < r.writes.len() implies r.target_ok(#[trigger] r.writes[k].target) by {
        assert(v.target_ok(v.writes[k].target));
    }
    assert(r.pins(IoSel::Input) == v.pins(IoSel::Input));
    assert(r.pins(IoSel::Output) == v.pins(IoSel::Output));
}

/// The groups of one column are well formed when the pins and groups of
/// the column are.
pub open spec fn column_wf(pins: Map<u64, IoView>, groups: Map<u64, GroupView>) -> bool {
    &&& forall|p: u64| #[trigger] pins.contains_key(p) && pins[p].group_member is Some ==> groups.contains_key(
        pins[p].group_member->0,
    ) && groups[pins[p].group_member->0].members.contains(p)
    &&& forall|g: u64|
        #[trigger] groups.contains_key(g) ==> groups[g].members.len() >= 2
            && groups[g].members.no_duplicates() && forall|k: int|
            0 <= k < groups[g].members.len() ==> pins.contains_key(#[trigger] groups[g].members[k])
                && pins[groups[g].members[k]].group_member == Some(g)
}

/// Stacking a pin with fresh ids keeps the board well formed.
pub proof fn lemma_stack_io_wf(v: BoardView, sel: IoSel, id: u64, spacing: i64, gid: u64, nid: u64)
    requires
        v.wf(),
        v.pins(sel).contains_key(id),
        v.stack_ids_fresh(sel, id, gid, nid),
    ensures
        v.stack_io(sel, id, spacing, gid, nid).wf(),
{
    let r = v.stack_io(sel, id, spacing, gid, nid);
    let pins = v.pins(sel);
    let groups = v.groups(sel);
    let io = pins[id];
    assert(column_wf(pins, groups));
    match io.group_member {
        Some(g) => {
            let grp = groups[g];
            let newio = IoView {
                y_pos: crate::geom::sat_add_spec(pins[grp.members.last()].y_pos, spacing),
                group_member: Some(g),
                name: stacked_name(pins[grp.members[0]].name, grp.members.len()),
                state: io.state,
            };
            let gs = groups.insert(g, GroupView { members: grp.members.push(nid), ..grp });
            let b1 = v.set_groups(sel, gs);
            lemma_pin_edits(v, sel, nid, newio, gs);
            lemma_pin_edits(b1, sel, nid, newio, gs);
            let rp = pins.insert(nid, newio);
            assert(r.pins(sel) == rp);
            assert(r.groups(sel) == gs);
            assert(!grp.members.contains(nid)) by {
                if grp.members.contains(nid) {
                    let k = choose|k: int| 0 <= k < grp.members.len() && grp.members[k] == nid;
                    assert(pins.contains_key(grp.members[k]));
                }
            }
            assert forall|p: u64| #[trigger] rp.contains_key(p) && rp[p].group_member is Some implies gs.contains_key(
                rp[p].group_member->0,
            ) && gs[rp[p].group_member->0].members.contains(p) by {
                if p == nid {
                    assert(gs[g].members[grp.members.len() as int] == nid);
                } else {
                    assert(pins.contains_key(p));
                    let h = pins[p].group_member->0;
                    assert(groups[h].members.contains(p));
                    if h == g {
                        let k = choose|k: int| 0 <= k < grp.members.len() && grp.members[k] == p;
                        assert(gs[g].members[k] == p);
                    }
                }
            }
            assert forall|h: u64| #[trigger] gs.contains_key(h) implies gs[h].members.len() >= 2
                && gs[h].members.no_duplicates() && forall|k: int|
                0 <= k < gs[h].members.len() ==> rp.contains_key(#[trigger] gs[h].members[k])
                    && rp[gs[h].members[k]].group_member == Some(h) by {
                if h == g {
                    assert forall|k: int| 0 <= k < gs[h].members.len() implies rp.contains_key(
                        #[trigger] gs[h].members[k]) && rp[gs[h].members[k]].group_member == Some(h) by {
                        if k < grp.members.len() {
                            assert(gs[h].members[k] == grp.members[k]);
                            assert(pins.contains_key(grp.members[k]));
                        }
                    }
                } else {
                    assert forall|k: int| 0 <= k < gs[h].members.len() implies rp.contains_key(
                        #[trigger] gs[h].members[k]) && rp[gs[h].members[k]].group_member == Some(h) by {
                        assert(pins.contains_key(groups[h].members[k]));
                    }
                }
            }
            assert(column_wf(rp, gs));
            lemma_sim_wf_inputs(v, r);
        },
        None => {
            let gs = groups.insert(gid, GroupView { lsb_top: true, signed: true, hex: false, members: seq![id, nid] });
            let idio = IoView { group_member: Some(gid), ..io };
            let newio = IoView {
                y_pos: crate::geom::sat_add_spec(io.y_pos, spacing),
                group_member: Some(gid),
                name: stacked_name(io.name, 1),
                state: io.state,
            };
            let b1 = v.set_groups(sel, gs);
            let b2 = b1.set_pin(sel, id, idio);
            lemma_pin_edits(v, sel, id, idio, gs);
            lemma_pin_edits(b1, sel, id, idio, gs);
            lemma_pin_edits(b2, sel, nid, newio, gs);
            let rp = pins.insert(id, idio).insert(nid, newio);
            assert(r.pins(sel) == rp);
            assert(r.groups(sel) == gs);
            assert forall|h: u64| #[trigger] groups.contains_key(h) implies !groups[h].members.contains(id)
                && !groups[h].members.contains(nid) by {
                if groups[h].members.contains(id) {
                    let k = choose|k: int| 0 <= k < groups[h].members.len() && groups[h].members[k] == id;
                    assert(pins[groups[h].members[k]].group_member == Some(h));
                }
                if groups[h].members.contains(nid) {
                    let k = choose|k: int| 0 <= k < groups[h].members.len() && groups[h].members[k] == nid;
                    assert(pins.contains_key(groups[h].members[k]));
                }
            }
            assert forall|p: u64| #[trigger] rp.contains_key(p) && rp[p].group_member is Some implies gs.contains_key(
                rp[p].group_member->0,
            ) && gs[rp[p].group_member->0].members.contains(p) by {
                if p == nid {
                    assert(gs[gid].members[1] == nid);
                } else if p == id {
                    assert(gs[gid].members[0] == id);
                } else {
                    assert(pins.contains_key(p));
                    let h = pins[p].group_member->0;
                    assert(groups[h].members.contains(p));
                }
            }
            assert forall|h: u64| #[trigger] gs.contains_key(h) implies gs[h].members.len() >= 2
                && gs[h].members.no_duplicates() && forall|k: int|
                0 <= k < gs[h].members.len() ==> rp.contains_key(#[trigger] gs[h].members[k])
                    && rp[gs[h].members[k]].group_member == Some(h) by {
                if h != gid {
                    assert forall|k: int| 0 <= k < gs[h].members.len() implies rp.contains_key(
                        #[trigger] gs[h].members[k]) && rp[gs[h].members[k]].group_member == Some(h) by {
                        let m = groups[h].members[k];
                        assert(pins.contains_key(m));
                        assert(groups[h].members.contains(m));
                    }
                }
            }
            assert(column_wf(rp, gs));
            lemma_sim_wf_inputs(v, r);
        },
    }
    assert(r.groups_wf(sel));
    assert(r.groups_wf(other_sel(sel)));
}

/// A pin of a column whose groups are well formed can be unstacked.
pub proof fn lemma_can_unstack(v: BoardView, sel: IoSel, id: u64)
    requires
        v.groups_wf(sel),
        v.pins(sel).contains_key(id),
    ensures
        v.can_unstack(sel, id),
{
    match v.pins(sel)[id].group_member {
        Some(g) => {
            let ms = v.groups(sel)[g].members;
            assert(v.pins(sel).contains_key(ms[ms.len() - 1]));
            assert(v.pins(sel).contains_key(ms[0]));
        },
        None => {},
    }
}

/// Right after a pin is stacked, whatever the drawn ids, it can be
/// unstacked.
pub proof fn lemma_stacked_can_unstack(v: BoardView, sel: IoSel, id: u64, spacing: i64, gid: u64, nid: u64)
    requires
        v.groups_wf(sel),
        v.pins(sel).contains_key(id),
    ensures
        v.stack_io(sel, id, spacing, gid, nid).can_unstack(sel, id),
{
    let s = v.stack_io(sel, id, spacing, gid, nid);
    let io = v.pins(sel)[id];
    match io.group_member {
        Some(g) => {
            let grp = v.groups(sel)[g];
            assert(grp.members.len() >= 2);
            let gs = v.groups(sel).insert(g, GroupView { members: grp.members.push(nid), ..grp });
            let b1 = v.set_groups(sel, gs);
            let nio = IoView {
                y_pos: crate::geom::sat_add_spec(v.pins(sel)[grp.members.last()].y_pos, spacing),
                group_member: Some(g),
                name: stacked_name(v.pins(sel)[grp.members[0]].name, grp.members.len()),
                state: io.state,
            };
            lemma_pin_edits(v, sel, nid, nio, gs);
            lemma_pin_edits(b1, sel, nid, nio, gs);
            assert(s == b1.add_pin(sel, nid, nio));
            assert(s.pins(sel) == v.pins(sel).insert(nid, nio));
            assert(s.groups(sel) == gs);
            assert(s.pins(sel)[id].group_member == Some(g));
            assert(s.groups(sel)[g].members == grp.members.push(nid));
        },
        None => {
            let gs = v.groups(sel).insert(gid, GroupView { lsb_top: true, signed: true, hex: false, members: seq![id, nid] });
            let b1 = v.set_groups(sel, gs);
            let io2 = IoView { group_member: Some(gid), ..io };
            let b2 = b1.set_pin(sel, id, io2);
            let nio = IoView {
                y_pos: crate::geom::sat_add_spec(io.y_pos, spacing),
                group_member: Some(gid),
                name: stacked_name(io.name, 1),
                state: io.state,
            };
            lemma_pin_edits(v, sel, id, io2, gs);
            lemma_pin_edits(b1, sel, id, io2, gs);
            lemma_pin_edits(b2, sel, nid, nio, gs);
            assert(s == b2.add_pin(sel, nid, nio));
            assert(s.pins(sel) == v.pins(sel).insert(id, io2).insert(nid, nio));
            assert(s.groups(sel) == gs);
            assert(s.pins(sel)[id].group_member == Some(gid));
            assert(s.groups(sel)[gid].members == seq![id, nid]);
        },
    }
}

/// Stacking a pin and then unstacking it gives the board back, when the
/// ids drawn for the stack are new.
pub proof fn lemma_stack_unstack(v: BoardView, sel: IoSel, id: u64, spacing: i64, gid: u64, nid: u64)
    requires
        v.groups_wf(sel),
        v.pins(sel).contains_key(id),
        v.stack_ids_fresh(sel, id, gid, nid),
    ensures
        v.stack_io(sel, id, spacing, gid, nid).unstack_io(sel, id) == v,
{
    let s = v.stack_io(sel, id, spacing, gid, nid);
    let r = s.unstack_io(sel, id);
    let io = v.pins(sel)[id];
    assert(nid != id);
    match io.group_member {
        Some(g) => {
            let grp = v.groups(sel)[g];
            assert(grp.members.len() >= 2);
            let b1 = v.set_groups(sel, v.groups(sel).insert(g, GroupView { members: grp.members.push(nid), ..grp }));
            let nio = IoView {
                y_pos: crate::geom::sat_add_spec(v.pins(sel)[grp.members.last()].y_pos, spacing),
                group_member: Some(g),
                name: stacked_name(v.pins(sel)[grp.members[0]].name, grp.members.len()),
                state: io.state,
            };
            lemma_pin_edits(v, sel, nid, nio, v.groups(sel).insert(g, GroupView { members: grp.members.push(nid), ..grp }));
            lemma_pin_edits(b1, sel, nid, nio, v.groups(sel));
            assert(s == b1.add_pin(sel, nid, nio));
            assert(s.pins(sel)[id] == io);
            assert(s.groups(sel)[g].members == grp.members.push(nid));
            assert(grp.members.push(nid).drop_last() =~= grp.members);
            let gs2 = s.groups(sel).insert(g, GroupView { members: grp.members, ..s.groups(sel)[g] });
            assert(gs2 =~= v.groups(sel));
            match sel {
                IoSel::Input => {
                    assert(r.inputs =~= v.inputs);
                    assert(r.input_groups =~= v.input_groups);
                },
                IoSel::Output => {
                    assert(r.outputs =~= v.outputs);
                    assert(r.output_groups =~= v.output_groups);
                },
            }
        },
        None => {
            assert(!v.groups(sel).contains_key(gid));
            match sel {
                IoSel::Input => {
                    assert(r.inputs =~= v.inputs);
                    assert(r.input_groups =~= v.input_groups);
                },
                IoSel::Output => {
                    assert(r.outputs =~= v.outputs);
                    assert(r.output_groups =~= v.output_groups);
                },
            }
        },
    }
}

/// Unstacking a pin keeps the board well formed.
pub proof fn lemma_unstack_io_wf(v: BoardView, sel: IoSel, id: u64)
    requires
        v.wf(),
        v.pins(sel).contains_key(id),
    ensures
        v.unstack_io(sel, id).wf(),
{
    let r = v.unstack_io(sel, id);
    let pins = v.pins(sel);
    let groups = v.groups(sel);
    assert(column_wf(pins, groups));
    match pins[id].group_member {
        None => {},
        Some(g) => {
            let ms = groups[g].members;
            let member = ms.last();
            let rest = ms.drop_last();
            assert(pins.contains_key(member));
            if rest.len() == 1 {
                let last = rest[0];
                let gs = groups.remove(g);
                let b1 = v.set_groups(sel, gs);
                let io1 = IoView { group_member: None, ..b1.pins(sel)[id] };
                let b2 = b1.set_pin(sel, id, io1);
                let io2 = IoView { group_member: None, ..b2.pins(sel)[last] };
                let b3 = b2.set_pin(sel, last, io2);
                lemma_pin_edits(v, sel, id, io1, gs);
                lemma_pin_edits(b1, sel, id, io1, gs);
                assert(pins.contains_key(last));
                lemma_pin_edits(b2, sel, last, io2, gs);
                lemma_pin_edits(b3, sel, member, io2, gs);
                let rp = pins.insert(id, io1).insert(last, io2).remove(member);
                assert(r.pins(sel) == rp);
                assert(r.groups(sel) == gs);
                assert(ms.len() == 2);
                assert(ms[0] == last && ms[1] == member);
                assert(groups[g].members.contains(id));
                assert(id == last || id == member);
                assert forall|p: u64| #[trigger] rp.contains_key(p) && rp[p].group_member is Some implies gs.contains_key(
                    rp[p].group_member->0,
                ) && gs[rp[p].group_member->0].members.contains(p) by {
                    assert(pins.contains_key(p));
                    let h = pins[p].group_member->0;
                    assert(groups[h].members.contains(p));
                    if h == g {
                        let k = choose|k: int| 0 <= k < ms.len() && ms[k] == p;
                    }
                }
                assert forall|h: u64| #[trigger] gs.contains_key(h) implies gs[h].members.len() >= 2
                    && gs[h].members.no_duplicates() && forall|k: int|
                    0 <= k < gs[h].members.len() ==> rp.contains_key(#[trigger] gs[h].members[k])
                        && rp[gs[h].members[k]].group_member == Some(h) by {
                    assert forall|k: int| 0 <= k < gs[h].members.len() implies rp.contains_key(
                        #[trigger] gs[h].members[k]) && rp[gs[h].members[k]].group_member == Some(h) by {
                        let m = groups[h].members[k];
                        assert(pins.contains_key(m));
                        assert(pins[m].group_member == Some(h));
                    }
                }
                assert(column_wf(rp, gs));
                lemma_sim_wf_inputs(v, r);
            } else {
                let gs = groups.insert(g, GroupView { members: rest, ..groups[g] });
                let b1 = v.set_groups(sel, gs);
                lemma_pin_edits(v, sel, member, pins[member], gs);
                lemma_pin_edits(b1, sel, member, pins[member], gs);
                let rp = pins.remove(member);
                assert(r.pins(sel) == rp);
                assert(r.groups(sel) == gs);
                assert forall|p: u64| #[trigger] rp.contains_key(p) && rp[p].group_member is Some implies gs.contains_key(
                    rp[p].group_member->0,
                ) && gs[rp[p].group_member->0].members.contains(p) by {
                    assert(pins.contains_key(p));
                    let h = pins[p].group_member->0;
                    assert(groups[h].members.contains(p));
                    if h == g {
                        let k = choose|k: int| 0 <= k < ms.len() && ms[k] == p;
                        assert(k != ms.len() - 1);
                        assert(rest[k] == p);
                    }
                }
                assert forall|h: u64| #[trigger] gs.contains_key(h) implies gs[h].members.len() >= 2
                    && gs[h].members.no_duplicates() && forall|k: int|
                    0 <= k < gs[h].members.len() ==> rp.contains_key(#[trigger] gs[h].members[k])
                        && rp[gs[h].members[k]].group_member == Some(h) by {
                    if h == g {
                        assert forall|k: int| 0 <= k < gs[h].members.len() implies rp.contains_key(
                            #[trigger] gs[h].members[k]) && rp[gs[h].members[k]].group_member == Some(h) by {
                            assert(rest[k] == ms[k]);
                            assert(pins.contains_key(ms[k]));
                            assert(ms[k] != ms[ms.len() - 1]);
                        }
                    } else {
                        assert forall|k: int| 0 <= k < gs[h].members.len() implies rp.contains_key(
                            #[trigger] gs[h].members[k]) && rp[gs[h].members[k]].group_member == Some(h) by {
                            let m = groups[h].members[k];
                            assert(pins.contains_key(m));
                            assert(pins[m].group_member == Some(h));
                        }
                    }
                }
                assert(column_wf(rp, gs));
                lemma_sim_wf_inputs(v, r);
            }
        },
    }
    assert(r.groups_wf(sel));
    assert(r.groups_wf(other_sel(sel)));
}

impl Board {
    /// Pin `id` of column `sel`, if it exists.
    pub fn get_io(&self, sel: IoSel, id: u64) -> (r: Option<&Io>)
        ensures
            r is Some <==> self@.pins(sel).contains_key(id),
            r matches Some(io) ==> io@ == self@.pins(sel)[id],
    {
        match sel {
            IoSel::Input => match self.inputs.get(id) {
                Some(i) => Some(&i.io),
                None => None,
            },
            IoSel::Output => match self.outputs.get(id) {
                Some(o) => Some(&o.io),
                None => None,
            },
        }
    }

    /// Pin `id` of column `sel`, if it exists, to change in place.
    pub fn mut_io(&mut self, sel: IoSel, id: u64) -> (r: Option<&mut Io>)
        ensures
            r is Some <==> old(self)@.pins(sel).contains_key(id),
            r matches Some(io) ==> (*io)@ == old(self)@.pins(sel)[id] && final(self)@ == old(
                self,
            )@.set_pin(sel, id, (*final(io))@),
            r is None ==> final(self)@ == old(self)@,
    {
        match sel {
            IoSel::Input => match self.inputs.get_mut(id) {
                Some(i) => Some(&mut i.io),
                None => None,
            },
            IoSel::Output => match self.outputs.get_mut(id) {
                Some(o) => Some(&mut o.io),
                None => None,
            },
        }
    }

    /// Adds `io` under `id` to column `sel` (replacing any pin there); an
    /// input starts with no links.
    pub fn add_io(&mut self, sel: IoSel, id: u64, io: Io)
        ensures
            final(self)@ == old(self)@.add_pin(sel, id, io@),
    {
        match sel {
            IoSel::Input => {
                self.inputs.insert(id, Input::new(io));
            },
            IoSel::Output => {
                self.outputs.insert(id, Output::new(io));
            },
        }
    }

    /// Removes pin `id` of column `sel`, leaving its group as it is.
    pub fn remove_io_alone(&mut self, sel: IoSel, id: u64)
        requires
            old(self)@.pins(sel).contains_key(id),
        ensures
            final(self)@ == old(self)@.remove_pin(sel, id),
    {
        match sel {
            IoSel::Input => {
                self.inputs.remove(id);
            },
            IoSel::Output => {
                self.outputs.remove(id);
            },
        }
    }

    /// Group `id` of column `sel`, if it exists.
    pub fn get_io_group(&self, sel: IoSel, id: u64) -> (r: Option<&Group>)
        ensures
            r is Some <==> self@.groups(sel).contains_key(id),
            r matches Some(g) ==> g@ == self@.groups(sel)[id],
    {
        match sel {
            IoSel::Input => self.input_groups.get(id),
            IoSel::Output => self.output_groups.get(id),
        }
    }

    /// Group `id` of column `sel`, if it exists, to change in place.
    pub fn mut_io_group(&mut self, sel: IoSel, id: u64) -> (r: Option<&mut Group>)
        ensures
            r is Some <==> old(self)@.groups(sel).contains_key(id),
            r matches Some(g) ==> (*g)@ == old(self)@.groups(sel)[id] && final(self)@ == old(
                self,
            )@.set_groups(sel, old(self)@.groups(sel).insert(id, (*final(g))@)),
            r is None ==> final(self)@ == old(self)@,
    {
        match sel {
            IoSel::Input => self.input_groups.get_mut(id),
            IoSel::Output => self.output_groups.get_mut(id),
        }
    }

    /// Stores `group` under `id` in column `sel`.
    pub fn insert_io_group(&mut self, sel: IoSel, id: u64, group: Group)
        ensures
            final(self)@ == old(self)@.set_groups(sel, old(self)@.groups(sel).insert(id, group@)),
    {
        match sel {
            IoSel::Input => {
                self.input_groups.insert(id, group);
            },
            IoSel::Output => {
                self.output_groups.insert(id, group);
            },
        };
    }

    /// Moves pin `id` of column `sel` (with its whole group) down by `drag.y`.
    pub fn drag_io(&mut self, sel: IoSel, id: u64, drag: Point)
        requires
            old(self)@.groups_wf(sel),
            old(self)@.pins(sel).contains_key(id),
        ensures
            final(self)@ == old(self)@.move_pins(sel, old(self)@.moving_pins(sel, id), drag.y),
    {
        let group_member = self.get_io(sel, id).unwrap().group_member;
        match group_member {
            Some(group_id) => {
                let members = copy_vec(&self.get_io_group(sel, group_id).unwrap().members);
                let ghost ms = members@;
                assert(ms.no_duplicates());
                proof {
                    assert(ms.take(0).to_set() =~= Set::<u64>::empty());
                    let goal = old(self)@.move_pins(sel, Set::<u64>::empty(), drag.y);
                    match sel {
                        IoSel::Input => {
                            assert(goal.inputs =~= old(self)@.inputs);
                        },
                        IoSel::Output => {
                            assert(goal.outputs =~= old(self)@.outputs);
                        },
                    }
                }
                let mut k: usize = 0;
                while k < members.len()
                    invariant
                        k <= ms.len(),
                        ms == members@,
                        ms.no_duplicates(),
                        forall|j: int| 0 <= j < ms.len() ==> old(self)@.pins(sel).contains_key(#[trigger] ms[j]),
                        self@ == old(self)@.move_pins(sel, ms.take(k as int).to_set(), drag.y),
                    decreases ms.len() - k,
                {
                    let m = members[k];
                    let ghost before = self@;
                    assert(old(self)@.pins(sel).contains_key(ms[k as int]));
                    let io = self.mut_io(sel, m).unwrap();
                    io.y_pos = crate::geom::sat_add(io.y_pos, drag.y);
                    proof {
                        assert(!ms.take(k as int).to_set().contains(m)) by {
                            if ms.take(k as int).contains(m) {
                                let j = choose|j: int| 0 <= j < k && ms.take(k as int)[j] == m;
                                assert(ms[j] == ms[k as int]);
                            }
                        }
                        assert forall|x: u64| ms.take(k + 1).to_set().contains(x) == ms.take(
                            k as int,
                        ).to_set().insert(m).contains(x) by {
                            if ms.take(k + 1).contains(x) {
                                let j = choose|j: int| 0 <= j < k + 1 && #[trigger] ms.take(k + 1)[j] == x;
                                if j < k {
                                    assert(ms.take(k as int)[j] == x);
                                }
                            }
                            if ms.take(k as int).contains(x) {
                                let j = choose|j: int| 0 <= j < k && #[trigger] ms.take(k as int)[j] == x;
                                assert(ms.take(k + 1)[j] == x);
                            }
                            if x == m {
                                assert(ms.take(k + 1)[k as int] == m);
                            }
                        }
                        assert(ms.take(k + 1).to_set() =~= ms.take(k as int).to_set().insert(m));
                        let goal = old(self)@.move_pins(sel, ms.take(k + 1).to_set(), drag.y);
                        match sel {
                            IoSel::Input => {
                                assert(self@.inputs =~= goal.inputs);
                            },
                            IoSel::Output => {
                                assert(self@.outputs =~= goal.outputs);
                            },
                        }
                    }
                    k = k + 1;
                }
                proof {
                    assert(ms.take(k as int) =~= ms);
                }
            },
            None => {
                let io = self.mut_io(sel, id).unwrap();
                io.y_pos = crate::geom::sat_add(io.y_pos, drag.y);
                proof {
                    let goal = old(self)@.move_pins(sel, set![id], drag.y);
                    match sel {
                        IoSel::Input => {
                            assert(self@.inputs =~= goal.inputs);
                        },
                        IoSel::Output => {
                            assert(self@.outputs =~= goal.outputs);
                        },
                    }
                }
            },
        }
    }

    /// Deletes pin `id` of column `sel`; a grouped pin takes its whole group
    /// with it.
    pub fn remove_io(&mut self, sel: IoSel, id: u64)
        requires
            old(self)@.wf(),
            old(self)@.pins(sel).contains_key(id),
        ensures
            final(self)@ == old(self)@.remove_io(sel, id),
            final(self)@.wf(),
    {
        let group_member = self.get_io(sel, id).unwrap().group_member;
        match group_member {
            None => {
                self.remove_io_alone(sel, id);
                proof {
                    lemma_remove_io_wf(old(self)@, sel, id);
                }
            },
            Some(group_id) => {
                let members = copy_vec(&self.get_io_group(sel, group_id).unwrap().members);
                let ghost ms = members@;
                proof {
                    assert(ms.take(0).to_set() =~= Set::<u64>::empty());
                    let goal = old(self)@.remove_pins(sel, Set::<u64>::empty());
                    match sel {
                        IoSel::Input => {
                            assert(goal.inputs =~= old(self)@.inputs);
                        },
                        IoSel::Output => {
                            assert(goal.outputs =~= old(self)@.outputs);
                        },
                    }
                }
                let mut k: usize = 0;
                while k < members.len()
                    invariant
                        k <= ms.len(),
                        ms == members@,
                        ms.no_duplicates(),
                        forall|j: int| 0 <= j < ms.len() ==> old(self)@.pins(sel).contains_key(#[trigger] ms[j]),
                        self@ == old(self)@.remove_pins(sel, ms.take(k as int).to_set()),
                    decreases ms.len() - k,
                {
                    let m = members[k];
                    proof {
                        crate::lemma_not_in_prefix(ms, k as int);
                        crate::lemma_take_push_to_set(ms, k as int);
                        assert(old(self)@.pins(sel).contains_key(ms[k as int]));
                    }
                    self.remove_io_alone(sel, m);
                    proof {
                        let goal = old(self)@.remove_pins(sel, ms.take(k + 1).to_set());
                        match sel {
                            IoSel::Input => {
                                assert(self@.inputs =~= goal.inputs);
                            },
                            IoSel::Output => {
                                assert(self@.outputs =~= goal.outputs);
                            },
                        }
                    }
                    k = k + 1;
                }
                proof {
                    assert(ms.take(k as int) =~= ms);
                }
                self.remove_io_group(sel, group_id);
                proof {
                    lemma_remove_io_wf(old(self)@, sel, id);
                }
            },
        }
    }

    /// Stacks a new pin under pin `id` of column `sel`, `spacing` below the
    /// stack's bottom pin, using fresh random ids for the pin (and for the
    /// group, when the pin had none).
    pub fn stack_io(&mut self, sel: IoSel, id: u64, spacing: i64)
        requires
            old(self)@.groups_wf(sel),
            old(self)@.pins(sel).contains_key(id),
        ensures
            exists|gid: u64, nid: u64|
                #![trigger old(self)@.stack_io(sel, id, spacing, gid, nid)]
                final(self)@ == old(self)@.stack_io(sel, id, spacing, gid, nid) && (old(
                    self,
                )@.stack_ids_fresh(sel, id, gid, nid) && old(self)@.wf() ==> final(self)@.wf()),
    {
        let io = self.get_io(sel, id).unwrap();
        let state = io.state;
        let name = io.name.clone();
        let y_pos = io.y_pos;
        let group_member = io.group_member;
        let ghost v = old(self)@;
        match group_member {
            Some(group_id) => {
                let group = self.get_io_group(sel, group_id).unwrap();
                assert(group@.members.len() >= 2);
                let first_member = self.get_io(sel, group.members[0]).unwrap();
                assert(v.pins(sel).contains_key(group@.members[group@.members.len() - 1]));
                let new_name = new_name(&first_member.name, group.members.len());
                let bottom_y = self.get_io(sel, group.members[group.members.len() - 1]).unwrap().y_pos;
                let new_id = crate::queue::rand_id();
                let group = self.mut_io_group(sel, group_id).unwrap();
                group.members.push(new_id);
                let io = Io {
                    y_pos: crate::geom::sat_add(bottom_y, spacing),
                    group_member: Some(group_id),
                    name: new_name,
                    state,
                };
                self.add_io(sel, new_id, io);
                proof {
                    let goal = v.stack_io(sel, id, spacing, 0, new_id);
                    assert(self@.input_groups =~= goal.input_groups);
                    assert(self@.output_groups =~= goal.output_groups);
                    assert(self@.inputs =~= goal.inputs);
                    assert(self@.outputs =~= goal.outputs);
                    assert(self@ == goal);
                    if v.stack_ids_fresh(sel, id, 0, new_id) && v.wf() {
                        lemma_stack_io_wf(v, sel, id, spacing, 0, new_id);
                    }
                    assert(self@ == old(self)@.stack_io(sel, id, spacing, 0u64, new_id) && (old(
                        self,
                    )@.stack_ids_fresh(sel, id, 0u64, new_id) && old(self)@.wf() ==> self@.wf()));

                }
            },
            None => {
                let group_id = crate::queue::rand_id();
                let new_id = crate::queue::rand_id();
                let mut members: Vec<u64> = Vec::new();
                members.push(id);
                members.push(new_id);
                self.insert_io_group(sel, group_id, Group::new(members));
                let io = self.mut_io(sel, id).unwrap();
                io.group_member = Some(group_id);
                let new_io = Io {
                    y_pos: crate::geom::sat_add(y_pos, spacing),
                    group_member: Some(group_id),
                    name: new_name(&name, 1),
                    state,
                };
                self.add_io(sel, new_id, new_io);
                proof {
                    assert(members@ =~= seq![id, new_id]);
                    let goal = v.stack_io(sel, id, spacing, group_id, new_id);
                    assert(self@.input_groups =~= goal.input_groups);
                    assert(self@.output_groups =~= goal.output_groups);
                    assert(self@.inputs =~= goal.inputs);
                    assert(self@.outputs =~= goal.outputs);
                    assert(self@ == goal);
                    if v.stack_ids_fresh(sel, id, group_id, new_id) && v.wf() {
                        lemma_stack_io_wf(v, sel, id, spacing, group_id, new_id);
                    }
                }
            },
        }
    }

    /// Removes the last pin of pin `id`'s stack; a group left with one pin
    /// dissolves. Nothing happens to a pin in no group.
    pub fn unstack_io(&mut self, sel: IoSel, id: u64)
        requires
            old(self)@.can_unstack(sel, id),
        ensures
            final(self)@ == old(self)@.unstack_io(sel, id),
            old(self)@.wf() ==> final(self)@.wf(),
    {
        let ghost v = old(self)@;
        let group_member = self.get_io(sel, id).unwrap().group_member;
        let group_id = match group_member {
            Some(g) => g,
            None => {
                return ;
            },
        };
        let group = self.mut_io_group(sel, group_id).unwrap();
        let member = group.members.pop().unwrap();
        if group.members.len() == 1 {
            let last_member = group.members[0];
            self.remove_io_group(sel, group_id);
            let io = self.mut_io(sel, id).unwrap();
            io.group_member = None;
            let ghost ms = v.groups(sel)[group_id].members;
            assert(ms[0] == last_member);
            assert(v.pins(sel).contains_key(ms[0]));
            let io = self.mut_io(sel, last_member).unwrap();
            io.group_member = None;
        }
        let ghost ms = v.groups(sel)[group_id].members;
        assert(v.pins(sel).contains_key(ms[ms.len() - 1]));
        self.remove_io_alone(sel, member);
        proof {
            let goal = v.unstack_io(sel, id);
            assert(self@.input_groups =~= goal.input_groups);
            assert(self@.output_groups =~= goal.output_groups);
            assert(self@.inputs =~= goal.inputs);
            assert(self@.outputs =~= goal.outputs);
            if v.wf() {
                lemma_unstack_io_wf(v, sel, id);
            }
        }
    }

    /// Adds an unnamed, off input pin at height `y` under a fresh random id.
    pub fn add_input(&mut self, y: i64)
        ensures
            exists|id: u64|
                final(self)@ == old(self)@.add_pin(
                    IoSel::Input,
                    id,
                    IoView { name: Seq::empty(), y_pos: y, state: false, group_member: None },
                ),
    {
        let id = crate::queue::rand_id();
        self.inputs.insert(id, Input::new(Io::new(y)));
        assert(self@ == old(self)@.add_pin(
            IoSel::Input,
            id,
            IoView { name: Seq::empty(), y_pos: y, state: false, group_member: None },
        ));
    }

    /// Adds an unnamed, off output pin at height `y` under a fresh random id.
    pub fn add_output(&mut self, y: i64)
        ensures
            exists|id: u64|
                final(self)@ == old(self)@.add_pin(
                    IoSel::Output,
                    id,
                    IoView { name: Seq::empty(), y_pos: y, state: false, group_member: None },
                ),
    {
        let id = crate::queue::rand_id();
        self.outputs.insert(id, Output::new(Io::new(y)));
        assert(self@ == old(self)@.add_pin(
            IoSel::Output,
            id,
            IoView { name: Seq::empty(), y_pos: y, state: false, group_member: None },
        ));
    }

    /// Input pin `input` takes `state`, and a write of it is buffered for
    /// each of its links. Nothing happens if there is no such pin.
    pub fn set_input(&mut self, input: u64, state: bool)
        ensures
            final(self)@ == old(self)@.set_input(input, state),
    {
        match self.inputs.get_mut(input) {
            Some(inp) => {
                inp.io.state = state;
            },
            None => {
                return ;
            },
        }
        match self.inputs.get(input) {
            Some(inp) => {
                let ghost buf0 = self.write_queue.buffer@;
                let ghost tv = targets_of(inp@.links);
                let ghost mid = self@;
                let mut k: usize = 0;
                while k < inp.links.len()
                    invariant
                        self@ == (BoardView { buffer: self.write_queue.buffer@, ..mid }),
                        inp@ == mid.inputs[input],
                        k <= inp.links@.len(),
                        tv == targets_of(inp@.links),
                        self.write_queue.writes@ == old(self)@.writes,
                        self.write_queue.buffer@ == buf0 + fanout(tv, state).take(k as int),
                    decreases inp.links@.len() - k,
                {
                    self.write_queue.push(inp.links[k].target, state);
                    k = k + 1;
                    assert(self.write_queue.buffer@ =~= buf0 + fanout(tv, state).take(k as int));
                }
                assert(fanout(tv, state).take(k as int) =~= fanout(tv, state));
            },
            None => {},
        }
    }

    /// Moves input pin `id` (with its group) down by `drag.y`.
    pub fn drag_input(&mut self, id: u64, drag: Point)
        requires
            old(self)@.groups_wf(IoSel::Input),
            old(self)@.pins(IoSel::Input).contains_key(id),
        ensures
            final(self)@ == old(self)@.move_pins(
                IoSel::Input,
                old(self)@.moving_pins(IoSel::Input, id),
                drag.y,
            ),
    {
        self.drag_io(IoSel::Input, id, drag)
    }

    /// Deletes input pin `id` (with its group).
    pub fn remove_input(&mut self, id: u64)
        requires
            old(self)@.wf(),
            old(self)@.pins(IoSel::Input).contains_key(id),
        ensures
            final(self)@ == old(self)@.remove_io(IoSel::Input, id),
            final(self)@.wf(),
    {
        self.remove_io(IoSel::Input, id)
    }

    /// Stacks a new input pin under input pin `id`.
    pub fn stack_input(&mut self, id: u64, spacing: i64)
        requires
            old(self)@.groups_wf(IoSel::Input),
            old(self)@.pins(IoSel::Input).contains_key(id),
        ensures
            exists|gid: u64, nid: u64|
                #![trigger old(self)@.stack_io(IoSel::Input, id, spacing, gid, nid)]
                final(self)@ == old(self)@.stack_io(IoSel::Input, id, spacing, gid, nid) && (old(
                    self,
                )@.stack_ids_fresh(IoSel::Input, id, gid, nid) && old(self)@.wf() ==> final(self)@.wf()),
    {
        self.stack_io(IoSel::Input, id, spacing)
    }

    /// Removes the last pin of input pin `id`'s stack.
    pub fn unstack_input(&mut self, id: u64)
        requires
            old(self)@.can_unstack(IoSel::Input, id),
        ensures
            final(self)@ == old(self)@.unstack_io(IoSel::Input, id),
            old(self)@.wf() ==> final(self)@.wf(),
    {
        self.unstack_io(IoSel::Input, id)
    }

    /// Moves output pin `id` (with its group) down by `drag.y`.
    pub fn drag_output(&mut self, id: u64, drag: Point)
        requires
            old(self)@.groups_wf(IoSel::Output),
            old(self)@.pins(IoSel::Output).contains_key(id),
        ensures
            final(self)@ == old(self)@.move_pins(
                IoSel::Output,
                old(self)@.moving_pins(IoSel::Output, id),
                drag.y,
            ),
    {
        self.drag_io(IoSel::Output, id, drag)
    }

    /// Deletes output pin `id` (with its group).
    pub fn remove_output(&mut self, id: u64)
        requires
            old(self)@.wf(),
            old(self)@.pins(IoSel::Output).contains_key(id),
        ensures
            final(self)@ == old(self)@.remove_io(IoSel::Output, id),
            final(self)@.wf(),
    {
        self.remove_io(IoSel::Output, id)
    }

    /// Stacks a new output pin under output pin `id`.
    pub fn stack_output(&mut self, id: u64, spacing: i64)
        requires
            old(self)@.groups_wf(IoSel::Output),
            old(self)@.pins(IoSel::Output).contains_key(id),
        ensures
            exists|gid: u64, nid: u64|
                #![trigger old(self)@.stack_io(IoSel::Output, id, spacing, gid, nid)]
                final(self)@ == old(self)@.stack_io(IoSel::Output, id, spacing, gid, nid) && (old(
                    self,
                )@.stack_ids_fresh(IoSel::Output, id, gid, nid) && old(self)@.wf() ==> final(self)@.wf()),
    {
        self.stack_io(IoSel::Output, id, spacing)
    }

    /// Removes the last pin of output pin `id`'s stack.
    pub fn unstack_output(&mut self, id: u64)
        requires
            old(self)@.can_unstack(IoSel::Output, id),
        ensures
            final(self)@ == old(self)@.unstack_io(IoSel::Output, id),
            old(self)@.wf() ==> final(self)@.wf(),
    {
        self.unstack_io(IoSel::Output, id)
    }

    /// Removes group `id` of column `sel`, if any.
    pub fn remove_io_group(&mut self, sel: IoSel, id: u64)
        ensures
            final(self)@ == old(self)@.set_groups(sel, old(self)@.groups(sel).remove(id)),
    {
        match sel {
            IoSel::Input => {
                self.input_groups.remove(id);
            },
            IoSel::Output => {
                self.output_groups.remove(id);
            },
        };
    }
}

impl Board {
    /// An empty board over the rectangle (0, 0)-(600, 400).
    pub fn new() -> (r: Board)
        ensures
            r@.rect == (Rect { min: Point { x: 0, y: 0 }, max: Point { x: 600, y: 400 } }),
            r@.writes.len() == 0,
            r@.buffer.len() == 0,
            r@.inputs.dom().is_empty(),
            r@.outputs.dom().is_empty(),
            r@.devices.dom().is_empty(),
            r@.input_groups.dom().is_empty(),
            r@.output_groups.dom().is_empty(),
    {
        Board {
            rect: Rect { min: Point::new(0, 0), max: Point::new(600, 400) },
            write_queue: WriteQueue::empty(),
            inputs: InputMap::new(),
            outputs: OutputMap::new(),
            devices: DeviceMap::new(),
            input_groups: GroupMap::new(),
            output_groups: GroupMap::new(),
        }
    }

    /// Same as `new`.
    pub fn default() -> (r: Board)
        ensures
            r@.rect == (Rect { min: Point { x: 0, y: 0 }, max: Point { x: 600, y: 400 } }),
            r@.writes.len() == 0,
            r@.buffer.len() == 0,
            r@.inputs.dom().is_empty(),
            r@.outputs.dom().is_empty(),
            r@.devices.dom().is_empty(),
            r@.input_groups.dom().is_empty(),
            r@.output_groups.dom().is_empty(),
    {
        Self::new()
    }

    /// Number of pins and devices.
    pub fn item_count(&self) -> (r: usize)
        requires
            self@.inputs.dom().len() + self@.outputs.dom().len() + self@.devices.dom().len()
                <= usize::MAX,
        ensures
            r == self@.inputs.dom().len() + self@.outputs.dom().len() + self@.devices.dom().len(),
    {
        self.inputs.len() + self.outputs.len() + self.devices.len()
    }

    /// One tick of the simulation. Every ready write lands, first ready
    /// first; if a write's device or output pin is gone, the tick stops
    /// there. Otherwise every device ticks (in the map's order), and the
    /// queue counts down and takes in the writes produced meanwhile, each
    /// with a random extra delay below 3.
    pub fn update(&mut self)
        requires
            old(self)@.sim_wf(),
        ensures
            final(self)@.sim_wf(),
            old(self)@.run_ready().1 ==> final(self)@ == old(self)@.run_ready().0,
            !old(self)@.run_ready().1 ==> exists|order: Seq<u64>, dss: Seq<Seq<u8>>, ds: Seq<u8>|
                old(self)@.tick_draws_ok(order, dss, ds) && final(self)@ == old(self)@.tick(
                    order,
                    dss,
                    ds,
                ),
    {
        let ghost goal = old(self)@.run_ready();
        proof {
            lemma_run_ready(old(self)@);
        }
        let mut done = false;
        while !done
            invariant
                self@.sim_wf(),
                self@.run_ready() == goal,
                goal == old(self)@.run_ready(),
                done ==> self@ == goal.0 && !goal.1,
            decreases self@.writes.len() + (if done { 0int } else { 1int }),
        {
            let ghost before = self@;
            proof {
                crate::queue::lemma_find_ready_range(before.writes, 0);
            }
            match self.write_queue.next() {
                Some(write) => {
                    let ghost k = find_ready(before.writes, 0);
                    let ghost v0 = BoardView { writes: before.writes.remove(k), ..before };
                    proof {
                        assert(self@ == v0);
                        assert(before.target_ok(before.writes[k].target));
                        assert forall|j: int| 0 <= j < v0.writes.len() implies v0.target_ok(
                            #[trigger] v0.writes[j].target,
                        ) by {
                            if j < k {
                                assert(v0.writes[j] == before.writes[j]);
                            } else {
                                assert(v0.writes[j] == before.writes[j + 1]);
                            }
                        }
                        lemma_land(v0, write.target, write.state);
                        assert(before.run_ready() == match v0.land(write.target, write.state) {
                            Some(v1) => v1.run_ready(),
                            None => (v0, true),
                        });
                    }
                    match write.target {
                        LinkTarget::DeviceInput(dev_id, input) => {
                            match self.devices.get_mut(dev_id) {
                                Some(device) => {
                                    let mut changes = device.data.set_input(input, write.state);
                                    push_link_changes(&mut self.write_queue, &mut changes, &device.links);
                                    proof {
                                        assert(self@ == v0.set_device_input(dev_id, input as nat, write.state));
                                    }
                                },
                                None => {
                                    proof {
                                        assert(v0.land(write.target, write.state) is None);
                                        assert(self@ == v0);
                                        assert(goal == (v0, true));
                                    }
                                    return ;
                                },
                            }
                        },
                        LinkTarget::Output(output) => {
                            match self.outputs.get_mut(output) {
                                Some(out) => {
                                    out.io.state = write.state;
                                },
                                None => {
                                    proof {
                                        assert(v0.land(write.target, write.state) is None);
                                        assert(self@ == v0);
                                        assert(goal == (v0, true));
                                    }
                                    return ;
                                },
                            }
                        },
                    }
                },
                None => {
                    done = true;
                },
            }
        }
        let ghost start = self@;
        let keys = self.devices.keys();
        let ghost mut dss: Seq<Seq<u8>> = Seq::empty();
        let mut i: usize = 0;
        while i < keys.len()
            invariant
                i <= keys@.len(),
                start == goal.0,
                keys@.no_duplicates(),
                keys@.to_set() == start.devices.dom(),
                dss.len() == i,
                start.chip_draws_ok(keys@.take(i as int), dss),
                self@ == start.tick_chips(keys@.take(i as int), dss),
                self@.sim_wf(),
                self@.writes == start.writes,
                all_waiting(start.writes),
            decreases keys@.len() - i,
        {
            let id = keys[i];
            let ghost before = self@;
            let ghost ds: Seq<u8> = Seq::empty();
            match self.devices.get_mut(id) {
                Some(device) => {
                    match &mut device.data {
                        DeviceData::Chip(chip) => {
                            let mut changes = chip.update();
                            proof {
                                ds = choose|ds: Seq<u8>| ds.len() == before.devices[id].data->Chip_0.run_ready().buffer.len()
                                    && delays_ok(ds) && chip@ == after_tick(before.devices[id].data->Chip_0.run_ready(), ds);
                            }
                            push_link_changes(&mut self.write_queue, &mut changes, &device.links);
                        },
                        DeviceData::CombGate(_) => {},
                    }
                },
                None => {},
            }
            proof {
                if before.devices.contains_key(id) {
                    match before.devices[id].data {
                        DeviceDataView::CombGate(_) => {
                            assert(self@.devices =~= before.devices);
                        },
                        DeviceDataView::Chip(_) => {},
                    }
                }
                assert(before.chip_draw_ok(id, ds));
                assert(self@ == before.tick_chip(id, ds));
                lemma_tick_chip(before, id, ds);
                assert(keys@.take(i + 1).drop_last() =~= keys@.take(i as int));
                assert(dss.push(ds).drop_last() =~= dss);
                dss = dss.push(ds);
            }
            i = i + 1;
        }
        proof {
            assert(keys@.take(i as int) =~= keys@);
        }
        self.write_queue.update();
        self.write_queue.flush();
        proof {
            let t = start.tick_chips(keys@, dss);
            let ds = choose|ds: Seq<u8>| ds.len() == t.buffer.len() && delays_ok(ds) && self@.writes == flushed(ticked(t.writes), t.buffer, ds);
            let p = |x: LinkTarget<u64>| t.target_ok(x);
            assert forall|k: int| 0 <= k < ticked(t.writes).len() implies p(#[trigger] ticked(t.writes)[k].target) by {
                assert(t.target_ok(t.writes[k].target));
            }
            assert forall|k: int| 0 <= k < t.buffer.len() implies p(#[trigger] t.buffer[k].0) by {}
            crate::queue::lemma_flushed_targets(ticked(t.writes), t.buffer, ds, p);
            assert(self@.buffer =~= Seq::<(LinkTarget<u64>, bool)>::empty());
            assert(self@ == t.queue_ticked(ds));
            assert(old(self)@.tick_draws_ok(keys@, dss, ds));
        }
    }

    /// Places `device` under `id` (replacing any device there).
    pub fn add_device(&mut self, id: u64, device: Device)
        ensures
            final(self)@ == (BoardView { devices: old(self)@.devices.insert(id, device@), ..old(self)@ }),
    {
        self.devices.insert(id, device);
    }

    /// Moves device `id` by `drag`.
    pub fn drag_device(&mut self, id: u64, drag: Point)
        requires
            old(self)@.devices.contains_key(id),
        ensures
            final(self)@ == (BoardView {
                devices: old(self)@.devices.insert(
                    id,
                    DeviceView { pos: old(self)@.devices[id].pos.moved(drag), ..old(self)@.devices[id] },
                ),
                ..old(self)@
            }),
    {
        match self.devices.get_mut(id) {
            Some(d) => {
                d.pos = d.pos.add(drag);
            },
            None => {},
        }
    }

    /// Input `input` of device `id` takes `state`, buffering the writes for
    /// the device's changed outputs. Nothing happens if there is no such
    /// device.
    pub fn set_device_input(&mut self, id: u64, input: usize, state: bool)
        requires
            old(self)@.sim_wf(),
            old(self)@.devices.contains_key(id) ==> input < old(self)@.devices[id].data.num_inputs(),
        ensures
            final(self)@ == old(self)@.set_device_input(id, input as nat, state),
    {
        match self.devices.get_mut(id) {
            Some(device) => {
                let mut changes = device.data.set_input(input, state);
                push_link_changes(&mut self.write_queue, &mut changes, &device.links);
                proof {
                    assert(device@.links == old(self)@.devices[id].links);
                }
            },
            None => {},
        }
    }

    /// Deletes device `id`; every output of it that was on sends `false`
    /// along its links.
    pub fn remove_device(&mut self, id: u64)
        requires
            old(self)@.sim_wf(),
            old(self)@.devices.contains_key(id),
        ensures
            final(self)@ == old(self)@.remove_device(id),
    {
        let device = self.devices.get(id).unwrap();
        let output = device.data.output();
        assert(device@.wf());
        assert(output.spec_len() <= 64) by {
            match device@.data {
                DeviceDataView::CombGate(g) => {},
                DeviceDataView::Chip(c) => {},
            }
        }
        let mut changes = ChangedOutputs::new(output, BitField::empty(output.len()));
        push_link_changes(&mut self.write_queue, &mut changes, &device.links);
        self.devices.remove(id);
    }

    /// The state a link into `target` delivers to, if the target exists.
    pub fn link_target_state(&self, target: LinkTarget<u64>) -> (r: Option<bool>)
        requires
            self@.sim_wf(),
            self@.target_ok(target),
        ensures
            r == self@.target_state(target),
    {
        match target {
            LinkTarget::DeviceInput(device, input) => {
                match self.devices.get(device) {
                    Some(d) => {
                        assert(d@.wf());
                        assert(d@.data.num_inputs() <= 64) by {
                            match d@.data {
                                DeviceDataView::CombGate(g) => {},
                                DeviceDataView::Chip(c) => {},
                            }
                        }
                        Some(d.data.input().get(input))
                    },
                    None => None,
                }
            },
            LinkTarget::Output(output) => match self.outputs.get(output) {
                Some(o) => Some(o.io.state),
                None => None,
            },
        }
    }

    /// The state a link from `start` carries, if the start exists.
    pub fn link_start_state(&self, start: LinkStart<u64>) -> (r: Option<bool>)
        requires
            self@.sim_wf(),
            match start {
                LinkStart::DeviceOutput(d, o) => self@.devices.contains_key(d) ==> o
                    < self@.devices[d].data.num_outputs(),
                LinkStart::Input(_) => true,
            },
        ensures
            r == self@.start_state(start),
    {
        match start {
            LinkStart::DeviceOutput(device, output) => {
                match self.devices.get(device) {
                    Some(d) => {
                        assert(d@.wf());
                        assert(d@.data.num_outputs() <= 64) by {
                            match d@.data {
                                DeviceDataView::CombGate(g) => {},
                                DeviceDataView::Chip(c) => {},
                            }
                        }
                        Some(d.data.output().get(output))
                    },
                    None => None,
                }
            },
            LinkStart::Input(input) => match self.inputs.get(input) {
                Some(i) => Some(i.io.state),
                None => None,
            },
        }
    }

    /// Removes one link to `target` (see `link_removed` for which); tells
    /// whether there was one.
    pub fn remove_link_to(&mut self, target: LinkTarget<u64>) -> (r: bool)
        ensures
            r == (old(self)@.input_has_link_to(target) || old(self)@.device_has_link_to(target)),
            old(self)@.link_removed(target, final(self)@),
    {
        let ghost v = old(self)@;
        let keys = self.inputs.keys();
        let mut i: usize = 0;
        while i < keys.len()
            invariant
                v == old(self)@,
                self@ == v,
                i <= keys@.len(),
                keys@.to_set() == v.inputs.dom(),
                forall|j: int, k: int|
                    #![trigger v.inputs[keys@[j]].links[k]]
                    0 <= j < i && 0 <= k < v.inputs[keys@[j]].links.len() ==> v.inputs[keys@[j]].links[k].target != target,
            decreases keys@.len() - i,
        {
            let id = keys[i];
            assert(keys@.to_set().contains(id));
            let inp = self.inputs.get(id).unwrap();
            match find_link(&inp.links, target) {
                Some(k) => {
                    let inp = self.inputs.get_mut(id).unwrap();
                    inp.links.remove(k);
                    proof {
                        assert(v.inputs[id].links[k as int].target == target);
                        assert(v.input_has_link_to(target));
                        let m = v.remove_input_link(id, k as int);
                        assert(self@.inputs[id].links =~= m.inputs[id].links);
                        assert(self@.inputs =~= m.inputs);
                        assert(self@ == m);
                        assert(first_link_to(v.inputs[id].links, target, k as int));
                    }
                    return true;
                },
                None => {},
            }
            i = i + 1;
        }
        proof {
            assert forall|a: u64, k: int|
                #![trigger v.inputs[a].links[k]]
                v.inputs.contains_key(a) && 0 <= k < v.inputs[a].links.len() implies v.inputs[a].links[k].target != target by {
                assert(keys@.to_set().contains(a));
                let j = choose|j: int| 0 <= j < keys@.len() && keys@[j] == a;
            }
            assert(!v.input_has_link_to(target));
        }
        let dkeys = self.devices.keys();
        let mut i: usize = 0;
        while i < dkeys.len()
            invariant
                v == old(self)@,
                self@ == v,
                !v.input_has_link_to(target),
                i <= dkeys@.len(),
                dkeys@.to_set() == v.devices.dom(),
                forall|j: int, o: int, k: int|
                    #![trigger v.devices[dkeys@[j]].links[o][k]]
                    0 <= j < i && 0 <= o < v.devices[dkeys@[j]].links.len() && 0 <= k < v.devices[dkeys@[j]].links[o].len()
                        ==> v.devices[dkeys@[j]].links[o][k].target != target,
            decreases dkeys@.len() - i,
        {
            let id = dkeys[i];
            assert(dkeys@.to_set().contains(id));
            let dev = self.devices.get(id).unwrap();
            let mut o: usize = 0;
            while o < dev.links.len()
                invariant
                    v == old(self)@,
                    self@ == v,
                    !v.input_has_link_to(target),
                    v.devices.contains_key(id),
                    dev@ == v.devices[id],
                    o <= dev.links@.len(),
                    forall|o2: int, k: int|
                        #![trigger v.devices[id].links[o2][k]]
                        0 <= o2 < o && 0 <= k < v.devices[id].links[o2].len() ==> v.devices[id].links[o2][k].target != target,
                decreases dev.links@.len() - o,
            {
                match find_link(&dev.links[o], target) {
                    Some(k) => {
                        let d = self.devices.get_mut(id).unwrap();
                        assert(dev@.links.len() == dev.links@.len());
                        assert(d@.links.len() == d.links@.len());
                        assert(d@.links[o as int] == d.links@[o as int]@.map_values(|l: Link| l@));
                        assert(dev@.links[o as int] == dev.links@[o as int]@.map_values(|l: Link| l@));
                        assert(d.links@[o as int]@.len() == v.devices[id].links[o as int].len());
                        d.links[o].remove(k);
                        proof {
                            assert(v.devices[id].links[o as int][k as int].target == target);
                            assert(v.device_has_link_to(target));
                            let m = v.remove_device_link(id, o as int, k as int);
                            assert(self@.devices[id].links[o as int] =~= m.devices[id].links[o as int]);
                            assert(self@.devices[id].links =~= m.devices[id].links);
                            assert(self@.devices =~= m.devices);
                            assert(self@ == m);
                            assert(first_link_to(v.devices[id].links[o as int], target, k as int));
                        }
                        return true;
                    },
                    None => {
                        proof {
                            assert forall|k: int| 0 <= k < v.devices[id].links[o as int].len() implies
                                #[trigger] v.devices[id].links[o as int][k].target != target by {
                                assert(v.devices[id].links[o as int][k] == dev.links@[o as int]@[k]@);
                            }
                        }
                    },
                }
                o = o + 1;
            }
            i = i + 1;
        }
        proof {
            assert forall|a: u64, o: int, k: int|
                #![trigger v.devices[a].links[o][k]]
                v.devices.contains_key(a) && 0 <= o < v.devices[a].links.len() && 0 <= k < v.devices[a].links[o].len()
                    implies v.devices[a].links[o][k].target != target by {
                assert(dkeys@.to_set().contains(a));
                let j = choose|j: int| 0 <= j < dkeys@.len() && dkeys@[j] == a;
            }
            assert(!v.device_has_link_to(target));
        }
        false
    }

    /// Adds `link` from `start`, after removing one existing link to the
    /// same target (see `remove_link_to`), and buffers a write of the
    /// start's state for it.
    pub fn add_link(&mut self, start: LinkStart<u64>, link: Link)
        requires
            old(self)@.sim_wf(),
            match start {
                LinkStart::Input(id) => old(self)@.inputs.contains_key(id),
                LinkStart::DeviceOutput(id, idx) => old(self)@.devices.contains_key(id) && idx
                    < old(self)@.devices[id].data.num_outputs(),
            },
        ensures
            exists|m: BoardView| #[trigger] old(self)@.link_removed(link.target, m) && final(self)@ == m.attach(start, link@),
            final(self)@.buffer == old(self)@.buffer.push(
                (
                    link.target,
                    match start {
                        LinkStart::Input(id) => old(self)@.inputs[id].io.state,
                        LinkStart::DeviceOutput(id, idx) => crate::bits::bit_of(
                            old(self)@.devices[id].data.output(),
                            idx as nat,
                        ),
                    },
                ),
            ),
    {
        self.remove_link_to(link.target);
        let ghost m = self@;
        let target = link.target;
        proof {
            lemma_link_removed(old(self)@, target, m);
            match start {
                LinkStart::DeviceOutput(id, idx) => {
                    assert(old(self)@.devices[id].wf());
                },
                LinkStart::Input(_) => {},
            }
            crate::links::lemma_add_link_sends_start_state(old(self)@, start, link@, m);
        }
        match start {
            LinkStart::Input(id) => {
                let input = self.inputs.get_mut(id).unwrap();
                let state = input.io.state;
                let ghost lv = link@;
                input.links.push(link);
                self.write_queue.push(target, state);
                proof {
                    let goal = m.attach(start, lv);
                    assert(self@.inputs[id].links =~= goal.inputs[id].links);
                    assert(self@.inputs =~= goal.inputs);
                    assert(self@ == goal);
                }
            },
            LinkStart::DeviceOutput(id, idx) => {
                let device = self.devices.get_mut(id).unwrap();
                let ghost lv = link@;
                assert(device@.wf());
                assert(device.links@[idx as int]@.len() == m.devices[id].links[idx as int].len());
                device.links[idx].push(link);
                assert(device@.data.num_outputs() <= 64) by {
                    match device@.data {
                        DeviceDataView::CombGate(g) => {},
                        DeviceDataView::Chip(c) => {},
                    }
                }
                let state = device.data.output().get(idx);
                self.write_queue.push(target, state);
                proof {
                    let goal = m.attach(start, lv);
                    assert(self@.devices[id].links[idx as int] =~= goal.devices[id].links[idx as int]);
                    assert(self@.devices[id].links =~= goal.devices[id].links);
                    assert(self@.devices =~= goal.devices);
                    assert(self@ == goal);
                }
            },
        }
    }

    /// Deletes link `k` of input pin `id`; its target is sent `false`.
    pub fn cut_input_link(&mut self, id: u64, k: usize)
        requires
            old(self)@.inputs.contains_key(id),
            k < old(self)@.inputs[id].links.len(),
        ensures
            final(self)@ == (BoardView {
                buffer: old(self)@.buffer.push((old(self)@.inputs[id].links[k as int].target, false)),
                ..old(self)@.remove_input_link(id, k as int)
            }),
    {
        let ghost v = self@;
        let inp = self.inputs.get_mut(id).unwrap();
        let target = inp.links[k].target;
        inp.links.remove(k);
        self.write_queue.push(target, false);
        proof {
            let goal = BoardView {
                buffer: v.buffer.push((v.inputs[id].links[k as int].target, false)),
                ..v.remove_input_link(id, k as int)
            };
            assert(self@.inputs[id].links =~= goal.inputs[id].links);
            assert(self@.inputs =~= goal.inputs);
            assert(self@ == goal);
        }
    }

    /// Deletes link `k` of output `o` of device `id`; its target is sent
    /// `false`.
    pub fn cut_device_link(&mut self, id: u64, o: usize, k: usize)
        requires
            old(self)@.devices.contains_key(id),
            o < old(self)@.devices[id].links.len(),
            k < old(self)@.devices[id].links[o as int].len(),
        ensures
            final(self)@ == (BoardView {
                buffer: old(self)@.buffer.push((old(self)@.devices[id].links[o as int][k as int].target, false)),
                ..old(self)@.remove_device_link(id, o as int, k as int)
            }),
    {
        let ghost v = self@;
        let d = self.devices.get_mut(id).unwrap();
        assert(d@.links.len() == d.links@.len());
        assert(d@.links[o as int] == d.links@[o as int]@.map_values(|l: Link| l@));
        assert(d.links@[o as int]@.len() == v.devices[id].links[o as int].len());
        let target = d.links[o][k].target;
        d.links[o].remove(k);
        self.write_queue.push(target, false);
        proof {
            let goal = BoardView {
                buffer: v.buffer.push((v.devices[id].links[o as int][k as int].target, false)),
                ..v.remove_device_link(id, o as int, k as int)
            };
            assert(self@.devices[id].links[o as int] =~= goal.devices[id].links[o as int]);
            assert(self@.devices[id].links =~= goal.devices[id].links);
            assert(self@.devices =~= goal.devices);
            assert(self@ == goal);
        }
    }

    /// Deletes every link of output `o` of device `id`.
    pub fn clear_output_links(&mut self, id: u64, o: usize)
        requires
            old(self)@.devices.contains_key(id),
            o < old(self)@.devices[id].links.len(),
        ensures
            final(self)@ == (BoardView {
                devices: old(self)@.devices.insert(
                    id,
                    DeviceView {
                        links: old(self)@.devices[id].links.update(o as int, Seq::empty()),
                        ..old(self)@.devices[id]
                    },
                ),
                ..old(self)@
            }),
    {
        let ghost v = self@;
        let d = self.devices.get_mut(id).unwrap();
        assert(d@.links.len() == d.links@.len());
        d.links[o].clear();
        proof {
            let goal = BoardView {
                devices: v.devices.insert(
                    id,
                    DeviceView { links: v.devices[id].links.update(o as int, Seq::empty()), ..v.devices[id] },
                ),
                ..v
            };
            assert(self@.devices[id].links[o as int] =~= goal.devices[id].links[o as int]);
            assert(self@.devices[id].links =~= goal.devices[id].links);
            assert(self@.devices =~= goal.devices);
            assert(self@ == goal);
        }
    }

    /// The pin ids of column `sel` in the map's order (every id once).
    fn pin_keys(&self, sel: IoSel) -> (r: Vec<u64>)
        ensures
            r@.no_duplicates(),
            r@.to_set() == self@.pins(sel).dom(),
    {
        match sel {
            IoSel::Input => {
                let r = self.inputs.keys();
                assert(self@.pins(sel).dom() =~= self@.inputs.dom());
                r
            },
            IoSel::Output => self.outputs.keys(),
        }
    }

    /// The states of the pins of column `sel`, bit `k` for the `k`-th pin in
    /// the map's order.
    pub fn io_field(&self, sel: IoSel) -> (r: BitField)
        requires
            self@.pins(sel).dom().len() <= 64,
        ensures
            exists|order: Seq<u64>|
                order.no_duplicates() && order.to_set() == self@.pins(sel).dom() && r.spec_len()
                    == order.len() && r.data == crate::bits::pack_bits(
                    order.map_values(|id: u64| self@.pins(sel)[id].state),
                ),
    {
        let keys = self.pin_keys(sel);
        proof {
            keys@.unique_seq_to_set();
        }
        let ghost pins = self@.pins(sel);
        let ghost states = keys@.map_values(|id: u64| pins[id].state);
        let mut field = BitField::empty(keys.len());
        let mut idx: usize = 0;
        while idx < keys.len()
            invariant
                pins == self@.pins(sel),
                keys@.to_set() == pins.dom(),
                keys@.len() <= 64,
                states == keys@.map_values(|id: u64| pins[id].state),
                idx <= keys@.len(),
                field.spec_len() == keys@.len(),
                field.data == crate::bits::pack_bits(states.take(idx as int)),
            decreases keys@.len() - idx,
        {
            let id = keys[idx];
            assert(keys@.to_set().contains(id));
            let state = self.get_io(sel, id).unwrap().state;
            field.set(idx, state);
            proof {
                let s1 = states.take(idx + 1);
                assert(s1.drop_last() =~= states.take(idx as int));
                assert(s1.last() == state);
            }
            idx = idx + 1;
        }
        assert(states.take(idx as int) =~= states);
        field
    }

    /// The states of the input pins, bit `k` for the `k`-th pin in the map's
    /// order.
    pub fn input_field(&self) -> (r: BitField)
        requires
            self@.pins(IoSel::Input).dom().len() <= 64,
        ensures
            exists|order: Seq<u64>|
                order.no_duplicates() && order.to_set() == self@.pins(IoSel::Input).dom() && r.spec_len()
                    == order.len() && r.data == crate::bits::pack_bits(
                    order.map_values(|id: u64| self@.pins(IoSel::Input)[id].state),
                ),
    {
        self.io_field(IoSel::Input)
    }

    /// The states of the output pins, bit `k` for the `k`-th pin in the map's
    /// order.
    pub fn output_field(&self) -> (r: BitField)
        requires
            self@.pins(IoSel::Output).dom().len() <= 64,
        ensures
            exists|order: Seq<u64>|
                order.no_duplicates() && order.to_set() == self@.pins(IoSel::Output).dom() && r.spec_len()
                    == order.len() && r.data == crate::bits::pack_bits(
                    order.map_values(|id: u64| self@.pins(IoSel::Output)[id].state),
                ),
    {
        self.io_field(IoSel::Output)
    }

    /// The pin ids of column `sel`, from the top of the board down (pins at
    /// the same height keep the map's order).
    pub fn io_sorted(&self, sel: IoSel) -> (r: Vec<u64>)
        ensures
            r@.no_duplicates(),
            r@.to_set() == self@.pins(sel).dom(),
            forall|i: int, j: int|
                0 <= i < j < r@.len() ==> self@.pins(sel)[r@[i]].y_pos <= self@.pins(sel)[r@[j]].y_pos,
    {
        let keys = self.pin_keys(sel);
        let ghost pins = self@.pins(sel);
        let mut sorted: Vec<u64> = Vec::new();
        let mut i: usize = 0;
        while i < keys.len()
            invariant
                pins == self@.pins(sel),
                keys@.to_set() == pins.dom(),
                keys@.no_duplicates(),
                i <= keys@.len(),
                sorted@.no_duplicates(),
                sorted@.to_set() == keys@.take(i as int).to_set(),
                forall|a: int, b: int|
                    0 <= a < b < sorted@.len() ==> pins[sorted@[a]].y_pos <= pins[sorted@[b]].y_pos,
            decreases keys@.len() - i,
        {
            let id = keys[i];
            assert(keys@.to_set().contains(id));
            let y = self.get_io(sel, id).unwrap().y_pos;
            let mut p: usize = 0;
            let mut go = true;
            while go && p < sorted.len()
                invariant
                    pins == self@.pins(sel),
                    keys@.to_set() == pins.dom(),
                    sorted@.to_set() == keys@.take(i as int).to_set(),
                    0 <= i < keys@.len(),
                    p <= sorted@.len(),
                    y == pins[id].y_pos,
                    forall|a: int| 0 <= a < p ==> pins[#[trigger] sorted@[a]].y_pos <= y,
                    !go ==> p < sorted@.len() && pins[sorted@[p as int]].y_pos > y,
                decreases sorted@.len() - p + (if go { 1int } else { 0int }),
            {
                let other = sorted[p];
                proof {
                    assert(sorted@.to_set().contains(other));
                    let k = choose|k: int| 0 <= k < i && #[trigger] keys@.take(i as int)[k] == other;
                    assert(keys@.take(i as int)[k] == keys@[k]);
                    assert(keys@.to_set().contains(keys@[k]));
                }
                if self.get_io(sel, other).unwrap().y_pos <= y {
                    p = p + 1;
                } else {
                    go = false;
                }
            }
            let ghost old_sorted = sorted@;
            sorted.insert(p, id);
            proof {
                crate::lemma_not_in_prefix(keys@, i as int);
                crate::lemma_take_push_to_set(keys@, i as int);
                assert(!old_sorted.contains(id)) by {
                    if old_sorted.contains(id) {
                        assert(old_sorted.to_set().contains(id));
                    }
                }
                assert(sorted@ =~= old_sorted.insert(p as int, id));
                assert forall|a: int, b: int| 0 <= a < b < sorted@.len() implies pins[sorted@[a]].y_pos
                    <= pins[sorted@[b]].y_pos by {
                    if a < p && b == p {
                    } else if a == p && b > p {
                        assert(sorted@[b] == old_sorted[b - 1]);
                        if go {
                        } else {
                            assert(pins[old_sorted[p as int]].y_pos <= pins[old_sorted[b - 1]].y_pos || b - 1 == p);
                        }
                    } else if a < p && b < p {
                    } else if a < p && b > p {
                        assert(sorted@[b] == old_sorted[b - 1]);
                    } else {
                        assert(sorted@[a] == old_sorted[a - 1]);
                        assert(sorted@[b] == old_sorted[b - 1]);
                    }
                }
                assert forall|x: u64| sorted@.to_set().contains(x) == old_sorted.to_set().insert(id).contains(x) by {
                    if sorted@.contains(x) {
                        let k = choose|k: int| 0 <= k < sorted@.len() && sorted@[k] == x;
                        if k < p {
                            assert(old_sorted[k] == x);
                        } else if k > p {
                            assert(old_sorted[k - 1] == x);
                        }
                    }
                    if old_sorted.contains(x) {
                        let k = choose|k: int| 0 <= k < old_sorted.len() && old_sorted[k] == x;
                        if k < p {
                            assert(sorted@[k] == x);
                        } else {
                            assert(sorted@[k + 1] == x);
                        }
                    }
                    if x == id {
                        assert(sorted@[p as int] == id);
                    }
                }
                assert(sorted@.to_set() =~= keys@.take(i + 1).to_set());
                assert forall|a: int, b: int| 0 <= a < b < sorted@.len() implies sorted@[a] != sorted@[b] by {
                    if a == p {
                        assert(old_sorted.contains(sorted@[b]));
                    } else if b == p {
                        assert(old_sorted.contains(sorted@[a]));
                    } else {
                        let a2 = if a < p { a } else { a - 1 };
                        let b2 = if b < p { b } else { b - 1 };
                        assert(sorted@[a] == old_sorted[a2]);
                        assert(sorted@[b] == old_sorted[b2]);
                    }
                }
            }
            i = i + 1;
        }
        assert(keys@.take(i as int) =~= keys@);
        sorted
    }

    /// The input pin ids from the top of the board down.
    pub fn inputs_sorted(&self) -> (r: Vec<u64>)
        ensures
            r@.no_duplicates(),
            r@.to_set() == self@.inputs.dom(),
            forall|i: int, j: int|
                0 <= i < j < r@.len() ==> self@.inputs[r@[i]].io.y_pos <= self@.inputs[r@[j]].io.y_pos,
    {
        let r = self.io_sorted(IoSel::Input);
        assert(self@.pins(IoSel::Input).dom() =~= self@.inputs.dom());
        r
    }

    /// The output pin ids from the top of the board down.
    pub fn outputs_sorted(&self) -> (r: Vec<u64>)
        ensures
            r@.no_duplicates(),
            r@.to_set() == self@.outputs.dom(),
            forall|i: int, j: int|
                0 <= i < j < r@.len() ==> self@.outputs[r@[i]].y_pos <= self@.outputs[r@[j]].y_pos,
    {
        self.io_sorted(IoSel::Output)
    }

    /// Input `input` of device `device`, if the device exists.
    pub fn get_device_input(&self, device: u64, input: usize) -> (r: Option<bool>)
        requires
            self@.sim_wf(),
            self@.devices.contains_key(device) ==> input < self@.devices[device].data.num_inputs(),
        ensures
            r == self@.target_state(LinkTarget::DeviceInput(device, input)),
    {
        match self.devices.get(device) {
            Some(d) => Some(d.data.input().get(input)),
            None => None,
        }
    }

    /// Output `output` of device `device`, if the device exists.
    pub fn get_device_output(&self, device: u64, output: usize) -> (r: Option<bool>)
        requires
            self@.sim_wf(),
            self@.devices.contains_key(device) ==> output < self@.devices[device].data.num_outputs(),
        ensures
            r == self@.start_state(LinkStart::DeviceOutput(device, output)),
    {
        match self.devices.get(device) {
            Some(d) => Some(d.data.output().get(output)),
            None => None,
        }
    }
}

impl Board {
    /// The ids of the input pins, each once.
    pub fn input_ids(&self) -> (r: Vec<u64>)
        ensures
            r@.no_duplicates(),
            r@.to_set() == self@.inputs.dom(),
    {
        self.inputs.keys()
    }

    /// The ids of the output pins, each once.
    pub fn output_ids(&self) -> (r: Vec<u64>)
        ensures
            r@.no_duplicates(),
            r@.to_set() == self@.outputs.dom(),
    {
        self.outputs.keys()
    }

    /// The ids of the devices, each once.
    pub fn device_ids(&self) -> (r: Vec<u64>)
        ensures
            r@.no_duplicates(),
            r@.to_set() == self@.devices.dom(),
    {
        self.devices.keys()
    }

    /// The ids of the groups of column `sel`, each once.
    pub fn group_ids(&self, sel: IoSel) -> (r: Vec<u64>)
        ensures
            r@.no_duplicates(),
            r@.to_set() == self@.groups(sel).dom(),
    {
        match sel {
            IoSel::Input => self.input_groups.keys(),
            IoSel::Output => self.output_groups.keys(),
        }
    }

    /// Input pin `id`, with its links.
    pub fn input(&self, id: u64) -> (r: Option<&Input>)
        ensures
            r is Some <==> self@.inputs.contains_key(id),
            r matches Some(i) ==> i@ == self@.inputs[id],
    {
        self.inputs.get(id)
    }

    /// Output pin `id`.
    pub fn output(&self, id: u64) -> (r: Option<&Output>)
        ensures
            r is Some <==> self@.outputs.contains_key(id),
            r matches Some(o) ==> o@ == self@.outputs[id],
    {
        self.outputs.get(id)
    }

    /// Device `id`.
    pub fn device(&self, id: u64) -> (r: Option<&Device>)
        ensures
            r is Some <==> self@.devices.contains_key(id),
            r matches Some(d) ==> d@ == self@.devices[id],
    {
        self.devices.get(id)
    }

    /// Puts input pin `input` under `id`, replacing any pin there.
    pub fn insert_input(&mut self, id: u64, input: Input)
        ensures
            final(self)@ == (BoardView { inputs: old(self)@.inputs.insert(id, input@), ..old(self)@ }),
    {
        self.inputs.insert(id, input);
    }

    /// Puts output pin `output` under `id`, replacing any pin there.
    pub fn insert_output(&mut self, id: u64, output: Output)
        ensures
            final(self)@ == (BoardView { outputs: old(self)@.outputs.insert(id, output@), ..old(self)@ }),
    {
        self.outputs.insert(id, output);
    }
}

} // verus!
