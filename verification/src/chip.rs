//! A packed chip placed on a board: gates wired by index, with a write queue
//! of its own.

use crate::bits::{bit_of, changes_from, with_bit, lemma_with_bit_bound, BitField, ChangedOutputs};
use crate::gate::{CombGate, GateView};
use crate::queue::{
    change_writes, fanout, find_ready, flushed, delays_ok, links_view, ticked, all_waiting,
    lemma_none_ready_all_waiting, Write, WriteQueue,
};
use crate::chip_preset::ChipPreset;
use crate::{DeviceInput, LinkTarget};
use vstd::prelude::*;

verus! {

/// A gate inside a chip, with the links of each of its outputs.
#[derive(Debug)]
pub struct ChipDevice {
    pub links: Vec<Vec<LinkTarget<usize>>>,
    pub data: CombGate,
}

/// A chip: its pins, its gates and their wiring, and the queue of writes
/// travelling between them.
pub struct Chip {
    pub write_queue: WriteQueue<usize>,
    pub input: BitField,
    pub output: BitField,
    pub input_links: Vec<Vec<DeviceInput<usize>>>,
    pub devices: Vec<ChipDevice>,
}

/// The state of a chip, as values.
pub struct ChipView {
    pub input: u64,
    pub input_len: nat,
    pub output: u64,
    pub output_len: nat,
    pub input_links: Seq<Seq<DeviceInput<usize>>>,
    pub gates: Seq<GateView>,
    pub links: Seq<Seq<Seq<LinkTarget<usize>>>>,
    pub writes: Seq<Write<usize>>,
    pub buffer: Seq<(LinkTarget<usize>, bool)>,
}

impl View for Chip {
    type V = ChipView;

    open spec fn view(&self) -> ChipView {
        ChipView {
            input: self.input.data,
            input_len: self.input.spec_len(),
            output: self.output.data,
            output_len: self.output.spec_len(),
            input_links: self.input_links@.map_values(|v: Vec<DeviceInput<usize>>| v@),
            gates: self.devices@.map_values(|d: ChipDevice| d.data@),
            links: self.devices@.map_values(|d: ChipDevice| links_view(d.links@)),
            writes: self.write_queue.writes@,
            buffer: self.write_queue.buffer@,
        }
    }
}

impl ChipView {
    /// `t` names an input of a gate of the chip, or an output of the chip.
    pub open spec fn valid_target(self, t: LinkTarget<usize>) -> bool {
        match t {
            LinkTarget::DeviceInput(d, i) => d < self.gates.len() && i < self.gates[d as int].num_inputs,
            LinkTarget::Output(o) => o < self.output_len,
        }
    }

    /// `di` names an input of a gate of the chip.
    pub open spec fn valid_device_input(self, di: DeviceInput<usize>) -> bool {
        di.0 < self.gates.len() && di.1 < self.gates[di.0 as int].num_inputs
    }

    /// Every index in the chip's wiring and queue names a gate pin or a chip
    /// output, and every gate is well formed.
    pub open spec fn wf(self) -> bool {
        &&& self.input_len <= 64
        &&& self.output_len <= 64
        &&& self.input_links.len() == self.input_len
        &&& forall|i: int, k: int|
            0 <= i < self.input_links.len() && 0 <= k < self.input_links[i].len()
                ==> self.valid_device_input(#[trigger] self.input_links[i][k])
        &&& forall|d: int| 0 <= d < self.gates.len() ==> (#[trigger] self.gates[d]).wf()
        &&& self.links.len() == self.gates.len()
        &&& forall|d: int|
            0 <= d < self.links.len() ==> (#[trigger] self.links[d]).len()
                == self.gates[d].num_outputs
        &&& forall|d: int, o: int, k: int|
            0 <= d < self.links.len() && 0 <= o < self.links[d].len() && 0 <= k
                < self.links[d][o].len() ==> self.valid_target(#[trigger] self.links[d][o][k])
        &&& forall|k: int|
            0 <= k < self.writes.len() ==> self.valid_target(#[trigger] self.writes[k].target)
        &&& forall|k: int|
            0 <= k < self.buffer.len() ==> self.valid_target(#[trigger] self.buffer[k].0)
    }

    /// Input `i` of gate `d` takes `state`; the writes for that gate's changed
    /// outputs join the buffer.
    pub open spec fn set_device_input(self, d: nat, i: nat, state: bool) -> ChipView {
        ChipView {
            gates: self.gates.update(d as int, self.gates[d as int].set_input(i, state)),
            buffer: self.buffer + change_writes(
                self.links[d as int],
                self.gates[d as int].set_input_changes(i, state),
            ),
            ..self
        }
    }

    /// Each listed gate input takes `state`, in order.
    pub open spec fn feed(self, dis: Seq<DeviceInput<usize>>, state: bool) -> ChipView
        decreases dis.len(),
    {
        if dis.len() == 0 {
            self
        } else {
            self.set_device_input(dis[0].0 as nat, dis[0].1 as nat, state).feed(
                dis.drop_first(),
                state,
            )
        }
    }

    /// Chip input `i` takes `state`, and so does every gate input linked to it.
    pub open spec fn set_input(self, i: nat, state: bool) -> ChipView {
        ChipView { input: with_bit(self.input, i, state), ..self }.feed(
            self.input_links[i as int],
            state,
        )
    }

    /// `state` lands on `target`.
    pub open spec fn land(self, target: LinkTarget<usize>, state: bool) -> ChipView {
        match target {
            LinkTarget::Output(o) => ChipView { output: with_bit(self.output, o as nat, state), ..self },
            LinkTarget::DeviceInput(d, i) => self.set_device_input(d as nat, i as nat, state),
        }
    }

    /// `other` has the same pins, wiring and tables as `self`.
    pub open spec fn same_wiring(self, other: ChipView) -> bool {
        &&& self.input_len == other.input_len
        &&& self.output_len == other.output_len
        &&& self.input_links == other.input_links
        &&& self.links == other.links
        &&& self.gates.len() == other.gates.len()
        &&& forall|d: int|
            0 <= d < self.gates.len() ==> (#[trigger] self.gates[d]).num_inputs
                == other.gates[d].num_inputs && self.gates[d].num_outputs
                == other.gates[d].num_outputs && self.gates[d].map == other.gates[d].map
    }

    /// Every ready write lands, first ready first.
    pub open spec fn run_ready(self) -> ChipView
        decreases self.writes.len(),
    {
        let k = find_ready(self.writes, 0);
        if 0 <= k < self.writes.len() {
            ChipView { writes: self.writes.remove(k), ..self }.land(
                self.writes[k].target,
                self.writes[k].state,
            ).run_ready()
        } else {
            self
        }
    }
}

/// Setting one gate input keeps the chip well formed.
pub proof fn lemma_set_device_input(v: ChipView, d: nat, i: nat, state: bool)
    requires
        v.wf(),
        d < v.gates.len(),
        i < v.gates[d as int].num_inputs,
    ensures
        v.set_device_input(d, i, state).wf(),
        v.same_wiring(v.set_device_input(d, i, state)),
{
    let r = v.set_device_input(d, i, state);
    let g = v.gates[d as int];
    lemma_with_bit_bound(g.input, i, state, g.num_inputs);
    let ch = g.set_input_changes(i, state);
    crate::bits::lemma_changes_in_range(g.output, g.set_input(i, state).output, 0, g.num_outputs);
    let p = |t: LinkTarget<usize>| v.valid_target(t);
    assert forall|o: int, k: int|
        0 <= o < v.links[d as int].len() && 0 <= k < v.links[d as int][o].len() implies p(
        #[trigger] v.links[d as int][o][k]) by {}
    crate::queue::lemma_change_writes_targets(v.links[d as int], ch, p);
    let cw = change_writes(v.links[d as int], ch);
    assert forall|k: int| 0 <= k < r.buffer.len() implies r.valid_target(#[trigger] r.buffer[k].0) by {
        if k < v.buffer.len() {
            assert(r.buffer[k] == v.buffer[k]);
        } else {
            assert(r.buffer[k] == cw[k - v.buffer.len()]);
            assert(p(cw[k - v.buffer.len()].0));
        }
    }
    assert forall|d2: int| 0 <= d2 < r.gates.len() implies (#[trigger] r.gates[d2]).wf() by {
        if d2 != d {
            assert(r.gates[d2] == v.gates[d2]);
        }
    }
}

/// Feeding a list of gate inputs keeps the chip well formed.
pub proof fn lemma_feed(v: ChipView, dis: Seq<DeviceInput<usize>>, state: bool)
    requires
        v.wf(),
        forall|k: int| 0 <= k < dis.len() ==> v.valid_device_input(#[trigger] dis[k]),
    ensures
        v.feed(dis, state).wf(),
        v.same_wiring(v.feed(dis, state)),
    decreases dis.len(),
{
    if dis.len() > 0 {
        assert(v.valid_device_input(dis[0]));
        lemma_set_device_input(v, dis[0].0 as nat, dis[0].1 as nat, state);
        let v1 = v.set_device_input(dis[0].0 as nat, dis[0].1 as nat, state);
        assert forall|k: int| 0 <= k < dis.drop_first().len() implies v1.valid_device_input(
            #[trigger] dis.drop_first()[k],
        ) by {
            assert(dis.drop_first()[k] == dis[k + 1]);
            assert(v.valid_device_input(dis[k + 1]));
        }
        lemma_feed(v1, dis.drop_first(), state);
    }
}

/// A write landing keeps the chip well formed.
pub proof fn lemma_land(v: ChipView, target: LinkTarget<usize>, state: bool)
    requires
        v.wf(),
        v.valid_target(target),
    ensures
        v.land(target, state).wf(),
        v.same_wiring(v.land(target, state)),
{
    match target {
        LinkTarget::Output(o) => {},
        LinkTarget::DeviceInput(d, i) => {
            lemma_set_device_input(v, d as nat, i as nat, state);
        },
    }
}

/// Landing every ready write keeps the chip well formed and leaves no write
/// ready.
pub proof fn lemma_run_ready(v: ChipView)
    requires
        v.wf(),
    ensures
        v.run_ready().wf(),
        v.same_wiring(v.run_ready()),
        all_waiting(v.run_ready().writes),
    decreases v.writes.len(),
{
    let k = find_ready(v.writes, 0);
    if 0 <= k < v.writes.len() {
        let w = v.writes[k];
        let v0 = ChipView { writes: v.writes.remove(k), ..v };
        assert(v.valid_target(w.target));
        assert forall|j: int| 0 <= j < v0.writes.len() implies v0.valid_target(
            #[trigger] v0.writes[j].target,
        ) by {
            if j < k {
                assert(v0.writes[j] == v.writes[j]);
            } else {
                assert(v0.writes[j] == v.writes[j + 1]);
            }
        }
        lemma_land(v0, w.target, w.state);
        lemma_run_ready(v0.land(w.target, w.state));
    } else {
        crate::queue::lemma_find_ready_range(v.writes, 0);
        lemma_none_ready_all_waiting(v.writes);
    }
}

/// The chip after a tick: the ready writes have landed, the waiting ones
/// count down, and the buffer joins the queue with the extra delays `ds`.
pub open spec fn after_tick(m: ChipView, ds: Seq<u8>) -> ChipView {
    ChipView { writes: flushed(ticked(m.writes), m.buffer, ds), buffer: Seq::empty(), ..m }
}

/// The writes a freshly placed chip starts with: each gate shows its first
/// row, and every output that row turns on sends `true` along its links.
pub open spec fn start_writes(gs: Seq<crate::chip_preset::CombGate>) -> Seq<(LinkTarget<usize>, bool)>
    decreases gs.len(),
{
    if gs.len() == 0 {
        Seq::empty()
    } else {
        let g = gs.last();
        start_writes(gs.drop_last()) + change_writes(
            links_view(g.links@),
            changes_from(0, g.table.map@[0], 0, g.table.num_outputs as nat),
        )
    }
}

/// The state of a gate freshly built from a table: inputs off, first row.
pub open spec fn fresh_gate(t: crate::bits::TruthTable) -> GateView {
    GateView {
        input: 0,
        input_len: t.num_inputs as nat,
        output: t.map@[0],
        output_len: t.num_outputs as nat,
        num_inputs: t.num_inputs as nat,
        num_outputs: t.num_outputs as nat,
        map: t.map@,
    }
}

/// Setting a chip input keeps the chip well formed and its wiring unchanged.
pub proof fn lemma_set_input(v: ChipView, i: nat, state: bool)
    requires
        v.wf(),
        i < v.input_len,
    ensures
        v.set_input(i, state).wf(),
        v.same_wiring(v.set_input(i, state)),
{
    let v1 = ChipView { input: with_bit(v.input, i, state), ..v };
    let dis = v1.input_links[i as int];
    assert forall|k: int| 0 <= k < dis.len() implies v1.valid_device_input(#[trigger] dis[k]) by {
        assert(v1.valid_device_input(v1.input_links[i as int][k]));
    }
    lemma_feed(v1, dis, state);
}

/// A tick keeps the chip well formed and its wiring unchanged.
pub proof fn lemma_after_tick(c: ChipView, ds: Seq<u8>)
    requires
        c.wf(),
    ensures
        after_tick(c.run_ready(), ds).wf(),
        c.same_wiring(after_tick(c.run_ready(), ds)),
{
    lemma_run_ready(c);
    let goal = c.run_ready();
    let p = |t: LinkTarget<usize>| goal.valid_target(t);
    assert forall|k: int| 0 <= k < ticked(goal.writes).len() implies p(
        #[trigger] ticked(goal.writes)[k].target,
    ) by {
        assert(goal.valid_target(goal.writes[k].target));
    }
    assert forall|k: int| 0 <= k < goal.buffer.len() implies p(#[trigger] goal.buffer[k].0) by {}
    crate::queue::lemma_flushed_targets(ticked(goal.writes), goal.buffer, ds, p);
}

impl Clone for ChipDevice {
    fn clone(&self) -> (r: Self)
        ensures
            r.data@ == self.data@,
            links_view(r.links@) == links_view(self.links@),
    {
        let links = crate::copy_nested(&self.links);
        proof {
            assert(links_view(links@) =~= crate::nested_view(links@));
            assert(links_view(self.links@) =~= crate::nested_view(self.links@));
        }
        ChipDevice { links, data: self.data.clone() }
    }
}

impl Chip {
    /// A copy of the chip; its write queue keeps the pending writes, drops
    /// the buffer and starts a fresh generator.
    pub fn duplicate(&self) -> (r: Chip)
        ensures
            r@ == (ChipView { buffer: Seq::empty(), ..self@ }),
    {
        let mut devices: Vec<ChipDevice> = Vec::new();
        let mut i: usize = 0;
        while i < self.devices.len()
            invariant
                i <= self.devices@.len(),
                devices@.len() == i,
                forall|j: int| 0 <= j < i ==> (#[trigger] devices@[j]).data@ == self.devices@[j].data@,
                forall|j: int| 0 <= j < i ==> links_view((#[trigger] devices@[j]).links@) == links_view(self.devices@[j].links@),
            decreases self.devices@.len() - i,
        {
            devices.push(self.devices[i].clone());
            i = i + 1;
        }
        let input_links = crate::copy_nested(&self.input_links);
        let r = Chip {
            write_queue: self.write_queue.duplicate(),
            input: self.input,
            output: self.output,
            input_links,
            devices,
        };
        proof {
            assert(r@.gates =~= self@.gates);
            assert(r@.links =~= self@.links);
            assert(r@.input_links =~= self@.input_links);
            assert(r@.buffer =~= Seq::<(LinkTarget<usize>, bool)>::empty());
        }
        r
    }

    /// A chip built from a packed preset: every pin off, every gate showing
    /// its table's first row, and the writes of each gate's outputs that row
    /// turns on buffered.
    pub fn from_preset(preset: &ChipPreset) -> (r: Chip)
        requires
            preset.buildable(),
        ensures
            preset.wf() ==> r@.wf(),
            r@.input == 0,
            r@.input_len == preset.inputs@.len(),
            r@.output == 0,
            r@.output_len == preset.outputs@.len(),
            r@.input_links == crate::nested_view(preset.input_links@),
            r@.gates == preset.comb_gates@.map_values(
                |g: crate::chip_preset::CombGate| fresh_gate(g.table),
            ),
            r@.links == preset.comb_gates@.map_values(
                |g: crate::chip_preset::CombGate| links_view(g.links@),
            ),
            r@.writes.len() == 0,
            r@.buffer == start_writes(preset.comb_gates@),
    {
        let input = BitField::empty(preset.inputs.len());
        let output = BitField::empty(preset.outputs.len());
        let input_links = crate::copy_nested(&preset.input_links);
        let mut write_queue: WriteQueue<usize> = WriteQueue::empty();
        let mut devices: Vec<ChipDevice> = Vec::new();
        let ghost gs = preset.comb_gates@;
        let mut g: usize = 0;
        while g < preset.comb_gates.len()
            invariant
                g <= gs.len(),
                gs == preset.comb_gates@,
                preset.buildable(),
                devices@.len() == g,
                forall|j: int| 0 <= j < g ==> (#[trigger] devices@[j]).data@ == fresh_gate(gs[j].table),
                forall|j: int| 0 <= j < g ==> links_view((#[trigger] devices@[j]).links@) == links_view(gs[j].links@),
                write_queue.writes@.len() == 0,
                write_queue.buffer@ == start_writes(gs.take(g as int)),
                preset.wf() ==> forall|k: int|
                    0 <= k < write_queue.buffer@.len() ==> preset.valid_target(
                        #[trigger] write_queue.buffer@[k].0,
                    ),
            decreases gs.len() - g,
        {
            let comb_gate = &preset.comb_gates[g];
            assert(comb_gate.table.map@.len() >= 1 && comb_gate.table.num_outputs <= 64
                && comb_gate.table.num_inputs <= 64);
            let num_inputs = comb_gate.table.num_inputs;
            let num_outputs = comb_gate.table.num_outputs;
            let output = comb_gate.table.get(0);
            let mut changes = ChangedOutputs::new(BitField::empty(num_outputs), output);
            let ghost buf0 = write_queue.buffer@;
            proof {
                let lv = links_view(comb_gate.links@);
                let rem = changes.remaining();
                crate::bits::lemma_changes_exact(0, output.data, 0, num_outputs as nat);
                assert forall|k: int| 0 <= k < rem.len() implies (#[trigger] rem[k]).0 < comb_gate.links@.len() by {
                    let p = rem[k].0;
                    let s = rem[k].1;
                    assert(rem[k] == (p, s));
                    assert(rem.contains((p, s)));
                    let pos = p as u64;
                    assert(((0u64 >> pos) & 1u64) == 0u64) by (bit_vector);
                    assert(!bit_of(0u64, p as nat));
                    assert(bit_of(output.data, p as nat));
                    assert(gs[g as int] == *comb_gate);
                    assert(output.data == gs[g as int].table.map@[0]);
                    assert(bit_of(gs[g as int].table.map@[0], p as nat));
                }
                if preset.wf() {
                    let p = |t: LinkTarget<usize>| preset.valid_target(t);
                    assert forall|o: int, k: int| 0 <= o < lv.len() && 0 <= k < lv[o].len() implies p(
                        #[trigger] lv[o][k]) by {
                        assert(lv[o] == comb_gate.links@[o]@);
                    }
                    crate::queue::lemma_change_writes_targets(lv, changes.remaining(), p);
                }
            }
            write_queue.push_changes(&mut changes, &comb_gate.links);
            proof {
                let cw = change_writes(links_view(comb_gate.links@), changes_from(0, output.data, 0, num_outputs as nat));
                if preset.wf() {
                    assert forall|k: int| 0 <= k < write_queue.buffer@.len() implies preset.valid_target(
                        #[trigger] write_queue.buffer@[k].0) by {
                        if k >= buf0.len() {
                            assert(write_queue.buffer@[k] == cw[k - buf0.len()]);
                        }
                    }
                }
            }
            let links = crate::copy_nested(&comb_gate.links);
            let data = CombGate { input: BitField::empty(num_inputs), output, table: comb_gate.table.clone() };
            devices.push(ChipDevice { links, data });
            proof {
                assert(gs.take(g + 1).drop_last() =~= gs.take(g as int));
                assert(gs.take(g + 1).last() == gs[g as int]);
                assert(links_view(comb_gate.links@) =~= crate::nested_view(comb_gate.links@));
            }
            g = g + 1;
        }
        proof {
            assert(gs.take(g as int) =~= gs);
        }
        let r = Chip { write_queue, input, output, input_links, devices };
        proof {
            assert(r@.gates =~= gs.map_values(|g: crate::chip_preset::CombGate| fresh_gate(g.table)));
            assert(r@.links =~= gs.map_values(|g: crate::chip_preset::CombGate| links_view(g.links@)));
            assert(r@.input_links =~= crate::nested_view(preset.input_links@));
        }
        proof {
            if preset.wf() {
            assert forall|d: int| 0 <= d < r@.gates.len() implies (#[trigger] r@.gates[d]).wf() by {
                let t = gs[d].table;
                let n = t.num_inputs as u64;
                assert(0u64 < (1u64 << n)) by (bit_vector)
                    requires
                        n < 64,
                ;
            }
            assert forall|i: int, k: int|
                0 <= i < r@.input_links.len() && 0 <= k < r@.input_links[i].len()
                    implies r@.valid_device_input(#[trigger] r@.input_links[i][k]) by {
                assert(r@.input_links[i] == preset.input_links@[i]@);
                assert(preset.valid_device_input(preset.input_links@[i]@[k]));
            }
            assert forall|d: int, o: int, k: int|
                0 <= d < r@.links.len() && 0 <= o < r@.links[d].len() && 0 <= k < r@.links[d][o].len()
                    implies r@.valid_target(#[trigger] r@.links[d][o][k]) by {
                assert(r@.links[d][o] == gs[d].links@[o]@);
                assert(preset.valid_target(gs[d].links@[o]@[k]));
            }
            assert forall|k: int| 0 <= k < r@.buffer.len() implies r@.valid_target(#[trigger] r@.buffer[k].0) by {
                assert(preset.valid_target(r@.buffer[k].0));
            }
            }
        }
        r
    }

    /// Input `input` of gate `device` takes `state`; the writes for the
    /// gate's changed outputs are buffered.
    fn set_device_input(&mut self, device: usize, input: usize, state: bool)
        requires
            old(self)@.wf(),
            device < old(self)@.gates.len(),
            input < old(self)@.gates[device as int].num_inputs,
        ensures
            final(self)@ == old(self)@.set_device_input(device as nat, input as nat, state),
            final(self)@.wf(),
    {
        proof {
            lemma_set_device_input(self@, device as nat, input as nat, state);
        }
        let ghost v0 = self@;
        let dev = &mut self.devices[device];
        let mut changes = dev.data.set_input(input, state);
        proof {
            changes.lemma_remaining_bound();
        }
        self.write_queue.push_changes(&mut changes, &dev.links);
        assert(self@.gates =~= v0.set_device_input(device as nat, input as nat, state).gates);
        assert(self@.links =~= v0.links);
    }

    /// `state` lands on `target`; for a chip output, the change is returned.
    fn set_link_target(&mut self, target: LinkTarget<usize>, state: bool) -> (r: Option<
        crate::bits::ChangedOutput,
    >)
        requires
            old(self)@.wf(),
            old(self)@.valid_target(target),
        ensures
            final(self)@ == old(self)@.land(target, state),
            final(self)@.wf(),
            match target {
                LinkTarget::Output(o) => r matches Some(c) && c.output == o && c.state == state,
                LinkTarget::DeviceInput(_, _) => r is None,
            },
    {
        proof {
            lemma_land(self@, target, state);
        }
        match target {
            LinkTarget::Output(output) => {
                self.output.set(output, state);
                Some(crate::bits::ChangedOutput { output, state })
            },
            LinkTarget::DeviceInput(device, input) => {
                self.set_device_input(device, input, state);
                None
            },
        }
    }

    /// Chip input `input` takes `state`, and so does every gate input linked
    /// to it, in order.
    pub fn set_input(&mut self, input: usize, state: bool)
        requires
            old(self)@.wf(),
            input < old(self)@.input_len,
        ensures
            final(self)@ == old(self)@.set_input(input as nat, state),
            final(self)@.wf(),
    {
        let ghost goal = old(self)@.set_input(input as nat, state);
        self.input.set(input, state);
        let ghost dis = self@.input_links[input as int];
        let ghost v1 = self@;
        proof {
            assert(v1 == ChipView { input: with_bit(old(self)@.input, input as nat, state), ..old(self)@ });
            assert(dis.skip(0) =~= dis);
            assert forall|k: int| 0 <= k < dis.len() implies v1.valid_device_input(#[trigger] dis[k]) by {
                assert(v1.valid_device_input(v1.input_links[input as int][k]));
            }
            lemma_feed(v1, dis, state);
        }
        let n = self.input_links[input].len();
        let mut k: usize = 0;
        while k < n
            invariant
                self@.wf(),
                k <= n,
                n == dis.len(),
                v1.same_wiring(self@),
                dis == self@.input_links[input as int],
                input < self@.input_len,
                self@.feed(dis.skip(k as int), state) == goal,
            decreases n - k,
        {
            let di = self.input_links[input][k];
            proof {
                assert(dis.skip(k as int)[0] == di);
                assert(dis.skip(k as int).drop_first() =~= dis.skip(k + 1));
                assert(self@.valid_device_input(self@.input_links[input as int][k as int]));
            }
            self.set_device_input(di.0, di.1, state);
            proof {
                lemma_set_device_input(
                    self@, di.0 as nat, di.1 as nat, state);
            }
            k = k + 1;
        }
        proof {
            assert(dis.skip(n as int) =~= Seq::<DeviceInput<usize>>::empty());
        }
    }

    /// One tick of the chip: every ready write lands (in order), the waiting
    /// writes count down, and the writes produced meanwhile join the queue.
    /// Returns the chip outputs that changed.
    pub fn update(&mut self) -> (r: ChangedOutputs)
        requires
            old(self)@.wf(),
        ensures
            final(self)@.wf(),
            exists|ds: Seq<u8>|
                ds.len() == old(self)@.run_ready().buffer.len() && delays_ok(ds) && final(self)@
                    == after_tick(old(self)@.run_ready(), ds),
            r.wf(),
            r.bound() == old(self)@.output_len,
            r.remaining() == changes_from(
                old(self)@.output,
                final(self)@.output,
                0,
                old(self)@.output_len,
            ),
    {
        let prev_output = self.output;
        let ghost goal = self@.run_ready();
        proof {
            lemma_run_ready(self@);
        }
        let mut done = false;
        while !done
            invariant
                self@.wf(),
                self@.run_ready() == goal,
                self@.output_len == old(self)@.output_len,
                done ==> self@ == goal,
            decreases self@.writes.len() + (if done { 0int } else { 1int }),
        {
            let ghost before = self@;
            match self.write_queue.next() {
                Some(write) => {
                    proof {
                        crate::queue::lemma_find_ready_range(before.writes, 0);
                        let k = find_ready(before.writes, 0);
                        assert(self@ == ChipView { writes: before.writes.remove(k), ..before });
                        assert(before.valid_target(before.writes[k].target));
                        assert forall|j: int| 0 <= j < self@.writes.len() implies self@.valid_target(
                            #[trigger] self@.writes[j].target,
                        ) by {
                            if j < k {
                                assert(self@.writes[j] == before.writes[j]);
                            } else {
                                assert(self@.writes[j] == before.writes[j + 1]);
                            }
                        }
                    }
                    self.set_link_target(write.target, write.state);
                },
                None => {
                    proof {
                        crate::queue::lemma_find_ready_range(before.writes, 0);
                    }
                    done = true;
                },
            }
        }
        proof {
            lemma_run_ready(old(self)@);
        }
        self.write_queue.update();
        self.write_queue.flush();
        proof {
            let ds = choose|ds: Seq<u8>|
                ds.len() == goal.buffer.len() && delays_ok(ds) && self@.writes == flushed(
                    ticked(goal.writes),
                    goal.buffer,
                    ds,
                );
            let p = |t: LinkTarget<usize>| goal.valid_target(t);
            assert forall|k: int| 0 <= k < ticked(goal.writes).len() implies p(
                #[trigger] ticked(goal.writes)[k].target,
            ) by {
                assert(goal.valid_target(goal.writes[k].target));
            }
            assert forall|k: int| 0 <= k < goal.buffer.len() implies p(#[trigger] goal.buffer[k].0) by {}
            crate::queue::lemma_flushed_targets(ticked(goal.writes), goal.buffer, ds, p);
            assert(self@.buffer =~= Seq::<(LinkTarget<usize>, bool)>::empty());
            assert(self@ == after_tick(goal, ds));
        }
        ChangedOutputs::new(prev_output, self.output)
    }
}

} // verus!
