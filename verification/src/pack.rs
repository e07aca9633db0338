//! Packing a board into a chip preset: chips placed on the board are
//! unnested into their gates, every gate gets an index, and every link is
//! rewritten to point at gate indices and output indices.

use crate::board::{link_targets, Board, BoardView, DeviceData, DeviceDataView, IoSel};
use crate::chip_preset::{ChipPreset, CombGate as PackedGate};
use crate::presets::{chip_gate_view, sorted_pins, strings_view, ChipGateView, ChipPresetView};
use crate::{nested_view, targets_of, DeviceInput, Link, LinkTarget};
use vstd::prelude::*;

verus! {

/// The first position of `x` in `s`, or `-1`.
pub open spec fn pos_in<A>(s: Seq<A>, x: A) -> int
    decreases s.len(),
{
    if s.len() == 0 {
        -1
    } else if pos_in(s.drop_last(), x) >= 0 {
        pos_in(s.drop_last(), x)
    } else if s.last() == x {
        s.len() - 1
    } else {
        -1
    }
}

/// `pos_in` finds the first occurrence, and finds one whenever there is one.
pub proof fn lemma_pos_in<A>(s: Seq<A>, x: A)
    ensures
        -1 <= pos_in(s, x) < s.len(),
        pos_in(s, x) >= 0 ==> s[pos_in(s, x)] == x,
        pos_in(s, x) < 0 <==> !s.contains(x),
        forall|j: int| 0 <= j < s.len() && (pos_in(s, x) < 0 || j < pos_in(s, x)) ==> s[j] != x,
    decreases s.len(),
{
    if s.len() > 0 {
        lemma_pos_in(s.drop_last(), x);
        assert forall|j: int| 0 <= j < s.len() - 1 implies s.drop_last()[j] == #[trigger] s[j] by {}
        if pos_in(s, x) < 0 {
            assert forall|j: int| 0 <= j < s.len() implies s[j] != x by {}
        } else {
            assert(s.contains(x)) by {
                assert(s[pos_in(s, x)] == x);
            }
        }
    }
}

/// `key` names a gate of board `b`: a gate device (no index), or gate `k`
/// of a chip device.
pub open spec fn key_ok(b: BoardView, key: (u64, Option<usize>)) -> bool {
    b.devices.contains_key(key.0) && match b.devices[key.0].data {
        DeviceDataView::CombGate(_) => key.1 is None,
        DeviceDataView::Chip(c) => key.1 matches Some(k) && k < c.gates.len(),
    }
}

/// `keys` names every gate of `b` once.
pub open spec fn gate_keys(b: BoardView, keys: Seq<(u64, Option<usize>)>) -> bool {
    &&& keys.no_duplicates()
    &&& forall|k: (u64, Option<usize>)| #[trigger] keys.contains(k) <==> key_ok(b, k)
}

/// Input `di.1` of gate `di.0` of chip `d`, once packed.
pub open spec fn chip_gate_input(keys: Seq<(u64, Option<usize>)>, d: u64, di: DeviceInput<usize>) -> LinkTarget<
    usize,
> {
    LinkTarget::DeviceInput(pos_in(keys, (d, Some(di.0))) as usize, di.1)
}

/// Where a write to `t` goes once packed: an output becomes its index in
/// `outs`; an input of a gate device becomes that gate's index in `keys`;
/// an input of a chip becomes those gate inputs that the chip input leads to.
pub open spec fn packed_target(
    b: BoardView,
    keys: Seq<(u64, Option<usize>)>,
    outs: Seq<u64>,
    t: LinkTarget<u64>,
) -> Seq<LinkTarget<usize>> {
    match t {
        LinkTarget::Output(o) => seq![LinkTarget::Output(pos_in(outs, o) as usize)],
        LinkTarget::DeviceInput(d, i) => match b.devices[d].data {
            DeviceDataView::Chip(c) => c.input_links[i as int].map_values(
                |di: DeviceInput<usize>| chip_gate_input(keys, d, di),
            ),
            DeviceDataView::CombGate(_) => seq![LinkTarget::DeviceInput(pos_in(keys, (d, None)) as usize, i)],
        },
    }
}

/// The packed targets of a list of targets, in order.
pub open spec fn packed_targets(
    b: BoardView,
    keys: Seq<(u64, Option<usize>)>,
    outs: Seq<u64>,
    ts: Seq<LinkTarget<u64>>,
) -> Seq<LinkTarget<usize>>
    decreases ts.len(),
{
    if ts.len() == 0 {
        seq![]
    } else {
        packed_targets(b, keys, outs, ts.drop_last()) + packed_target(b, keys, outs, ts.last())
    }
}

/// Where a write from a gate inside chip `d` to `t` goes once packed: a
/// gate of the chip becomes its index, a chip output becomes the packed
/// targets of the chip's links from that output.
pub open spec fn packed_inner(
    b: BoardView,
    keys: Seq<(u64, Option<usize>)>,
    outs: Seq<u64>,
    d: u64,
    t: LinkTarget<usize>,
) -> Seq<LinkTarget<usize>> {
    match t {
        LinkTarget::DeviceInput(j, i) => seq![LinkTarget::DeviceInput(pos_in(keys, (d, Some(j))) as usize, i)],
        LinkTarget::Output(o) => packed_targets(b, keys, outs, link_targets(b.devices[d].links)[o as int]),
    }
}

/// The packed targets of a list of targets inside chip `d`, in order.
pub open spec fn packed_inners(
    b: BoardView,
    keys: Seq<(u64, Option<usize>)>,
    outs: Seq<u64>,
    d: u64,
    ts: Seq<LinkTarget<usize>>,
) -> Seq<LinkTarget<usize>>
    decreases ts.len(),
{
    if ts.len() == 0 {
        seq![]
    } else {
        packed_inners(b, keys, outs, d, ts.drop_last()) + packed_inner(b, keys, outs, d, ts.last())
    }
}

/// The packed gate named by `key`: its table, and its links packed.
pub open spec fn packed_gate(
    b: BoardView,
    keys: Seq<(u64, Option<usize>)>,
    outs: Seq<u64>,
    key: (u64, Option<usize>),
) -> ChipGateView {
    let dev = b.devices[key.0];
    match dev.data {
        DeviceDataView::CombGate(g) => ChipGateView {
            num_inputs: g.num_inputs as usize,
            num_outputs: g.num_outputs as usize,
            map: g.map,
            links: link_targets(dev.links).map_values(
                |ts: Seq<LinkTarget<u64>>| packed_targets(b, keys, outs, ts),
            ),
        },
        DeviceDataView::Chip(c) => {
            let k = key.1->Some_0 as int;
            ChipGateView {
                num_inputs: c.gates[k].num_inputs as usize,
                num_outputs: c.gates[k].num_outputs as usize,
                map: c.gates[k].map,
                links: c.links[k].map_values(
                    |ts: Seq<LinkTarget<usize>>| packed_inners(b, keys, outs, key.0, ts),
                ),
            }
        },
    }
}

/// A device input, from a target known to be one.
pub open spec fn as_device_input(t: LinkTarget<usize>) -> DeviceInput<usize> {
    match t {
        LinkTarget::DeviceInput(d, i) => DeviceInput(d, i),
        LinkTarget::Output(o) => DeviceInput(o, 0),
    }
}

/// Board `b` packed with gate order `keys`, inputs `ins` and outputs `outs`.
pub open spec fn packed(
    b: BoardView,
    keys: Seq<(u64, Option<usize>)>,
    ins: Seq<u64>,
    outs: Seq<u64>,
) -> ChipPresetView {
    ChipPresetView {
        inputs: ins.map_values(|id: u64| b.inputs[id].io.name),
        outputs: outs.map_values(|id: u64| b.outputs[id].name),
        input_links: ins.map_values(
            |id: u64|
                packed_targets(b, keys, outs, targets_of(b.inputs[id].links)).map_values(
                    |t: LinkTarget<usize>| as_device_input(t),
                ),
        ),
        gates: keys.map_values(|k: (u64, Option<usize>)| packed_gate(b, keys, outs, k)),
    }
}

/// Where a board pin linked to a chip leads once packed: when pin `ins[k]`
/// has one link, into pin `i` of chip device `d`, packed pin `k` leads to
/// the gates that pin `i` of the chip leads to, one for one, in order.
pub proof fn lemma_packed_chip_input(
    b: BoardView,
    keys: Seq<(u64, Option<usize>)>,
    ins: Seq<u64>,
    outs: Seq<u64>,
    k: int,
    d: u64,
    i: usize,
)
    requires
        0 <= k < ins.len(),
        b.inputs.contains_key(ins[k]),
        b.inputs[ins[k]].links.len() == 1,
        b.inputs[ins[k]].links[0].target == LinkTarget::<u64>::DeviceInput(d, i),
        b.devices.contains_key(d),
        b.devices[d].data is Chip,
        i < b.devices[d].data->Chip_0.input_links.len(),
    ensures
        ({
            let c = b.devices[d].data->Chip_0;
            let got = packed(b, keys, ins, outs).input_links[k];
            &&& got.len() == c.input_links[i as int].len()
            &&& forall|j: int|
                0 <= j < got.len() ==> #[trigger] got[j] == DeviceInput(
                    pos_in(keys, (d, Some(c.input_links[i as int][j].0))) as usize,
                    c.input_links[i as int][j].1,
                )
        }),
{
    let c = b.devices[d].data->Chip_0;
    let ts = targets_of(b.inputs[ins[k]].links);
    assert(ts =~= seq![LinkTarget::<u64>::DeviceInput(d, i)]);
    assert(ts.drop_last() =~= Seq::<LinkTarget<u64>>::empty());
    assert(packed_targets(b, keys, outs, ts.drop_last()) =~= Seq::<LinkTarget<usize>>::empty());
    assert(ts.last() == LinkTarget::<u64>::DeviceInput(d, i));
    let pt = packed_targets(b, keys, outs, ts);
    assert(pt =~= packed_target(b, keys, outs, LinkTarget::<u64>::DeviceInput(d, i)));
    assert(pt =~= c.input_links[i as int].map_values(|di: DeviceInput<usize>| chip_gate_input(keys, d, di)));
}

/// A write to `t` lands on something that exists.
pub open spec fn target_exists(b: BoardView, t: LinkTarget<u64>) -> bool {
    match t {
        LinkTarget::DeviceInput(d, _) => b.devices.contains_key(d),
        LinkTarget::Output(o) => b.outputs.contains_key(o),
    }
}

/// Every link of `b` leads to something that exists, and input pins lead
/// only to device inputs.
pub open spec fn packable(b: BoardView) -> bool {
    &&& forall|i: u64, k: int|
        #![trigger b.inputs[i].links[k]]
        b.inputs.contains_key(i) && 0 <= k < b.inputs[i].links.len() ==> b.inputs[i].links[k].target is DeviceInput
            && target_exists(b, b.inputs[i].links[k].target)
    &&& forall|d: u64, o: int, k: int|
        #![trigger b.devices[d].links[o][k]]
        b.devices.contains_key(d) && 0 <= o < b.devices[d].links.len() && 0 <= k < b.devices[d].links[o].len()
            ==> target_exists(b, b.devices[d].links[o][k].target)
}

/// Whether `t` leads to something that exists on `board`.
fn target_there(board: &Board, t: LinkTarget<u64>) -> (r: bool)
    ensures
        r == target_exists(board@, t),
{
    match t {
        LinkTarget::DeviceInput(d, _) => board.device(d).is_some(),
        LinkTarget::Output(o) => board.output(o).is_some(),
    }
}

/// Whether `board` can be packed into a chip: every link leads to something
/// that exists, and no input pin leads straight to an output pin.
pub fn is_packable(board: &Board) -> (r: bool)
    ensures
        r == packable(board@),
{
    let ghost b = board@;
    let ins = board.input_ids();
    let mut i: usize = 0;
    while i < ins.len()
        invariant
            b == board@,
            i <= ins@.len(),
            ins@.to_set() == b.inputs.dom(),
            forall|j: int, k: int|
                #![trigger b.inputs[ins@[j]].links[k]]
                0 <= j < i && 0 <= k < b.inputs[ins@[j]].links.len() ==> b.inputs[ins@[j]].links[k].target is DeviceInput
                    && target_exists(b, b.inputs[ins@[j]].links[k].target),
        decreases ins@.len() - i,
    {
        assert(ins@.to_set().contains(ins@[i as int]));
        let inp = board.input(ins[i]).unwrap();
        let mut k: usize = 0;
        while k < inp.links.len()
            invariant
                b == board@,
                i < ins@.len(),
                b.inputs.contains_key(ins@[i as int]),
                inp@ == b.inputs[ins@[i as int]],
                k <= inp.links@.len(),
                forall|q: int|
                    0 <= q < k ==> (#[trigger] b.inputs[ins@[i as int]].links[q]).target is DeviceInput && target_exists(
                        b,
                        b.inputs[ins@[i as int]].links[q].target,
                    ),
            decreases inp.links@.len() - k,
        {
            let t = inp.links[k].target;
            assert(b.inputs[ins@[i as int]].links[k as int].target == t);
            match t {
                LinkTarget::Output(_) => {
                    return false;
                },
                LinkTarget::DeviceInput(_, _) => {},
            }
            if !target_there(board, t) {
                return false;
            }
            k = k + 1;
        }
        i = i + 1;
    }
    let ds = board.device_ids();
    let mut i: usize = 0;
    while i < ds.len()
        invariant
            b == board@,
            i <= ds@.len(),
            ds@.to_set() == b.devices.dom(),
            forall|j: int, o: int, k: int|
                #![trigger b.devices[ds@[j]].links[o][k]]
                0 <= j < i && 0 <= o < b.devices[ds@[j]].links.len() && 0 <= k < b.devices[ds@[j]].links[o].len()
                    ==> target_exists(b, b.devices[ds@[j]].links[o][k].target),
        decreases ds@.len() - i,
    {
        assert(ds@.to_set().contains(ds@[i as int]));
        let dev = board.device(ds[i]).unwrap();
        let ghost dv = b.devices[ds@[i as int]];
        assert(dev@.links.len() == dev.links@.len());
        let mut o: usize = 0;
        while o < dev.links.len()
            invariant
                b == board@,
                i < ds@.len(),
                dev@ == dv,
                b.devices.contains_key(ds@[i as int]),
                dv == b.devices[ds@[i as int]],
                dv.links.len() == dev.links@.len(),
                o <= dev.links@.len(),
                forall|o2: int, k: int|
                    #![trigger dv.links[o2][k]]
                    0 <= o2 < o && 0 <= k < dv.links[o2].len() ==> target_exists(b, dv.links[o2][k].target),
            decreases dev.links@.len() - o,
        {
            let ls = &dev.links[o];
            assert(dv.links[o as int] == ls@.map_values(|l: Link| l@));
            let mut k: usize = 0;
            while k < ls.len()
                invariant
                    b == board@,
                    o < dev.links@.len(),
                    b.devices.contains_key(ds@[i as int]),
                    dv == b.devices[ds@[i as int]],
                    dv.links.len() == dev.links@.len(),
                    dv.links[o as int] == ls@.map_values(|l: Link| l@),
                    k <= ls@.len(),
                    forall|q: int| 0 <= q < k ==> target_exists(b, (#[trigger] dv.links[o as int][q]).target),
                decreases ls@.len() - k,
            {
                assert(dv.links[o as int][k as int].target == ls@[k as int].target);
                if !target_there(board, ls[k].target) {
                    proof {
                        let d = ds@[i as int];
                        assert(!target_exists(b, b.devices[d].links[o as int][k as int].target));
                    }
                    return false;
                }
                k = k + 1;
            }
            o = o + 1;
        }
        i = i + 1;
    }
    proof {
        assert forall|a: u64, k: int|
            #![trigger b.inputs[a].links[k]]
            b.inputs.contains_key(a) && 0 <= k < b.inputs[a].links.len() implies b.inputs[a].links[k].target is DeviceInput
            && target_exists(b, b.inputs[a].links[k].target) by {
            assert(ins@.to_set().contains(a));
            let j = choose|j: int| 0 <= j < ins@.len() && ins@[j] == a;
        }
        assert forall|d: u64, o: int, k: int|
            #![trigger b.devices[d].links[o][k]]
            b.devices.contains_key(d) && 0 <= o < b.devices[d].links.len() && 0 <= k < b.devices[d].links[o].len()
            implies target_exists(b, b.devices[d].links[o][k].target) by {
            assert(ds@.to_set().contains(d));
            let j = choose|j: int| 0 <= j < ds@.len() && ds@[j] == d;
        }
    }
    true
}

/// The position of `o` in `outs`.
fn out_pos(outs: &Vec<u64>, o: u64) -> (r: usize)
    requires
        outs@.contains(o),
    ensures
        r == pos_in(outs@, o),
{
    proof {
        lemma_pos_in(outs@, o);
    }
    let mut i: usize = 0;
    while i < outs.len()
        invariant
            i <= outs@.len(),
            outs@.contains(o),
            -1 <= pos_in(outs@, o) < outs@.len(),
            pos_in(outs@, o) >= 0,
            outs@[pos_in(outs@, o)] == o,
            forall|j: int| 0 <= j < outs@.len() && j < pos_in(outs@, o) ==> outs@[j] != o,
            i <= pos_in(outs@, o),
        decreases outs@.len() - i,
    {
        if outs[i] == o {
            return i;
        }
        i = i + 1;
    }
    0
}

/// The position of gate `(d, sub)` in `keys`.
fn key_pos(keys: &Vec<(u64, Option<usize>)>, d: u64, sub: Option<usize>) -> (r: usize)
    requires
        keys@.contains((d, sub)),
    ensures
        r == pos_in(keys@, (d, sub)),
{
    proof {
        lemma_pos_in(keys@, (d, sub));
    }
    let mut i: usize = 0;
    while i < keys.len()
        invariant
            i <= keys@.len(),
            pos_in(keys@, (d, sub)) >= 0,
            pos_in(keys@, (d, sub)) < keys@.len(),
            keys@[pos_in(keys@, (d, sub))] == (d, sub),
            forall|j: int| 0 <= j < keys@.len() && j < pos_in(keys@, (d, sub)) ==> keys@[j] != (d, sub),
            i <= pos_in(keys@, (d, sub)),
        decreases keys@.len() - i,
    {
        let k = keys[i];
        let same_sub = match (k.1, sub) {
            (Some(a), Some(b)) => a == b,
            (None, None) => true,
            _ => false,
        };
        if k.0 == d && same_sub {
            assert(keys@[i as int] == (d, sub));
            return i;
        }
        i = i + 1;
    }
    0
}

/// Pushing `x` adds exactly `x`, and keeps a list free of duplicates when
/// `x` was not in it.
proof fn lemma_push_contains<A>(s: Seq<A>, x: A)
    ensures
        forall|y: A| #[trigger] s.push(x).contains(y) <==> s.contains(y) || y == x,
        s.no_duplicates() && !s.contains(x) ==> s.push(x).no_duplicates(),
{
    assert forall|y: A| #[trigger] s.push(x).contains(y) <==> s.contains(y) || y == x by {
        if s.contains(y) {
            let j = choose|j: int| 0 <= j < s.len() && s[j] == y;
            assert(s.push(x)[j] == y);
        }
        if y == x {
            assert(s.push(x)[s.len() as int] == y);
        }
        if s.push(x).contains(y) && y != x {
            let j = choose|j: int| 0 <= j < s.len() + 1 && s.push(x)[j] == y;
            assert(s[j] == y);
        }
    }
    if s.no_duplicates() && !s.contains(x) {
        assert forall|i: int, j: int| 0 <= i < s.len() + 1 && 0 <= j < s.len() + 1 && i != j implies s.push(x)[i]
            != s.push(x)[j] by {
            if i < s.len() && j < s.len() {
            } else if i < s.len() {
                assert(s.contains(s[i]));
            } else {
                assert(s.contains(s[j]));
            }
        }
    }
}

/// The first `i + 1` entries hold what the first `i` hold and entry `i`.
proof fn lemma_take_push_contains<A>(s: Seq<A>, i: int, y: A)
    requires
        0 <= i < s.len(),
    ensures
        s.take(i + 1).contains(y) <==> s.take(i).contains(y) || y == s[i],
{
    assert(s.take(i + 1) =~= s.take(i).push(s[i]));
    lemma_push_contains(s.take(i), s[i]);
}

/// `x` is gate `q` of chip `d`, for some `q` below `k`.
pub open spec fn sub_below(x: (u64, Option<usize>), d: u64, k: int) -> bool {
    x.0 == d && match x.1 {
        Some(q) => q < k,
        None => false,
    }
}

/// The gates of `board`, each once: the devices in map order, a chip
/// contributing each of its gates in turn.
fn gate_keys_of(board: &Board) -> (r: Vec<(u64, Option<usize>)>)
    ensures
        gate_keys(board@, r@),
{
    let ghost b = board@;
    let devs = board.devices.keys();
    let mut keys: Vec<(u64, Option<usize>)> = Vec::new();
    let mut i: usize = 0;
    while i < devs.len()
        invariant
            b == board@,
            devs@.no_duplicates(),
            devs@.to_set() == b.devices.dom(),
            i <= devs@.len(),
            keys@.no_duplicates(),
            forall|k: (u64, Option<usize>)| #[trigger] keys@.contains(k) <==> key_ok(b, k) && devs@.take(
                i as int,
            ).contains(k.0),
        decreases devs@.len() - i,
    {
        let d = devs[i];
        let ghost t0 = devs@.take(i as int);
        let ghost t1 = devs@.take(i + 1);
        proof {
            assert(devs@.to_set().contains(d));
            assert forall|k: (u64, Option<usize>)| keys@.contains(k) implies k.0 != d by {
                if k.0 == d {
                    let j = choose|j: int| 0 <= j < i && t0[j] == d;
                    assert(devs@[j] == devs@[i as int]);
                }
            }
        }
        let ghost before = keys@;
        match board.devices.get(d) {
            Some(dev) => {
                match &dev.data {
                    DeviceData::CombGate(_) => {
                        proof {
                            lemma_push_contains(before, (d, None));
                        }
                        keys.push((d, None));
                        proof {
                            assert forall|k: (u64, Option<usize>)| #[trigger] keys@.contains(k) <==> key_ok(b, k)
                                && t1.contains(k.0) by {
                                lemma_take_push_contains(devs@, i as int, k.0);
                            }
                        }
                    },
                    DeviceData::Chip(c) => {
                        let n = c.devices.len();
                        let mut k: usize = 0;
                        while k < n
                            invariant
                                b == board@,
                                b.devices.contains_key(d),
                                b.devices[d].data == dev@.data,
                                dev@.data is Chip,
                                n == dev@.data->Chip_0.gates.len(),
                                k <= n,
                                keys@.no_duplicates(),
                                forall|x: (u64, Option<usize>)| before.contains(x) ==> x.0 != d,
                                forall|x: (u64, Option<usize>)| #[trigger] keys@.contains(x) <==> before.contains(x)
                                    || sub_below(x, d, k as int),
                            decreases n - k,
                        {
                            proof {
                                assert(!keys@.contains((d, Some(k))));
                                lemma_push_contains(keys@, (d, Some(k)));
                            }
                            keys.push((d, Some(k)));
                            k = k + 1;
                        }
                        proof {
                            assert forall|x: (u64, Option<usize>)| #[trigger] keys@.contains(x) <==> key_ok(b, x)
                                && t1.contains(x.0) by {
                                lemma_take_push_contains(devs@, i as int, x.0);
                            }
                        }
                    },
                }
            },
            None => {
                assert(false);
            },
        }
        i = i + 1;
    }
    proof {
        assert(devs@.take(i as int) =~= devs@);
        assert forall|k: (u64, Option<usize>)| #[trigger] keys@.contains(k) <==> key_ok(b, k) by {
            if key_ok(b, k) {
                assert(devs@.to_set().contains(k.0));
            }
        }
    }
    keys
}

/// The views of a list of links.
pub open spec fn links_of(v: Seq<Link>) -> Seq<crate::LinkView> {
    v.map_values(|l: Link| l@)
}

/// Appends the packed targets of `t`.
fn push_packed(
    board: &Board,
    keys: &Vec<(u64, Option<usize>)>,
    outs: &Vec<u64>,
    t: LinkTarget<u64>,
    acc: &mut Vec<LinkTarget<usize>>,
)
    requires
        board@.sim_wf(),
        gate_keys(board@, keys@),
        outs@.to_set() == board@.outputs.dom(),
        target_exists(board@, t),
        board@.target_ok(t),
    ensures
        final(acc)@ == old(acc)@ + packed_target(board@, keys@, outs@, t),
{
    let ghost b = board@;
    match t {
        LinkTarget::Output(o) => {
            assert(outs@.to_set().contains(o));
            acc.push(LinkTarget::Output(out_pos(outs, o)));
            assert(acc@ =~= old(acc)@ + packed_target(b, keys@, outs@, t));
        },
        LinkTarget::DeviceInput(d, i) => {
            match board.devices.get(d) {
                Some(dev) => {
                    match &dev.data {
                        DeviceData::CombGate(_) => {
                            assert(key_ok(b, (d, None)));
                            acc.push(LinkTarget::DeviceInput(key_pos(keys, d, None), i));
                            assert(acc@ =~= old(acc)@ + packed_target(b, keys@, outs@, t));
                        },
                        DeviceData::Chip(c) => {
                            assert(b.devices[d].wf());
                            let links = &c.input_links[i];
                            let mut k: usize = 0;
                            while k < links.len()
                                invariant
                                    b == board@,
                                    gate_keys(b, keys@),
                                    b.devices.contains_key(d),
                                    b.devices[d].data == dev@.data,
                                    dev@.data == DeviceDataView::Chip(c@),
                                    c@.wf(),
                                    i < c@.input_links.len(),
                                    links@ == c@.input_links[i as int],
                                    k <= links@.len(),
                                    acc@ == old(acc)@ + links@.take(k as int).map_values(|di: DeviceInput<usize>| chip_gate_input(keys@, d, di)),
                                decreases links@.len() - k,
                            {
                                let di = links[k];
                                assert(c@.valid_device_input(c@.input_links[i as int][k as int]));
                                assert(key_ok(b, (d, Some(di.0))));
                                let ghost prefix = links@.take(k as int).map_values(|di: DeviceInput<usize>| chip_gate_input(keys@, d, di));
                                let p = key_pos(keys, d, Some(di.0));
                                acc.push(LinkTarget::DeviceInput(p, di.1));
                                proof {
                                    assert(LinkTarget::DeviceInput(p, di.1) == chip_gate_input(keys@, d, di));
                                    assert(links@.take(k + 1).map_values(|di: DeviceInput<usize>| chip_gate_input(keys@, d, di)) =~= prefix.push(chip_gate_input(keys@, d, di)));
                                    assert(acc@ =~= old(acc)@ + prefix.push(chip_gate_input(keys@, d, di)));
                                }
                                k = k + 1;
                            }
                            assert(links@.take(k as int) =~= links@);
                        },
                    }
                },
                None => {},
            }
        },
    }
}

/// Appends the packed targets of each of `links`, in order.
fn push_packed_all(
    board: &Board,
    keys: &Vec<(u64, Option<usize>)>,
    outs: &Vec<u64>,
    links: &Vec<Link>,
    acc: &mut Vec<LinkTarget<usize>>,
)
    requires
        board@.sim_wf(),
        gate_keys(board@, keys@),
        outs@.to_set() == board@.outputs.dom(),
        forall|k: int| 0 <= k < links@.len() ==> target_exists(board@, (#[trigger] links@[k]).target),
        forall|k: int| 0 <= k < links@.len() ==> board@.target_ok((#[trigger] links@[k]).target),
    ensures
        final(acc)@ == old(acc)@ + packed_targets(board@, keys@, outs@, targets_of(links_of(links@))),
{
    let ghost ts = targets_of(links_of(links@));
    let mut k: usize = 0;
    while k < links.len()
        invariant
            board@.sim_wf(),
            gate_keys(board@, keys@),
            outs@.to_set() == board@.outputs.dom(),
            forall|k: int| 0 <= k < links@.len() ==> target_exists(board@, (#[trigger] links@[k]).target),
            forall|k: int| 0 <= k < links@.len() ==> board@.target_ok((#[trigger] links@[k]).target),
            ts == targets_of(links_of(links@)),
            k <= links@.len(),
            acc@ == old(acc)@ + packed_targets(board@, keys@, outs@, ts.take(k as int)),
        decreases links@.len() - k,
    {
        let ghost before = acc@;
        push_packed(board, keys, outs, links[k].target, acc);
        proof {
            assert(ts.take(k + 1).drop_last() =~= ts.take(k as int));
            assert(ts[k as int] == links@[k as int].target);
        }
        k = k + 1;
    }
    assert(ts.take(k as int) =~= ts);
}

/// Appends the packed targets of `t`, a target of a gate inside chip `d`.
fn push_inner(
    board: &Board,
    keys: &Vec<(u64, Option<usize>)>,
    outs: &Vec<u64>,
    d: u64,
    t: LinkTarget<usize>,
    acc: &mut Vec<LinkTarget<usize>>,
)
    requires
        board@.sim_wf(),
        packable(board@),
        gate_keys(board@, keys@),
        outs@.to_set() == board@.outputs.dom(),
        board@.devices.contains_key(d),
        board@.devices[d].data is Chip,
        board@.devices[d].data->Chip_0.valid_target(t),
    ensures
        final(acc)@ == old(acc)@ + packed_inner(board@, keys@, outs@, d, t),
{
    let ghost b = board@;
    assert(b.devices[d].wf());
    match t {
        LinkTarget::DeviceInput(j, i) => {
            assert(key_ok(b, (d, Some(j))));
            acc.push(LinkTarget::DeviceInput(key_pos(keys, d, Some(j)), i));
            assert(acc@ =~= old(acc)@ + packed_inner(b, keys@, outs@, d, t));
        },
        LinkTarget::Output(o) => {
            match board.devices.get(d) {
                Some(dev) => {
                    let links = &dev.links[o];
                    proof {
                        assert(b.devices[d].links[o as int] == links_of(links@));
                        assert forall|k: int| 0 <= k < links@.len() implies target_exists(
                            b,
                            (#[trigger] links@[k]).target,
                        ) && b.target_ok(links@[k].target) by {
                            assert(b.devices[d].links[o as int][k] == links@[k]@);
                        }
                        assert(link_targets(b.devices[d].links)[o as int] == targets_of(links_of(links@)));
                    }
                    push_packed_all(board, keys, outs, links, acc);
                },
                None => {},
            }
        },
    }
}

/// Packs gate `key`.
fn pack_gate(
    board: &Board,
    keys: &Vec<(u64, Option<usize>)>,
    outs: &Vec<u64>,
    key: (u64, Option<usize>),
) -> (r: PackedGate)
    requires
        board@.sim_wf(),
        packable(board@),
        gate_keys(board@, keys@),
        outs@.to_set() == board@.outputs.dom(),
        key_ok(board@, key),
    ensures
        chip_gate_view(r) == packed_gate(board@, keys@, outs@, key),
{
    let ghost b = board@;
    let d = key.0;
    assert(b.devices[d].wf());
    match board.devices.get(d) {
        Some(dev) => {
            match &dev.data {
                DeviceData::CombGate(g) => {
                    let ghost want = link_targets(b.devices[d].links).map_values(
                        |ts: Seq<LinkTarget<u64>>| packed_targets(b, keys@, outs@, ts),
                    );
                    let mut links: Vec<Vec<LinkTarget<usize>>> = Vec::new();
                    let mut o: usize = 0;
                    while o < dev.links.len()
                        invariant
                            b == board@,
                            b.sim_wf(),
                            packable(b),
                            gate_keys(b, keys@),
                            outs@.to_set() == b.outputs.dom(),
                            b.devices.contains_key(d),
                            b.devices[d] == dev@,
                            want == link_targets(b.devices[d].links).map_values(
                                |ts: Seq<LinkTarget<u64>>| packed_targets(b, keys@, outs@, ts),
                            ),
                            o <= dev.links@.len(),
                            nested_view(links@) == want.take(o as int),
                        decreases dev.links@.len() - o,
                    {
                        let mut ts: Vec<LinkTarget<usize>> = Vec::new();
                        proof {
                            assert(b.devices[d].links[o as int] == links_of(dev.links@[o as int]@));
                            assert forall|k: int| 0 <= k < dev.links@[o as int]@.len() implies target_exists(
                                b,
                                (#[trigger] dev.links@[o as int]@[k]).target,
                            ) && b.target_ok(dev.links@[o as int]@[k].target) by {
                                assert(b.devices[d].links[o as int][k] == dev.links@[o as int]@[k]@);
                            }
                        }
                        push_packed_all(board, keys, outs, &dev.links[o], &mut ts);
                        proof {
                            assert(ts@ =~= want[o as int]);
                        }
                        let ghost before = links@;
                        links.push(ts);
                        proof {
                            assert(nested_view(links@) =~= nested_view(before).push(want[o as int]));
                            assert(want.take(o + 1) =~= want.take(o as int).push(want[o as int]));
                        }
                        o = o + 1;
                    }
                    assert(want.take(o as int) =~= want);
                    PackedGate { table: g.table.clone(), links }
                },
                DeviceData::Chip(c) => {
                    let k = match key.1 {
                        Some(k) => k,
                        None => 0,
                    };
                    let cd = &c.devices[k];
                    let ghost want = c@.links[k as int].map_values(
                        |ts: Seq<LinkTarget<usize>>| packed_inners(b, keys@, outs@, d, ts),
                    );
                    let mut links: Vec<Vec<LinkTarget<usize>>> = Vec::new();
                    let mut o: usize = 0;
                    while o < cd.links.len()
                        invariant
                            b == board@,
                            b.sim_wf(),
                            packable(b),
                            gate_keys(b, keys@),
                            outs@.to_set() == b.outputs.dom(),
                            b.devices.contains_key(d),
                            b.devices[d].data == DeviceDataView::Chip(c@),
                            c@.wf(),
                            k < c@.gates.len(),
                            c@.links[k as int] == crate::queue::links_view(cd.links@),
                            want == c@.links[k as int].map_values(
                                |ts: Seq<LinkTarget<usize>>| packed_inners(b, keys@, outs@, d, ts),
                            ),
                            o <= cd.links@.len(),
                            nested_view(links@) == want.take(o as int),
                        decreases cd.links@.len() - o,
                    {
                        let row = &cd.links[o];
                        let mut ts: Vec<LinkTarget<usize>> = Vec::new();
                        let mut q: usize = 0;
                        while q < row.len()
                            invariant
                                b == board@,
                                b.sim_wf(),
                                packable(b),
                                gate_keys(b, keys@),
                                outs@.to_set() == b.outputs.dom(),
                                b.devices.contains_key(d),
                                b.devices[d].data == DeviceDataView::Chip(c@),
                                c@.wf(),
                                k < c@.gates.len(),
                                o < c@.links[k as int].len(),
                                row@ == c@.links[k as int][o as int],
                                q <= row@.len(),
                                ts@ == packed_inners(b, keys@, outs@, d, row@.take(q as int)),
                            decreases row@.len() - q,
                        {
                            assert(c@.valid_target(c@.links[k as int][o as int][q as int]));
                            push_inner(board, keys, outs, d, row[q], &mut ts);
                            proof {
                                assert(row@.take(q + 1).drop_last() =~= row@.take(q as int));
                            }
                            q = q + 1;
                        }
                        assert(row@.take(q as int) =~= row@);
                        let ghost before = links@;
                        links.push(ts);
                        proof {
                            assert(ts@ == want[o as int]);
                            assert(nested_view(links@) =~= nested_view(before).push(want[o as int]));
                            assert(want.take(o + 1) =~= want.take(o as int).push(want[o as int]));
                        }
                        o = o + 1;
                    }
                    assert(want.take(o as int) =~= want);
                    PackedGate { table: cd.data.table.clone(), links }
                },
            }
        },
        None => {
            PackedGate { table: crate::bits::TruthTable { num_inputs: 0, num_outputs: 0, map: Vec::new() }, links: Vec::new() }
        },
    }
}

/// The targets of `links`, in order.
pub fn map_links(links: &[Link]) -> (r: Vec<LinkTarget<u64>>)
    ensures
        r@ == targets_of(links_of(links@)),
{
    let mut r: Vec<LinkTarget<u64>> = Vec::new();
    let mut k: usize = 0;
    while k < links.len()
        invariant
            k <= links@.len(),
            r@ == targets_of(links_of(links@)).take(k as int),
        decreases links@.len() - k,
    {
        r.push(links[k].target);
        k = k + 1;
        assert(r@ =~= targets_of(links_of(links@)).take(k as int));
    }
    assert(targets_of(links_of(links@)).take(k as int) =~= targets_of(links_of(links@)));
    r
}

/// Each target as the device input it names.
fn to_device_inputs(ts: &Vec<LinkTarget<usize>>) -> (r: Vec<DeviceInput<usize>>)
    ensures
        r@ == ts@.map_values(|t: LinkTarget<usize>| as_device_input(t)),
{
    let mut r: Vec<DeviceInput<usize>> = Vec::new();
    let mut k: usize = 0;
    while k < ts.len()
        invariant
            k <= ts@.len(),
            r@ == ts@.take(k as int).map_values(|t: LinkTarget<usize>| as_device_input(t)),
        decreases ts@.len() - k,
    {
        let di = match ts[k] {
            LinkTarget::DeviceInput(d, i) => DeviceInput(d, i),
            LinkTarget::Output(o) => DeviceInput(o, 0),
        };
        r.push(di);
        k = k + 1;
        assert(r@ =~= ts@.take(k as int).map_values(|t: LinkTarget<usize>| as_device_input(t)));
    }
    assert(ts@.take(k as int) =~= ts@);
    r
}

/// The names of input pins `ids`, in order.
pub(crate) fn input_names(board: &Board, ids: &Vec<u64>) -> (r: Vec<String>)
    requires
        ids@.to_set() == board@.inputs.dom(),
    ensures
        strings_view(r@) == ids@.map_values(|id: u64| board@.inputs[id].io.name),
{
    let mut r: Vec<String> = Vec::new();
    let mut i: usize = 0;
    while i < ids.len()
        invariant
            i <= ids@.len(),
            ids@.to_set() == board@.inputs.dom(),
            r@.len() == i,
            forall|j: int| 0 <= j < i ==> (#[trigger] r@[j])@ == board@.inputs[ids@[j]].io.name,
        decreases ids@.len() - i,
    {
        assert(ids@.to_set().contains(ids@[i as int]));
        match board.inputs.get(ids[i]) {
            Some(inp) => r.push(inp.io.name.clone()),
            None => r.push(String::new()),
        }
        i = i + 1;
    }
    assert(strings_view(r@) =~= ids@.map_values(|id: u64| board@.inputs[id].io.name));
    r
}

/// The names of output pins `ids`, in order.
pub(crate) fn output_names(board: &Board, ids: &Vec<u64>) -> (r: Vec<String>)
    requires
        ids@.to_set() == board@.outputs.dom(),
    ensures
        strings_view(r@) == ids@.map_values(|id: u64| board@.outputs[id].name),
{
    let mut r: Vec<String> = Vec::new();
    let mut i: usize = 0;
    while i < ids.len()
        invariant
            i <= ids@.len(),
            ids@.to_set() == board@.outputs.dom(),
            r@.len() == i,
            forall|j: int| 0 <= j < i ==> (#[trigger] r@[j])@ == board@.outputs[ids@[j]].name,
        decreases ids@.len() - i,
    {
        assert(ids@.to_set().contains(ids@[i as int]));
        match board.outputs.get(ids[i]) {
            Some(o) => r.push(o.io.name.clone()),
            None => r.push(String::new()),
        }
        i = i + 1;
    }
    assert(strings_view(r@) =~= ids@.map_values(|id: u64| board@.outputs[id].name));
    r
}

impl ChipPreset {
    /// Packs `board` into a chip: its inputs and outputs from the top down
    /// become the chip's pins, its gate devices and the gates inside its chip
    /// devices become the chip's gates (in an order that depends on the
    /// device map), and every link is rewritten to gate and output indices;
    /// a link into a chip is replaced by the links of that chip input.
    pub fn from_scene(board: &Board) -> (r: ChipPreset)
        requires
            board@.sim_wf(),
            packable(board@),
        ensures
            exists|keys: Seq<(u64, Option<usize>)>, ins: Seq<u64>, outs: Seq<u64>|
                #![trigger gate_keys(board@, keys), sorted_pins(board@.pins(IoSel::Input), ins), sorted_pins(board@.pins(IoSel::Output), outs)]
                {
                    &&& gate_keys(board@, keys)
                    &&& sorted_pins(board@.pins(IoSel::Input), ins)
                    &&& sorted_pins(board@.pins(IoSel::Output), outs)
                    &&& r@ == packed(board@, keys, ins, outs)
                },
    {
        let ghost b = board@;
        let keys = gate_keys_of(board);
        let ins = board.inputs_sorted();
        let outs = board.outputs_sorted();
        proof {
            crate::presets::lemma_sorted_pins(b, ins@, outs@);
        }
        let inputs = input_names(board, &ins);
        let outputs = output_names(board, &outs);
        let ghost want_links = ins@.map_values(
            |id: u64|
                packed_targets(b, keys@, outs@, targets_of(b.inputs[id].links)).map_values(
                    |t: LinkTarget<usize>| as_device_input(t),
                ),
        );
        let mut input_links: Vec<Vec<DeviceInput<usize>>> = Vec::new();
        let mut i: usize = 0;
        while i < ins.len()
            invariant
                b == board@,
                b.sim_wf(),
                packable(b),
                gate_keys(b, keys@),
                outs@.to_set() == b.outputs.dom(),
                ins@.to_set() == b.inputs.dom(),
                want_links == ins@.map_values(
                    |id: u64|
                        packed_targets(b, keys@, outs@, targets_of(b.inputs[id].links)).map_values(
                            |t: LinkTarget<usize>| as_device_input(t),
                        ),
                ),
                i <= ins@.len(),
                nested_view(input_links@) == want_links.take(i as int),
            decreases ins@.len() - i,
        {
            let id = ins[i];
            assert(ins@.to_set().contains(id));
            match board.inputs.get(id) {
                Some(inp) => {
                    proof {
                        assert(b.inputs[id].links == links_of(inp.links@));
                        assert forall|k: int| 0 <= k < inp.links@.len() implies target_exists(
                            b,
                            (#[trigger] inp.links@[k]).target,
                        ) && b.target_ok(inp.links@[k].target) by {
                            assert(b.inputs[id].links[k] == inp.links@[k]@);
                        }
                    }
                    let mut ts: Vec<LinkTarget<usize>> = Vec::new();
                    push_packed_all(board, &keys, &outs, &inp.links, &mut ts);
                    let dis = to_device_inputs(&ts);
                    let ghost before = input_links@;
                    input_links.push(dis);
                    proof {
                        assert(ts@ =~= packed_targets(b, keys@, outs@, targets_of(b.inputs[id].links)));
                        assert(dis@ == want_links[i as int]);
                        assert(nested_view(input_links@) =~= nested_view(before).push(want_links[i as int]));
                        assert(want_links.take(i + 1) =~= want_links.take(i as int).push(want_links[i as int]));
                    }
                },
                None => {
                    assert(false);
                },
            }
            i = i + 1;
        }
        assert(want_links.take(i as int) =~= want_links);
        let ghost want_gates = keys@.map_values(|k: (u64, Option<usize>)| packed_gate(b, keys@, outs@, k));
        let mut gates: Vec<PackedGate> = Vec::new();
        let mut g: usize = 0;
        while g < keys.len()
            invariant
                b == board@,
                b.sim_wf(),
                packable(b),
                gate_keys(b, keys@),
                outs@.to_set() == b.outputs.dom(),
                want_gates == keys@.map_values(|k: (u64, Option<usize>)| packed_gate(b, keys@, outs@, k)),
                g <= keys@.len(),
                gates@.len() == g,
                forall|j: int| 0 <= j < g ==> chip_gate_view(#[trigger] gates@[j]) == want_gates[j],
            decreases keys@.len() - g,
        {
            assert(keys@.contains(keys@[g as int]));
            let pg = pack_gate(board, &keys, &outs, keys[g]);
            gates.push(pg);
            g = g + 1;
        }
        let r = ChipPreset { inputs, outputs, input_links, comb_gates: gates };
        proof {
            assert(r@.gates =~= want_gates);
            assert(r@ == packed(b, keys@, ins@, outs@));
        }
        r
    }
}

/// `t` names an input of one of `gates`, or one of `n_out` outputs.
pub open spec fn packed_target_ok(gates: Seq<ChipGateView>, n_out: nat, t: LinkTarget<usize>) -> bool {
    match t {
        LinkTarget::DeviceInput(g, i) => g < gates.len() && i < gates[g as int].num_inputs,
        LinkTarget::Output(o) => o < n_out,
    }
}

/// The packed gates of `b` in the order `keys`.
pub open spec fn packed_gates(b: BoardView, keys: Seq<(u64, Option<usize>)>, outs: Seq<u64>) -> Seq<ChipGateView> {
    keys.map_values(|k: (u64, Option<usize>)| packed_gate(b, keys, outs, k))
}

/// The position of a gate of `b` names that gate among the packed gates.
proof fn lemma_key_pos(b: BoardView, keys: Seq<(u64, Option<usize>)>, outs: Seq<u64>, key: (u64, Option<usize>))
    requires
        gate_keys(b, keys),
        key_ok(b, key),
        keys.len() <= usize::MAX,
    ensures
        0 <= pos_in(keys, key) < keys.len(),
        (pos_in(keys, key) as usize) as int == pos_in(keys, key),
        keys[pos_in(keys, key)] == key,
        packed_gates(b, keys, outs)[pos_in(keys, key)] == packed_gate(b, keys, outs, key),
{
    lemma_pos_in(keys, key);
    assert(keys.contains(key));
}

/// Every packed target of a target that exists names a packed gate input or
/// an output.
proof fn lemma_packed_target_ok(
    b: BoardView,
    keys: Seq<(u64, Option<usize>)>,
    outs: Seq<u64>,
    t: LinkTarget<u64>,
)
    requires
        b.sim_wf(),
        gate_keys(b, keys),
        outs.to_set() == b.outputs.dom(),
        keys.len() <= usize::MAX,
        outs.len() <= usize::MAX,
        target_exists(b, t),
        b.target_ok(t),
    ensures
        forall|j: int|
            0 <= j < packed_target(b, keys, outs, t).len() ==> packed_target_ok(
                packed_gates(b, keys, outs),
                outs.len(),
                #[trigger] packed_target(b, keys, outs, t)[j],
            ),
        t is DeviceInput ==> forall|j: int|
            0 <= j < packed_target(b, keys, outs, t).len() ==> (#[trigger] packed_target(b, keys, outs, t)[j]) is DeviceInput,
{
    let gs = packed_gates(b, keys, outs);
    match t {
        LinkTarget::Output(o) => {
            assert(outs.to_set().contains(o));
            lemma_pos_in(outs, o);
            assert((pos_in(outs, o) as usize) as int == pos_in(outs, o));
        },
        LinkTarget::DeviceInput(d, i) => {
            assert(b.devices[d].wf());
            match b.devices[d].data {
                DeviceDataView::CombGate(g) => {
                    assert(key_ok(b, (d, None)));
                    lemma_key_pos(b, keys, outs, (d, None));
                },
                DeviceDataView::Chip(c) => {
                    let pt = packed_target(b, keys, outs, t);
                    assert forall|j: int| 0 <= j < pt.len() implies packed_target_ok(gs, outs.len(), #[trigger] pt[j]) by {
                        let di = c.input_links[i as int][j];
                        assert(c.valid_device_input(di));
                        assert(key_ok(b, (d, Some(di.0))));
                        lemma_key_pos(b, keys, outs, (d, Some(di.0)));
                        assert(pt[j] == chip_gate_input(keys, d, di));
                    }
                },
            }
        },
    }
}

/// Every packed target of a list of targets that exist names a packed gate
/// input or an output.
proof fn lemma_packed_targets_ok(
    b: BoardView,
    keys: Seq<(u64, Option<usize>)>,
    outs: Seq<u64>,
    ts: Seq<LinkTarget<u64>>,
)
    requires
        b.sim_wf(),
        gate_keys(b, keys),
        outs.to_set() == b.outputs.dom(),
        keys.len() <= usize::MAX,
        outs.len() <= usize::MAX,
        forall|k: int| 0 <= k < ts.len() ==> target_exists(b, #[trigger] ts[k]) && b.target_ok(ts[k]),
    ensures
        forall|j: int|
            0 <= j < packed_targets(b, keys, outs, ts).len() ==> packed_target_ok(
                packed_gates(b, keys, outs),
                outs.len(),
                #[trigger] packed_targets(b, keys, outs, ts)[j],
            ),
        (forall|k: int| 0 <= k < ts.len() ==> (#[trigger] ts[k]) is DeviceInput) ==> forall|j: int|
            0 <= j < packed_targets(b, keys, outs, ts).len() ==> (#[trigger] packed_targets(b, keys, outs, ts)[j]) is DeviceInput,
    decreases ts.len(),
{
    if ts.len() > 0 {
        lemma_packed_targets_ok(b, keys, outs, ts.drop_last());
        lemma_packed_target_ok(b, keys, outs, ts.last());
        let a = packed_targets(b, keys, outs, ts.drop_last());
        let c = packed_target(b, keys, outs, ts.last());
        assert forall|j: int| 0 <= j < (a + c).len() implies packed_target_ok(
            packed_gates(b, keys, outs),
            outs.len(),
            #[trigger] (a + c)[j],
        ) by {
            if j < a.len() {
                assert((a + c)[j] == a[j]);
            } else {
                assert((a + c)[j] == c[j - a.len()]);
            }
        }
        if forall|k: int| 0 <= k < ts.len() ==> (#[trigger] ts[k]) is DeviceInput {
            assert forall|k: int| 0 <= k < ts.drop_last().len() implies (#[trigger] ts.drop_last()[k]) is DeviceInput by {
                assert(ts.drop_last()[k] == ts[k]);
            }
            assert(ts[ts.len() - 1] is DeviceInput);
            assert forall|j: int| 0 <= j < (a + c).len() implies (#[trigger] (a + c)[j]) is DeviceInput by {
                if j < a.len() {
                    assert((a + c)[j] == a[j]);
                } else {
                    assert((a + c)[j] == c[j - a.len()]);
                }
            }
        }
    }
}

/// The link targets of a board's links from device `d` exist and are ok.
proof fn lemma_device_links_ok(b: BoardView, d: u64, o: int)
    requires
        b.sim_wf(),
        packable(b),
        b.devices.contains_key(d),
        0 <= o < b.devices[d].links.len(),
    ensures
        forall|k: int|
            0 <= k < link_targets(b.devices[d].links)[o].len() ==> target_exists(
                b,
                #[trigger] link_targets(b.devices[d].links)[o][k],
            ) && b.target_ok(link_targets(b.devices[d].links)[o][k]),
{
    assert forall|k: int| 0 <= k < link_targets(b.devices[d].links)[o].len() implies target_exists(
        b,
        #[trigger] link_targets(b.devices[d].links)[o][k],
    ) && b.target_ok(link_targets(b.devices[d].links)[o][k]) by {
        assert(link_targets(b.devices[d].links)[o][k] == b.devices[d].links[o][k].target);
    }
}

/// Every packed target of a target inside chip `d` names a packed gate input
/// or an output.
proof fn lemma_packed_inners_ok(
    b: BoardView,
    keys: Seq<(u64, Option<usize>)>,
    outs: Seq<u64>,
    d: u64,
    ts: Seq<LinkTarget<usize>>,
)
    requires
        b.sim_wf(),
        packable(b),
        gate_keys(b, keys),
        outs.to_set() == b.outputs.dom(),
        keys.len() <= usize::MAX,
        outs.len() <= usize::MAX,
        b.devices.contains_key(d),
        b.devices[d].data is Chip,
        forall|k: int| 0 <= k < ts.len() ==> b.devices[d].data->Chip_0.valid_target(#[trigger] ts[k]),
    ensures
        forall|j: int|
            0 <= j < packed_inners(b, keys, outs, d, ts).len() ==> packed_target_ok(
                packed_gates(b, keys, outs),
                outs.len(),
                #[trigger] packed_inners(b, keys, outs, d, ts)[j],
            ),
    decreases ts.len(),
{
    if ts.len() > 0 {
        lemma_packed_inners_ok(b, keys, outs, d, ts.drop_last());
        let c = b.devices[d].data->Chip_0;
        assert(b.devices[d].wf());
        let t = ts.last();
        assert(c.valid_target(ts[ts.len() - 1]));
        let pi = packed_inner(b, keys, outs, d, t);
        assert forall|j: int| 0 <= j < pi.len() implies packed_target_ok(
            packed_gates(b, keys, outs),
            outs.len(),
            #[trigger] pi[j],
        ) by {
            match t {
                LinkTarget::DeviceInput(g, i) => {
                    assert(key_ok(b, (d, Some(g))));
                    lemma_key_pos(b, keys, outs, (d, Some(g)));
                },
                LinkTarget::Output(o) => {
                    lemma_device_links_ok(b, d, o as int);
                    lemma_packed_targets_ok(b, keys, outs, link_targets(b.devices[d].links)[o as int]);
                },
            }
        }
        let a = packed_inners(b, keys, outs, d, ts.drop_last());
        assert forall|j: int| 0 <= j < (a + pi).len() implies packed_target_ok(
            packed_gates(b, keys, outs),
            outs.len(),
            #[trigger] (a + pi)[j],
        ) by {
            if j < a.len() {
                assert((a + pi)[j] == a[j]);
            } else {
                assert((a + pi)[j] == pi[j - a.len()]);
            }
        }
    }
}

/// A board packed into a chip gives a well-formed chip preset, one that
/// `Chip::from_preset` can place, whenever it has at most 64 inputs and at
/// most 64 outputs: every table is well formed with one link list per
/// output, and every link names an input of a packed gate or a chip output.
pub proof fn lemma_packed_wf(
    b: BoardView,
    keys: Seq<(u64, Option<usize>)>,
    ins: Seq<u64>,
    outs: Seq<u64>,
    r: ChipPreset,
)
    requires
        b.sim_wf(),
        packable(b),
        gate_keys(b, keys),
        sorted_pins(b.pins(IoSel::Input), ins),
        sorted_pins(b.pins(IoSel::Output), outs),
        r@ == packed(b, keys, ins, outs),
        ins.len() <= 64,
        outs.len() <= 64,
        keys.len() <= usize::MAX,
    ensures
        r.wf(),
{
    let gs = packed_gates(b, keys, outs);
    assert(r@.gates == gs);
    assert(outs.to_set() =~= b.outputs.dom()) by {
        assert(b.pins(IoSel::Output).dom() =~= b.outputs.dom());
    }
    assert(ins.to_set() =~= b.inputs.dom()) by {
        assert(b.pins(IoSel::Input).dom() =~= b.inputs.dom());
    }
    assert(r.inputs@.len() == ins.len()) by {
        assert(strings_view(r.inputs@).len() == r.inputs@.len());
    }
    assert(r.outputs@.len() == outs.len()) by {
        assert(strings_view(r.outputs@).len() == r.outputs@.len());
    }
    assert(r.input_links@.len() == ins.len()) by {
        assert(nested_view(r.input_links@).len() == r.input_links@.len());
    }
    assert(r.comb_gates@.len() == keys.len()) by {
        assert(r@.gates.len() == r.comb_gates@.len());
    }
    assert forall|g: int| 0 <= g < r.comb_gates@.len() implies (#[trigger] r.comb_gates@[g]).table.wf()
        && r.comb_gates@[g].links@.len() == r.comb_gates@[g].table.num_outputs by {
        let key = keys[g];
        assert(keys.contains(key));
        assert(key_ok(b, key));
        assert(chip_gate_view(r.comb_gates@[g]) == r@.gates[g]);
        assert(r@.gates[g] == packed_gate(b, keys, outs, key));
        assert(b.devices[key.0].wf());
        assert(nested_view(r.comb_gates@[g].links@).len() == r.comb_gates@[g].links@.len());
    }
    assert forall|i: int, k: int|
        0 <= i < r.input_links@.len() && 0 <= k < r.input_links@[i]@.len() implies r.valid_device_input(
        #[trigger] r.input_links@[i]@[k],
    ) by {
        let id = ins[i];
        assert(ins.to_set().contains(id));
        let ts = targets_of(b.inputs[id].links);
        assert forall|q: int| 0 <= q < ts.len() implies target_exists(b, #[trigger] ts[q]) && b.target_ok(ts[q])
            && ts[q] is DeviceInput by {
            assert(ts[q] == b.inputs[id].links[q].target);
        }
        lemma_packed_targets_ok(b, keys, outs, ts);
        assert(nested_view(r.input_links@)[i] == r@.input_links[i]);
        let pts = packed_targets(b, keys, outs, ts);
        assert(r@.input_links[i] == pts.map_values(|t: LinkTarget<usize>| as_device_input(t)));
        assert(r.input_links@[i]@[k] == as_device_input(pts[k]));
        assert(packed_target_ok(gs, outs.len(), pts[k]));
        assert(pts[k] is DeviceInput);
        let gi = pts[k]->DeviceInput_0 as int;
        assert(chip_gate_view(r.comb_gates@[gi]) == gs[gi]);
    }
    assert forall|g: int, o: int, k: int|
        0 <= g < r.comb_gates@.len() && 0 <= o < r.comb_gates@[g].links@.len() && 0 <= k
            < r.comb_gates@[g].links@[o]@.len() implies r.valid_target(#[trigger] r.comb_gates@[g].links@[o]@[k]) by {
        let key = keys[g];
        assert(keys.contains(key));
        assert(key_ok(b, key));
        assert(b.devices[key.0].wf());
        assert(chip_gate_view(r.comb_gates@[g]) == gs[g]);
        let x = r.comb_gates@[g].links@[o]@[k];
        assert(nested_view(r.comb_gates@[g].links@)[o] == r.comb_gates@[g].links@[o]@);
        match b.devices[key.0].data {
            DeviceDataView::CombGate(_) => {
                lemma_device_links_ok(b, key.0, o);
                lemma_packed_targets_ok(b, keys, outs, link_targets(b.devices[key.0].links)[o]);
                assert(x == packed_targets(b, keys, outs, link_targets(b.devices[key.0].links)[o])[k]);
            },
            DeviceDataView::Chip(c) => {
                let q = key.1->Some_0 as int;
                let ts = c.links[q][o];
                assert forall|m: int| 0 <= m < ts.len() implies c.valid_target(#[trigger] ts[m]) by {}
                lemma_packed_inners_ok(b, keys, outs, key.0, ts);
                assert(x == packed_inners(b, keys, outs, key.0, ts)[k]);
            },
        }
        assert(packed_target_ok(gs, outs.len(), x));
        match x {
            LinkTarget::DeviceInput(gi, _) => {
                assert(chip_gate_view(r.comb_gates@[gi as int]) == gs[gi as int]);
            },
            LinkTarget::Output(_) => {},
        }
    }
}

} // verus!
