//! Device presets and the library that holds them: adding, replacing and
//! removing presets, grouping them by category, and searching them by name.

use crate::bits::{bit_of, lemma_pack_bits, pack_bits, rows, with_bit, BitField, TruthTable};
use crate::board::{Board, BoardView, Device, DeviceData, DeviceDataView, DeviceView, IoSel, IoView};
use crate::chip::{fresh_gate, start_writes, Chip, ChipView};
use crate::gate::CombGate as Gate;
use crate::geom::Point;
use crate::queue::links_view;
use crate::chip_preset::{ChipPreset, CombGate as ChipGate};
use crate::text::{contains, is_prefix, is_substring, lowercase, starts_with, to_lowercase};
use crate::{copy_nested, nested_view, DeviceInput, LinkTarget};
use vstd::prelude::*;

verus! {

/// Whether both strings hold the same characters.
pub(crate) fn str_eq(a: &str, b: &str) -> (r: bool)
    ensures
        r == (a@ == b@),
{
    let n = a.unicode_len();
    if n != b.unicode_len() {
        return false;
    }
    let mut i: usize = 0;
    while i < n
        invariant
            n == a@.len(),
            n == b@.len(),
            i <= n,
            forall|j: int| 0 <= j < i ==> a@[j] == b@[j],
        decreases n - i,
    {
        if a.get_char(i) != b.get_char(i) {
            return false;
        }
        i = i + 1;
    }
    assert(a@ =~= b@);
    true
}

/// The views of a list of strings.
pub open spec fn strings_view(v: Seq<String>) -> Seq<Seq<char>> {
    v.map_values(|s: String| s@)
}

/// A copy of a list of strings.
pub fn copy_strings(v: &Vec<String>) -> (r: Vec<String>)
    ensures
        strings_view(r@) == strings_view(v@),
{
    let mut r: Vec<String> = Vec::new();
    let mut i: usize = 0;
    while i < v.len()
        invariant
            i <= v@.len(),
            r@.len() == i,
            forall|j: int| 0 <= j < i ==> (#[trigger] r@[j])@ == v@[j]@,
        decreases v@.len() - i,
    {
        r.push(v[i].clone());
        i = i + 1;
    }
    assert(strings_view(r@) =~= strings_view(v@));
    r
}

/// A gate preset, as values.
pub struct CombGatePresetView {
    pub inputs: Seq<Seq<char>>,
    pub outputs: Seq<Seq<char>>,
    pub num_inputs: usize,
    pub num_outputs: usize,
    pub map: Seq<u64>,
}

/// A gate inside a chip preset, as values.
pub struct ChipGateView {
    pub num_inputs: usize,
    pub num_outputs: usize,
    pub map: Seq<u64>,
    pub links: Seq<Seq<LinkTarget<usize>>>,
}

/// A chip preset, as values.
pub struct ChipPresetView {
    pub inputs: Seq<Seq<char>>,
    pub outputs: Seq<Seq<char>>,
    pub input_links: Seq<Seq<DeviceInput<usize>>>,
    pub gates: Seq<ChipGateView>,
}

/// What a preset places, as values.
pub enum PresetDataView {
    CombGate(CombGatePresetView),
    Chip(ChipPresetView),
}

/// Where a preset came from, as values.
pub enum PresetSourceView {
    Default,
    Builtin,
    Board(BoardView),
}

/// A preset, as values.
pub struct DevicePresetView {
    pub name: Seq<char>,
    pub cat: Seq<char>,
    pub color: [u8; 4],
    pub data: PresetDataView,
    pub src: PresetSourceView,
}

/// A gate preset: pin names and the truth table.
#[derive(Debug)]
pub struct CombGatePreset {
    pub inputs: Vec<String>,
    pub outputs: Vec<String>,
    pub table: TruthTable,
}

impl View for CombGatePreset {
    type V = CombGatePresetView;

    open spec fn view(&self) -> CombGatePresetView {
        CombGatePresetView {
            inputs: strings_view(self.inputs@),
            outputs: strings_view(self.outputs@),
            num_inputs: self.table.num_inputs,
            num_outputs: self.table.num_outputs,
            map: self.table.map@,
        }
    }
}

impl Clone for CombGatePreset {
    fn clone(&self) -> (r: Self)
        ensures
            r@ == self@,
    {
        CombGatePreset {
            inputs: copy_strings(&self.inputs),
            outputs: copy_strings(&self.outputs),
            table: self.table.clone(),
        }
    }
}

/// The view of a gate of a chip preset.
pub open spec fn chip_gate_view(g: ChipGate) -> ChipGateView {
    ChipGateView {
        num_inputs: g.table.num_inputs,
        num_outputs: g.table.num_outputs,
        map: g.table.map@,
        links: nested_view(g.links@),
    }
}

impl View for ChipPreset {
    type V = ChipPresetView;

    open spec fn view(&self) -> ChipPresetView {
        ChipPresetView {
            inputs: strings_view(self.inputs@),
            outputs: strings_view(self.outputs@),
            input_links: nested_view(self.input_links@),
            gates: self.comb_gates@.map_values(|g: ChipGate| chip_gate_view(g)),
        }
    }
}

impl Clone for ChipPreset {
    fn clone(&self) -> (r: Self)
        ensures
            r@ == self@,
    {
        let mut gates: Vec<ChipGate> = Vec::new();
        let mut i: usize = 0;
        while i < self.comb_gates.len()
            invariant
                i <= self.comb_gates@.len(),
                gates@.len() == i,
                forall|j: int| 0 <= j < i ==> chip_gate_view(#[trigger] gates@[j]) == chip_gate_view(self.comb_gates@[j]),
            decreases self.comb_gates@.len() - i,
        {
            let g = &self.comb_gates[i];
            gates.push(ChipGate { table: g.table.clone(), links: copy_nested(&g.links) });
            i = i + 1;
        }
        let r = ChipPreset {
            inputs: copy_strings(&self.inputs),
            outputs: copy_strings(&self.outputs),
            input_links: copy_nested(&self.input_links),
            comb_gates: gates,
        };
        assert(r@.gates =~= self@.gates);
        r
    }
}

/// What a preset places: a gate or a chip.
#[derive(Debug)]
pub enum PresetData {
    CombGate(CombGatePreset),
    Chip(ChipPreset),
}

impl View for PresetData {
    type V = PresetDataView;

    open spec fn view(&self) -> PresetDataView {
        match self {
            PresetData::CombGate(e) => PresetDataView::CombGate(e@),
            PresetData::Chip(e) => PresetDataView::Chip(e@),
        }
    }
}

impl Clone for PresetData {
    fn clone(&self) -> (r: Self)
        ensures
            r@ == self@,
    {
        match self {
            PresetData::CombGate(e) => PresetData::CombGate(e.clone()),
            PresetData::Chip(e) => PresetData::Chip(e.clone()),
        }
    }
}

impl PresetDataView {
    /// The input names.
    pub open spec fn input_names(self) -> Seq<Seq<char>> {
        match self {
            PresetDataView::CombGate(e) => e.inputs,
            PresetDataView::Chip(e) => e.inputs,
        }
    }

    /// The output names.
    pub open spec fn output_names(self) -> Seq<Seq<char>> {
        match self {
            PresetDataView::CombGate(e) => e.outputs,
            PresetDataView::Chip(e) => e.outputs,
        }
    }
}

impl PresetData {
    /// Number of inputs (one per input name).
    pub fn num_inputs(&self) -> (r: usize)
        ensures
            r == self@.input_names().len(),
    {
        match self {
            PresetData::CombGate(e) => e.inputs.len(),
            PresetData::Chip(e) => e.inputs.len(),
        }
    }

    /// Number of outputs (one per output name).
    pub fn num_outputs(&self) -> (r: usize)
        ensures
            r == self@.output_names().len(),
    {
        match self {
            PresetData::CombGate(e) => e.outputs.len(),
            PresetData::Chip(e) => e.outputs.len(),
        }
    }

    /// The input names.
    pub fn input_names(&self) -> (r: &Vec<String>)
        ensures
            strings_view(r@) == self@.input_names(),
    {
        match self {
            PresetData::CombGate(e) => &e.inputs,
            PresetData::Chip(e) => &e.inputs,
        }
    }

    /// The output names.
    pub fn output_names(&self) -> (r: &Vec<String>)
        ensures
            strings_view(r@) == self@.output_names(),
    {
        match self {
            PresetData::CombGate(e) => &e.outputs,
            PresetData::Chip(e) => &e.outputs,
        }
    }

    /// The input names.
    pub fn inputs(&self) -> (r: &Vec<String>)
        ensures
            strings_view(r@) == self@.input_names(),
    {
        self.input_names()
    }

    /// The output names.
    pub fn outputs(&self) -> (r: &Vec<String>)
        ensures
            strings_view(r@) == self@.output_names(),
    {
        self.output_names()
    }
}

/// Where a preset came from: built in, or packed from a board (kept so it
/// can be opened again).
pub enum PresetSource {
    Default,
    Builtin,
    Board(Board),
}

impl View for PresetSource {
    type V = PresetSourceView;

    open spec fn view(&self) -> PresetSourceView {
        match self {
            PresetSource::Default => PresetSourceView::Default,
            PresetSource::Builtin => PresetSourceView::Builtin,
            PresetSource::Board(b) => PresetSourceView::Board(b@),
        }
    }
}

/// A source as its copy holds it: a board's buffered writes are dropped.
pub open spec fn source_copied(s: PresetSourceView) -> PresetSourceView {
    match s {
        PresetSourceView::Board(b) => PresetSourceView::Board(b.copied()),
        _ => s,
    }
}

impl Clone for PresetSource {
    fn clone(&self) -> (r: Self)
        ensures
            r@ == source_copied(self@),
    {
        match self {
            PresetSource::Default => PresetSource::Default,
            PresetSource::Builtin => PresetSource::Builtin,
            PresetSource::Board(b) => PresetSource::Board(b.clone()),
        }
    }
}

/// A preset: its name, category, colour, what it places and where it came
/// from.
pub struct DevicePreset {
    pub name: String,
    pub cat: String,
    pub color: [u8; 4],
    pub data: PresetData,
    pub src: PresetSource,
}

impl View for DevicePreset {
    type V = DevicePresetView;

    open spec fn view(&self) -> DevicePresetView {
        DevicePresetView {
            name: self.name@,
            cat: self.cat@,
            color: self.color,
            data: self.data@,
            src: self.src@,
        }
    }
}

/// A preset as its copy holds it (a source board's buffered writes are
/// dropped).
pub open spec fn preset_copied(p: DevicePresetView) -> DevicePresetView {
    DevicePresetView { src: source_copied(p.src), ..p }
}

impl Clone for DevicePreset {
    fn clone(&self) -> (r: Self)
        ensures
            r@ == preset_copied(self@),
    {
        DevicePreset {
            name: self.name.clone(),
            cat: self.cat.clone(),
            color: self.color,
            data: self.data.clone(),
            src: self.src.clone(),
        }
    }
}

/// What happened to a preset, for saving.
#[derive(Debug, Clone, Copy)]
pub enum Change {
    Removed,
    Added,
    Modified,
}

/// The views of a list of presets.
pub open spec fn presets_view(v: Seq<DevicePreset>) -> Seq<DevicePresetView> {
    v.map_values(|p: DevicePreset| p@)
}

/// The first index of a preset named `name`, or `-1`.
pub open spec fn index_of_name(ps: Seq<DevicePresetView>, name: Seq<char>) -> int
    decreases ps.len(),
{
    if ps.len() == 0 {
        -1
    } else if index_of_name(ps.drop_last(), name) >= 0 {
        index_of_name(ps.drop_last(), name)
    } else if ps.last().name == name {
        ps.len() - 1
    } else {
        -1
    }
}

/// The index found by name is that of the first preset with the name.
pub proof fn lemma_index_of_name(ps: Seq<DevicePresetView>, name: Seq<char>)
    ensures
        -1 <= index_of_name(ps, name) < ps.len(),
        index_of_name(ps, name) >= 0 ==> ps[index_of_name(ps, name)].name == name,
        forall|j: int| 0 <= j < ps.len() && (index_of_name(ps, name) < 0 || j < index_of_name(ps, name))
            ==> (#[trigger] ps[j]).name != name,
    decreases ps.len(),
{
    if ps.len() > 0 {
        lemma_index_of_name(ps.drop_last(), name);
        assert forall|j: int| 0 <= j < ps.len() - 1 implies ps.drop_last()[j] == #[trigger] ps[j] by {}
    }
}

/// The index of the first preset named `name`.
pub fn preset_index(ps: &Vec<DevicePreset>, name: &str) -> (r: Option<usize>)
    ensures
        r matches Some(i) ==> i == index_of_name(presets_view(ps@), name@),
        r is None ==> index_of_name(presets_view(ps@), name@) < 0,
{
    let ghost pv = presets_view(ps@);
    let mut i: usize = 0;
    while i < ps.len()
        invariant
            i <= ps@.len(),
            pv == presets_view(ps@),
            index_of_name(pv.take(i as int), name@) < 0,
        decreases ps@.len() - i,
    {
        proof {
            assert(pv.take(i + 1).drop_last() =~= pv.take(i as int));
        }
        if str_eq(ps[i].name.as_str(), name) {
            proof {
                lemma_index_of_name(pv, name@);
                lemma_index_of_name(pv.take(i as int), name@);
                assert forall|j: int| 0 <= j < i implies (#[trigger] pv[j]).name != name@ by {
                    assert(pv.take(i as int)[j] == pv[j]);
                }
                assert(pv[i as int].name == name@);
                let k = index_of_name(pv, name@);
                if k < 0 {
                    assert(pv[i as int].name != name@);
                } else if k < i {
                    assert(pv[k].name != name@);
                } else if k > i {
                    assert(pv[i as int].name != name@);
                }
            }
            return Some(i);
        }
        i = i + 1;
    }
    proof {
        assert(pv.take(i as int) =~= pv);
    }
    None
}

/// How well `q` matches `s`, both already lowercased: 200 when equal, 100
/// when `s` starts with `q`, 50 when `q` occurs in `s`, else 0.
pub open spec fn level_of(s: Seq<char>, q: Seq<char>) -> u8 {
    if s == q {
        200
    } else if is_prefix(q, s) {
        100
    } else if is_substring(q, s) {
        50
    } else {
        0
    }
}

/// How well query `q` matches `s`, ignoring case.
pub open spec fn match_level(s: Seq<char>, q: Seq<char>) -> u8 {
    level_of(lowercase(s), lowercase(q))
}

/// How well `q` matches `s`, for strings already lowercased.
pub fn match_level_lower(s: &str, q: &str) -> (r: u8)
    ensures
        r == level_of(s@, q@),
{
    if str_eq(s, q) {
        200
    } else if starts_with(s, q) {
        100
    } else if contains(s, q) {
        50
    } else {
        0
    }
}

/// How well query `q` matches `s`, ignoring case: 200 when equal, 100 when
/// `s` starts with `q`, 50 when `s` contains `q`, else 0.
pub fn str_match_level(s: &str, q: &str) -> (r: u8)
    ensures
        r == match_level(s@, q@),
{
    let s = to_lowercase(s);
    let q = to_lowercase(q);
    match_level_lower(s.as_str(), q.as_str())
}

/// The categories of `ps`, each once, in order of first appearance.
pub open spec fn cats_of(ps: Seq<DevicePresetView>) -> Seq<Seq<char>>
    decreases ps.len(),
{
    if ps.len() == 0 {
        seq![]
    } else {
        let c = cats_of(ps.drop_last());
        if c.contains(ps.last().cat) {
            c
        } else {
            c.push(ps.last().cat)
        }
    }
}

/// The presets of `ps` in category `cat`, in order.
pub open spec fn in_cat(ps: Seq<DevicePresetView>, cat: Seq<char>) -> Seq<DevicePresetView>
    decreases ps.len(),
{
    if ps.len() == 0 {
        seq![]
    } else if ps.last().cat == cat {
        in_cat(ps.drop_last(), cat).push(ps.last())
    } else {
        in_cat(ps.drop_last(), cat)
    }
}

/// The names of a list of presets.
pub open spec fn names_of(ps: Seq<DevicePresetView>) -> Seq<Seq<char>> {
    ps.map_values(|p: DevicePresetView| p.name)
}

/// The names in `names` whose match level against `field` is `lvl`, in order.
pub open spec fn at_level(names: Seq<Seq<char>>, field: Seq<char>, lvl: u8) -> Seq<Seq<char>>
    decreases names.len(),
{
    if names.len() == 0 {
        seq![]
    } else if match_level(names.last(), field) == lvl {
        at_level(names.drop_last(), field, lvl).push(names.last())
    } else {
        at_level(names.drop_last(), field, lvl)
    }
}

/// The index of the first name with the highest positive match level, or -1
/// when none matches.
pub open spec fn best_match(names: Seq<Seq<char>>, field: Seq<char>) -> int
    decreases names.len(),
{
    if names.len() == 0 {
        -1
    } else {
        let b = best_match(names.drop_last(), field);
        let l = match_level(names.last(), field);
        if b < 0 {
            if l > 0 {
                names.len() - 1
            } else {
                -1
            }
        } else if l > match_level(names[b], field) {
            names.len() - 1
        } else {
            b
        }
    }
}

/// A library as values: its presets, and the changes not yet saved.
pub struct LibraryView {
    pub presets: Seq<DevicePresetView>,
    pub changes: Seq<(Seq<char>, Change)>,
}

impl LibraryView {
    /// The library after adding `p`: a preset of the same name is replaced in
    /// place, else `p` is appended; with `save`, the change is recorded.
    pub open spec fn added(self, p: DevicePresetView, save: bool) -> LibraryView {
        let i = index_of_name(self.presets, p.name);
        LibraryView {
            presets: if i >= 0 {
                self.presets.update(i, p)
            } else {
                self.presets.push(p)
            },
            changes: if save {
                self.changes.push((p.name, if i >= 0 { Change::Modified } else { Change::Added }))
            } else {
                self.changes
            },
        }
    }

    /// The library after adding each of `ps` in turn, recording each change.
    pub open spec fn added_all(self, ps: Seq<DevicePresetView>) -> LibraryView
        decreases ps.len(),
    {
        if ps.len() == 0 {
            self
        } else {
            self.added_all(ps.drop_last()).added(ps.last(), true)
        }
    }

    /// The library after removing the preset named `name`.
    pub open spec fn removed(self, name: Seq<char>) -> LibraryView {
        LibraryView {
            presets: self.presets.remove(index_of_name(self.presets, name)),
            changes: self.changes.push((name, Change::Removed)),
        }
    }

    /// No two presets share a name.
    pub open spec fn names_unique(self) -> bool {
        forall|i: int, j: int|
            0 <= i < self.presets.len() && 0 <= j < self.presets.len() && i != j
                ==> #[trigger] self.presets[i].name != #[trigger] self.presets[j].name
    }
}

/// The preset of an and gate.
pub open spec fn and_preset() -> DevicePresetView {
    DevicePresetView {
        name: "And"@,
        cat: "Basic"@,
        color: [255u8, 0u8, 0u8, 255u8],
        data: PresetDataView::CombGate(CombGatePresetView {
            inputs: seq![""@, ""@],
            outputs: seq![""@],
            num_inputs: 2,
            num_outputs: 1,
            map: seq![0u64, 0u64, 0u64, 1u64],
        }),
        src: PresetSourceView::Default,
    }
}

/// The preset of a not gate.
pub open spec fn not_preset() -> DevicePresetView {
    DevicePresetView {
        name: "Not"@,
        cat: "Basic"@,
        color: [0u8, 255u8, 0u8, 255u8],
        data: PresetDataView::CombGate(CombGatePresetView {
            inputs: seq![""@],
            outputs: seq![""@],
            num_inputs: 1,
            num_outputs: 1,
            map: seq![1u64, 0u64],
        }),
        src: PresetSourceView::Default,
    }
}

/// `n` empty names.
fn blank_names(n: usize) -> (r: Vec<String>)
    ensures
        r@.len() == n,
        forall|i: int| 0 <= i < n ==> (#[trigger] r@[i])@ == ""@,
{
    let mut r: Vec<String> = Vec::new();
    let mut i: usize = 0;
    while i < n
        invariant
            i <= n,
            r@.len() == i,
            forall|j: int| 0 <= j < i ==> (#[trigger] r@[j])@ == ""@,
        decreases n - i,
    {
        r.push("".to_owned());
        i = i + 1;
    }
    r
}

/// The preset of an and gate: two inputs, one output.
pub fn and_gate_preset() -> (r: DevicePreset)
    ensures
        r@ == and_preset(),
        r.data.wf(),
{
    let and = DevicePreset {
        name: "And".to_owned(),
        cat: "Basic".to_owned(),
        color: [255, 0, 0, 255],
        data: PresetData::CombGate(CombGatePreset {
            inputs: blank_names(2),
            outputs: blank_names(1),
            table: TruthTable { num_inputs: 2, num_outputs: 1, map: vec![0, 0, 0, 1] },
        }),
        src: PresetSource::Default,
    };
    proof {
        let ghost g = and@.data->CombGate_0;
        assert(g.inputs =~= seq![""@, ""@]);
        assert(g.outputs =~= seq![""@]);
        assert(g.map =~= seq![0u64, 0u64, 0u64, 1u64]);
        assert(g == and_preset().data->CombGate_0);
        assert((1u64 << 2u64) == 4u64) by (bit_vector);
    }
    and
}

/// The preset of a not gate: one input, one output.
pub fn not_gate_preset() -> (r: DevicePreset)
    ensures
        r@ == not_preset(),
        r.data.wf(),
{
    let not = DevicePreset {
        name: "Not".to_owned(),
        cat: "Basic".to_owned(),
        color: [0, 255, 0, 255],
        data: PresetData::CombGate(CombGatePreset {
            inputs: blank_names(1),
            outputs: blank_names(1),
            table: TruthTable { num_inputs: 1, num_outputs: 1, map: vec![1, 0] },
        }),
        src: PresetSource::Default,
    };
    proof {
        let ghost g = not@.data->CombGate_0;
        assert(g.inputs =~= seq![""@]);
        assert(g.outputs =~= seq![""@]);
        assert(g.map =~= seq![1u64, 0u64]);
        assert(g == not_preset().data->CombGate_0);
        assert((1u64 << 1u64) == 2u64) by (bit_vector);
    }
    not
}

/// The presets every library starts with: an and gate and a not gate.
pub fn default_presets() -> (r: Vec<DevicePreset>)
    ensures
        presets_view(r@) == seq![and_preset(), not_preset()],
        forall|k: int| 0 <= k < r@.len() ==> (#[trigger] r@[k]).data.wf(),
{
    let r = vec![and_gate_preset(), not_gate_preset()];
    assert(presets_view(r@) =~= seq![and_preset(), not_preset()]);
    r
}

/// The presets, and the changes to them that are not saved yet.
pub struct Library {
    presets: Vec<DevicePreset>,
    changes: Vec<(String, Change)>,
}

/// The views of a list of changes.
pub open spec fn changes_view(v: Seq<(String, Change)>) -> Seq<(Seq<char>, Change)> {
    v.map_values(|c: (String, Change)| (c.0@, c.1))
}

impl View for Library {
    type V = LibraryView;

    closed spec fn view(&self) -> LibraryView {
        LibraryView { presets: presets_view(self.presets@), changes: changes_view(self.changes@) }
    }
}

impl Default for Library {
    fn default() -> (r: Self)
        ensures
            r@.presets == seq![and_preset(), not_preset()],
            r@.changes == Seq::<(Seq<char>, Change)>::empty(),
    {
        Library::new()
    }
}

/// The names of all presets, in order.
pub fn names_in(presets: &Vec<DevicePreset>) -> (r: Vec<String>)
    ensures
        strings_view(r@) == names_of(presets_view(presets@)),
{
    let ghost pv = presets_view(presets@);
    let mut r: Vec<String> = Vec::new();
    let mut i: usize = 0;
    while i < presets.len()
        invariant
            pv == presets_view(presets@),
            i <= presets@.len(),
            r@.len() == i,
            forall|j: int| 0 <= j < i ==> (#[trigger] r@[j])@ == pv[j].name,
        decreases presets@.len() - i,
    {
        r.push(presets[i].name.clone());
        i = i + 1;
    }
    assert(strings_view(r@) =~= names_of(pv));
    r
}

/// The distinct categories, in order of first appearance.
pub fn cat_names_in(presets: &Vec<DevicePreset>) -> (r: Vec<String>)
    ensures
        strings_view(r@) == cats_of(presets_view(presets@)),
{
    let ghost pv = presets_view(presets@);
    let mut cats: Vec<String> = Vec::new();
    let mut i: usize = 0;
    while i < presets.len()
        invariant
            pv == presets_view(presets@),
            i <= presets@.len(),
            strings_view(cats@) == cats_of(pv.take(i as int)),
        decreases presets@.len() - i,
    {
        let cat = &presets[i].cat;
        let mut found = false;
        let mut k: usize = 0;
        while k < cats.len() && !found
            invariant
                k <= cats@.len(),
                found ==> strings_view(cats@).contains(cat@),
                !found ==> forall|j: int| 0 <= j < k ==> (#[trigger] cats@[j])@ != cat@,
            decreases cats@.len() - k,
        {
            if cats[k] == *cat {
                found = true;
                assert(strings_view(cats@)[k as int] == cat@);
            }
            k = k + 1;
        }
        proof {
            assert(pv.take(i + 1).drop_last() =~= pv.take(i as int));
            assert(pv.take(i + 1).last() == pv[i as int]);
            if !found {
                assert(!strings_view(cats@).contains(cat@));
            }
        }
        if !found {
            cats.push(cat.clone());
            assert(strings_view(cats@) =~= cats_of(pv.take(i as int)).push(cat@));
        }
        i = i + 1;
    }
    assert(pv.take(i as int) =~= pv);
    cats
}

/// The names of the presets in category `cat`, in order.
pub fn cat_presets_in(presets: &Vec<DevicePreset>, cat: &str) -> (r: Vec<String>)
    ensures
        strings_view(r@) == names_of(in_cat(presets_view(presets@), cat@)),
{
    let ghost pv = presets_view(presets@);
    let mut r: Vec<String> = Vec::new();
    let mut i: usize = 0;
    while i < presets.len()
        invariant
            pv == presets_view(presets@),
            i <= presets@.len(),
            strings_view(r@) == names_of(in_cat(pv.take(i as int), cat@)),
        decreases presets@.len() - i,
    {
        proof {
            assert(pv.take(i + 1).drop_last() =~= pv.take(i as int));
            assert(pv.take(i + 1).last() == pv[i as int]);
        }
        if str_eq(presets[i].cat.as_str(), cat) {
            r.push(presets[i].name.clone());
            assert(strings_view(r@) =~= names_of(in_cat(pv.take(i as int), cat@)).push(pv[i as int].name));
        }
        i = i + 1;
    }
    assert(pv.take(i as int) =~= pv);
    r
}

/// The presets grouped by category: each category once, in order of first
/// appearance, with its presets in order.
pub fn cats_sorted_in(presets: &Vec<DevicePreset>) -> (r: Vec<(&str, Vec<&DevicePreset>)>)
    ensures
        r@.len() == cats_of(presets_view(presets@)).len(),
        forall|k: int| 0 <= k < r@.len() ==> (#[trigger] r@[k]).0@ == cats_of(presets_view(presets@))[k],
        forall|k: int| 0 <= k < r@.len() ==> (#[trigger] r@[k]).1@.map_values(|p: &DevicePreset| p@)
            == in_cat(presets_view(presets@), cats_of(presets_view(presets@))[k]),
{
    let ghost pv = presets_view(presets@);
    let names = cat_names_in(presets);
    let mut r: Vec<(&str, Vec<&DevicePreset>)> = Vec::new();
    let mut k: usize = 0;
    while k < names.len()
        invariant
            pv == presets_view(presets@),
            strings_view(names@) == cats_of(pv),
            k <= names@.len(),
            r@.len() == k,
            forall|j: int| 0 <= j < k ==> (#[trigger] r@[j]).0@ == cats_of(pv)[j],
            forall|j: int| 0 <= j < k ==> (#[trigger] r@[j]).1@.map_values(|p: &DevicePreset| p@)
                == in_cat(pv, cats_of(pv)[j]),
        decreases names@.len() - k,
    {
        let ghost c = names@[k as int]@;
        assert(c == cats_of(pv)[k as int]);
        let mut first: usize = 0;
        let mut members: Vec<&DevicePreset> = Vec::new();
        let mut found = false;
        let mut i: usize = 0;
        while i < presets.len()
            invariant
                pv == presets_view(presets@),
                k < names@.len(),
                names@[k as int]@ == c,
                i <= presets@.len(),
                members@.map_values(|p: &DevicePreset| p@) == in_cat(pv.take(i as int), c),
                found ==> first < presets@.len() && pv[first as int].cat == c,
                !found ==> in_cat(pv.take(i as int), c).len() == 0,
            decreases presets@.len() - i,
        {
            proof {
                assert(pv.take(i + 1).drop_last() =~= pv.take(i as int));
                assert(pv.take(i + 1).last() == pv[i as int]);
            }
            if str_eq(presets[i].cat.as_str(), names[k].as_str()) {
                if !found {
                    first = i;
                    found = true;
                }
                members.push(&presets[i]);
                assert(members@.map_values(|p: &DevicePreset| p@) =~= in_cat(pv.take(i as int), c).push(pv[i as int]));
            }
            i = i + 1;
        }
        proof {
            assert(pv.take(i as int) =~= pv);
            lemma_cats_occur(pv, k as int);
        }
        if !found {
            proof {
                lemma_in_cat_nonempty(pv, c);
            }
            first = 0;
        }
        r.push((presets[first].cat.as_str(), members));
        k = k + 1;
    }
    r
}

/// The category that best matches `field`: the first of those with the
/// highest match level, or `None` when `field` is empty or nothing
/// matches.
pub fn search_cats_in(presets: &Vec<DevicePreset>, field: &str) -> (r: Option<String>)
    ensures
        field@.len() == 0 ==> r is None,
        field@.len() > 0 ==> match r {
            Some(c) => best_match(cats_of(presets_view(presets@)), field@) >= 0
                && c@ == cats_of(presets_view(presets@))[best_match(cats_of(presets_view(presets@)), field@)],
            None => best_match(cats_of(presets_view(presets@)), field@) < 0,
        },
        field@.len() > 0 ==> match r {
            Some(c) => forall|j: int|
                0 <= j < cats_of(presets_view(presets@)).len() ==> match_level(
                    #[trigger] cats_of(presets_view(presets@))[j],
                    field@,
                ) <= match_level(c@, field@),
            None => forall|j: int|
                0 <= j < cats_of(presets_view(presets@)).len() ==> match_level(
                    #[trigger] cats_of(presets_view(presets@))[j],
                    field@,
                ) == 0,
        },
{
    proof {
        lemma_best_match_is_max(cats_of(presets_view(presets@)), field@);
    }
    if field.unicode_len() == 0 {
        return None;
    }
    let names = cat_names_in(presets);
    let ghost ns = strings_view(names@);
    let mut best: Option<(usize, u8)> = None;
    let mut i: usize = 0;
    while i < names.len()
        invariant
            ns == strings_view(names@),
            i <= names@.len(),
            best_match(ns.take(i as int), field@) >= 0 <==> best is Some,
            best matches Some(b) ==> b.0 < i && b.0 == best_match(ns.take(i as int), field@)
                && b.1 == match_level(ns[b.0 as int], field@),
        decreases names@.len() - i,
    {
        proof {
            assert(ns.take(i + 1).drop_last() =~= ns.take(i as int));
            assert(ns.take(i + 1).last() == ns[i as int]);
            lemma_best_match_range(ns.take(i as int), field@);
            if let Some(b) = best {
                assert(ns.take(i + 1)[b.0 as int] == ns[b.0 as int]);
            }
        }
        let l = str_match_level(names[i].as_str(), field);
        match best {
            None => {
                if l > 0 {
                    best = Some((i, l));
                }
            },
            Some(b) => {
                if l > b.1 {
                    best = Some((i, l));
                }
            },
        }
        i = i + 1;
    }
    assert(ns.take(i as int) =~= ns);
    match best {
        Some(b) => Some(names[b.0].clone()),
        None => None,
    }
}

/// The preset names that match `field`: those equal to it (ignoring case)
/// first, then those starting with it, then those containing it, each
/// group in library order; nothing when `field` is empty.
pub fn search_presets_in(presets: &Vec<DevicePreset>, field: &str) -> (r: Vec<String>)
    ensures
        field@.len() == 0 ==> r@.len() == 0,
        field@.len() > 0 ==> strings_view(r@) == at_level(names_of(presets_view(presets@)), field@, 200)
            + at_level(names_of(presets_view(presets@)), field@, 100) + at_level(
            names_of(presets_view(presets@)),
            field@,
            50,
        ),
{
    if field.unicode_len() == 0 {
        return Vec::new();
    }
    let names = names_in(presets);
    let ghost ns = strings_view(names@);
    let mut levels: Vec<u8> = Vec::new();
    let mut i: usize = 0;
    while i < names.len()
        invariant
            i <= names@.len(),
            levels@.len() == i,
            forall|j: int| 0 <= j < i ==> levels@[j] == match_level(#[trigger] names@[j]@, field@),
        decreases names@.len() - i,
    {
        levels.push(str_match_level(names[i].as_str(), field));
        i = i + 1;
    }
    let mut r: Vec<String> = Vec::new();
    let mut round: usize = 0;
    let ghost mut done: Seq<Seq<char>> = seq![];
    while round < 3
        invariant
            ns == strings_view(names@),
            levels@.len() == names@.len(),
            forall|j: int| 0 <= j < names@.len() ==> levels@[j] == match_level(#[trigger] names@[j]@, field@),
            round <= 3,
            done == (if round == 0 {
                seq![]
            } else if round == 1 {
                at_level(ns, field@, 200)
            } else if round == 2 {
                at_level(ns, field@, 200) + at_level(ns, field@, 100)
            } else {
                at_level(ns, field@, 200) + at_level(ns, field@, 100) + at_level(ns, field@, 50)
            }),
            strings_view(r@) == done,
        decreases 3 - round,
    {
        let lvl: u8 = if round == 0 { 200 } else if round == 1 { 100 } else { 50 };
        let ghost start = r@.len();
        let mut k: usize = 0;
        while k < names.len()
            invariant
                ns == strings_view(names@),
                levels@.len() == names@.len(),
                forall|j: int| 0 <= j < names@.len() ==> levels@[j] == match_level(#[trigger] names@[j]@, field@),
                k <= names@.len(),
                start <= r@.len(),
                strings_view(r@) == done + at_level(ns.take(k as int), field@, lvl),
            decreases names@.len() - k,
        {
            proof {
                assert(ns.take(k + 1).drop_last() =~= ns.take(k as int));
                assert(ns.take(k + 1).last() == ns[k as int]);
            }
            if levels[k] == lvl {
                let ghost old_r = r@;
                r.push(names[k].clone());
                assert(strings_view(r@) =~= strings_view(old_r).push(ns[k as int]));
                assert(strings_view(r@) =~= done + at_level(ns.take(k as int), field@, lvl).push(ns[k as int]));
            }
            k = k + 1;
        }
        assert(ns.take(k as int) =~= ns);
        proof {
            done = done + at_level(ns, field@, lvl);
        }
        round = round + 1;
    }
    r
}

impl Library {
    /// Every preset of the library can be built into a device.
    pub closed spec fn presets_buildable(&self) -> bool {
        forall|k: int| 0 <= k < self.presets@.len() ==> (#[trigger] self.presets@[k]).data.buildable()
    }

    /// The preset named `name`.
    pub closed spec fn preset_of(&self, name: Seq<char>) -> DevicePreset {
        self.presets@[index_of_name(self@.presets, name)]
    }

    /// A library with the default presets and no changes.
    pub fn new() -> (r: Self)
        ensures
            r@.presets == seq![and_preset(), not_preset()],
            r@.changes == Seq::<(Seq<char>, Change)>::empty(),
            r.presets_buildable(),
    {
        let r = Library { presets: default_presets(), changes: Vec::new() };
        assert(r@.changes =~= Seq::<(Seq<char>, Change)>::empty());
        proof {
            assert forall|k: int| 0 <= k < r.presets@.len() implies (#[trigger] r.presets@[k]).data.buildable() by {
                lemma_wf_buildable(r.presets@[k].data);
            }
        }
        r
    }

    /// Takes the recorded changes, leaving none.
    pub fn consume_changes(&mut self) -> (r: Vec<(String, Change)>)
        ensures
            changes_view(r@) == old(self)@.changes,
            final(self)@.presets == old(self)@.presets,
            final(self)@.changes == Seq::<(Seq<char>, Change)>::empty(),
    {
        let mut new: Vec<(String, Change)> = Vec::new();
        std::mem::swap(&mut self.changes, &mut new);
        assert(self@.changes =~= Seq::<(Seq<char>, Change)>::empty());
        new
    }

    /// The names of all presets, in order.
    pub fn preset_names(&self) -> (r: Vec<String>)
        ensures
            strings_view(r@) == names_of(self@.presets),
    {
        names_in(&self.presets)
    }

    /// The index of the preset named `name`.
    pub fn get_preset_idx(&self, name: &str) -> (r: Option<usize>)
        ensures
            r matches Some(i) ==> i == index_of_name(self@.presets, name@),
            r is None <==> index_of_name(self@.presets, name@) < 0,
    {
        preset_index(&self.presets, name)
    }

    /// The preset named `name`.
    pub fn get_preset(&self, name: &str) -> (r: Option<&DevicePreset>)
        ensures
            r matches Some(p) ==> index_of_name(self@.presets, name@) >= 0
                && p@ == self@.presets[index_of_name(self@.presets, name@)],
            r matches Some(p) ==> *p == self.preset_of(name@) && (self.presets_buildable() ==> p.data.buildable()),
            r is None <==> index_of_name(self@.presets, name@) < 0,
    {
        match preset_index(&self.presets, name) {
            Some(i) => {
                proof {
                    lemma_index_of_name(self@.presets, name@);
                }
                Some(&self.presets[i])
            },
            None => None,
        }
    }

    /// Adds `preset`, replacing the preset of the same name if there is one;
    /// with `save`, records the change.
    pub fn add_preset(&mut self, preset: DevicePreset, save: bool)
        ensures
            final(self)@ == old(self)@.added(preset@, save),
            old(self).presets_buildable() && preset.data.buildable() ==> final(self).presets_buildable(),
    {
        proof {
            lemma_index_of_name(self@.presets, preset@.name);
        }
        let name = preset.name.clone();
        let change = match preset_index(&self.presets, name.as_str()) {
            Some(idx) => {
                self.presets.set(idx, preset);
                Change::Modified
            },
            None => {
                self.presets.push(preset);
                Change::Added
            },
        };
        if save {
            self.changes.push((name, change));
        }
        assert(self@.presets =~= old(self)@.added(preset@, save).presets);
        assert(self@.changes =~= old(self)@.added(preset@, save).changes);
        assert(forall|k: int| 0 <= k < self.presets@.len() ==> #[trigger] self.presets@[k] == preset
            || self.presets@[k] == old(self).presets@[k]);
    }

    /// Adds a copy of each of `presets` in turn, recording each change.
    pub fn add_presets(&mut self, presets: &Vec<DevicePreset>)
        ensures
            final(self)@ == old(self)@.added_all(presets_view(presets@).map_values(
                |p: DevicePresetView| preset_copied(p),
            )),
    {
        let ghost copies = presets_view(presets@).map_values(|p: DevicePresetView| preset_copied(p));
        let mut i: usize = 0;
        while i < presets.len()
            invariant
                i <= presets@.len(),
                copies == presets_view(presets@).map_values(|p: DevicePresetView| preset_copied(p)),
                self@ == old(self)@.added_all(copies.take(i as int)),
            decreases presets@.len() - i,
        {
            let p = presets[i].clone();
            proof {
                assert(copies.take(i + 1).drop_last() =~= copies.take(i as int));
            }
            self.add_preset(p, true);
            i = i + 1;
        }
        assert(copies.take(i as int) =~= copies);
    }

    /// Removes the preset named `name`, recording the change.
    pub fn remove_preset(&mut self, name: &str)
        requires
            index_of_name(old(self)@.presets, name@) >= 0,
        ensures
            final(self)@ == old(self)@.removed(name@),
            old(self).presets_buildable() ==> final(self).presets_buildable(),
    {
        proof {
            lemma_index_of_name(self@.presets, name@);
        }
        let idx = match preset_index(&self.presets, name) {
            Some(i) => i,
            None => 0,
        };
        self.presets.remove(idx);
        self.changes.push((name.to_owned(), Change::Removed));
        assert(self@.presets =~= old(self)@.removed(name@).presets);
        assert(self@.changes =~= old(self)@.removed(name@).changes);
        assert(forall|k: int| 0 <= k < self.presets@.len() ==> #[trigger] self.presets@[k] == old(self).presets@[if k
            < idx {
            k
        } else {
            k + 1
        }]);
    }

    /// The distinct categories, in order of first appearance.
    pub fn cat_names(&self) -> (r: Vec<String>)
        ensures
            strings_view(r@) == cats_of(self@.presets),
    {
        cat_names_in(&self.presets)
    }

    /// The names of the presets in category `cat`, in order.
    pub fn cat_presets(&self, cat: &str) -> (r: Vec<String>)
        ensures
            strings_view(r@) == names_of(in_cat(self@.presets, cat@)),
    {
        cat_presets_in(&self.presets, cat)
    }

    /// The presets grouped by category: each category once, in order of first
    /// appearance, with its presets in order.
    pub fn cats_sorted(&self) -> (r: Vec<(&str, Vec<&DevicePreset>)>)
        ensures
            r@.len() == cats_of(self@.presets).len(),
            forall|k: int| 0 <= k < r@.len() ==> (#[trigger] r@[k]).0@ == cats_of(self@.presets)[k],
            forall|k: int| 0 <= k < r@.len() ==> (#[trigger] r@[k]).1@.map_values(|p: &DevicePreset| p@)
                == in_cat(self@.presets, cats_of(self@.presets)[k]),
    {
        cats_sorted_in(&self.presets)
    }

    /// The category that best matches `field`: the first of those with the
    /// highest match level, or `None` when `field` is empty or nothing
    /// matches.
    pub fn search_cats(&self, field: &str) -> (r: Option<String>)
        ensures
            field@.len() == 0 ==> r is None,
            field@.len() > 0 ==> match r {
                Some(c) => best_match(cats_of(self@.presets), field@) >= 0
                    && c@ == cats_of(self@.presets)[best_match(cats_of(self@.presets), field@)],
                None => best_match(cats_of(self@.presets), field@) < 0,
            },
            field@.len() > 0 ==> match r {
                Some(c) => forall|j: int|
                    0 <= j < cats_of(self@.presets).len() ==> match_level(#[trigger] cats_of(self@.presets)[j], field@)
                        <= match_level(c@, field@),
                None => forall|j: int|
                    0 <= j < cats_of(self@.presets).len() ==> match_level(#[trigger] cats_of(self@.presets)[j], field@)
                        == 0,
            },
    {
        search_cats_in(&self.presets, field)
    }

    /// The preset names that match `field`: those equal to it (ignoring case)
    /// first, then those starting with it, then those containing it, each
    /// group in library order; nothing when `field` is empty.
    pub fn search_presets(&self, field: &str) -> (r: Vec<String>)
        ensures
            field@.len() == 0 ==> r@.len() == 0,
            field@.len() > 0 ==> strings_view(r@) == at_level(names_of(self@.presets), field@, 200)
                + at_level(names_of(self@.presets), field@, 100) + at_level(
                names_of(self@.presets),
                field@,
                50,
            ),
    {
        search_presets_in(&self.presets, field)
    }
}

/// The views of a list with one preset replaced are the views with that
/// view replaced.
proof fn lemma_presets_view_update(v: Seq<DevicePreset>, i: int, x: DevicePreset)
    requires
        0 <= i < v.len(),
    ensures
        presets_view(v.update(i, x)) == presets_view(v).update(i, x@),
{
    assert(presets_view(v.update(i, x)) =~= presets_view(v).update(i, x@));
}

/// The presets and the names of those changed or removed since the last
/// save (the form kept before changes were recorded one by one).
pub struct Presets {
    presets: Vec<DevicePreset>,
    dirty: Vec<String>,
    removed: Vec<String>,
}

/// A preset list as values: the presets, the names changed and the names
/// removed since the last save.
pub struct PresetsView {
    pub presets: Seq<DevicePresetView>,
    pub dirty: Seq<Seq<char>>,
    pub removed: Seq<Seq<char>>,
}

impl View for Presets {
    type V = PresetsView;

    closed spec fn view(&self) -> PresetsView {
        PresetsView {
            presets: presets_view(self.presets@),
            dirty: strings_view(self.dirty@),
            removed: strings_view(self.removed@),
        }
    }
}

/// `ps` with `p` in place of the preset of the same name, or with `p`
/// appended when there is none.
pub open spec fn put_preset(ps: Seq<DevicePresetView>, p: DevicePresetView) -> Seq<DevicePresetView> {
    let i = index_of_name(ps, p.name);
    if i >= 0 {
        ps.update(i, p)
    } else {
        ps.push(p)
    }
}

impl PresetsView {
    /// The list after adding `p`, which is marked changed.
    pub open spec fn added(self, p: DevicePresetView) -> PresetsView {
        PresetsView { presets: put_preset(self.presets, p), dirty: self.dirty.push(p.name), ..self }
    }

    /// The list after adding each of `ps` in turn.
    pub open spec fn merged(self, ps: Seq<DevicePresetView>) -> PresetsView
        decreases ps.len(),
    {
        if ps.len() == 0 {
            self
        } else {
            self.merged(ps.drop_last()).added(ps.last())
        }
    }

    /// The list after removing the preset named `name`, which is marked
    /// removed.
    pub open spec fn without(self, name: Seq<char>) -> PresetsView {
        PresetsView {
            presets: self.presets.remove(index_of_name(self.presets, name)),
            removed: self.removed.push(name),
            ..self
        }
    }
}

impl Presets {
    /// The built-in presets (an and gate and a not gate), both marked
    /// changed.
    pub fn default() -> (r: Presets)
        ensures
            r@.presets == seq![and_preset(), not_preset()],
            r@.dirty == seq!["And"@, "Not"@],
            r@.removed.len() == 0,
    {
        let mut presets = Presets::new(Vec::new());
        let ghost v0 = presets@;
        presets.add_preset(and_gate_preset());
        let ghost v1 = presets@;
        presets.add_preset(not_gate_preset());
        proof {
            assert(v0.presets =~= Seq::<DevicePresetView>::empty());
            assert(index_of_name(Seq::<DevicePresetView>::empty(), "And"@) == -1);
            assert(v1.presets =~= seq![and_preset()]);
            assert(seq![and_preset()].drop_last() =~= Seq::<DevicePresetView>::empty());
            lemma_default_names_unique();
            assert(and_preset().name != not_preset().name) by {
                let ps = seq![and_preset(), not_preset()];
                assert(ps[0].name != ps[1].name);
            }
            assert(seq![and_preset()].last() == and_preset());
            assert(index_of_name(seq![and_preset()].drop_last(), "Not"@) == -1);
            assert(index_of_name(seq![and_preset()], "Not"@) == -1);
            assert(seq![and_preset()].push(not_preset()) =~= seq![and_preset(), not_preset()]);
            assert(presets@.presets =~= seq![and_preset(), not_preset()]);
            assert(presets@.dirty =~= seq!["And"@, "Not"@]);
        }
        presets
    }

    /// A list of `presets`, with nothing marked.
    pub fn new(presets: Vec<DevicePreset>) -> (r: Presets)
        ensures
            r@.presets == presets_view(presets@),
            r@.dirty.len() == 0,
            r@.removed.len() == 0,
    {
        Presets { presets, dirty: Vec::new(), removed: Vec::new() }
    }

    /// Takes the names marked changed, leaving none.
    pub fn consume_dirty(&mut self) -> (r: Vec<String>)
        ensures
            strings_view(r@) == old(self)@.dirty,
            final(self)@ == (PresetsView { dirty: seq![], ..old(self)@ }),
    {
        let mut new: Vec<String> = Vec::new();
        std::mem::swap(&mut self.dirty, &mut new);
        assert(self@.dirty =~= Seq::<Seq<char>>::empty());
        new
    }

    /// Takes the names marked removed, leaving none.
    pub fn consume_removed(&mut self) -> (r: Vec<String>)
        ensures
            strings_view(r@) == old(self)@.removed,
            final(self)@ == (PresetsView { removed: seq![], ..old(self)@ }),
    {
        let mut new: Vec<String> = Vec::new();
        std::mem::swap(&mut self.removed, &mut new);
        assert(self@.removed =~= Seq::<Seq<char>>::empty());
        new
    }

    /// All presets, in order.
    pub fn get(&self) -> (r: &[DevicePreset])
        ensures
            presets_view(r@) == self@.presets,
    {
        self.presets.as_slice()
    }

    /// Adds `preset`, replacing the preset of the same name if there is one,
    /// and marks its name changed.
    pub fn add_preset(&mut self, preset: DevicePreset)
        ensures
            final(self)@ == old(self)@.added(preset@),
    {
        proof {
            lemma_index_of_name(self@.presets, preset@.name);
        }
        self.dirty.push(preset.name.clone());
        match preset_index(&self.presets, preset.name.as_str()) {
            Some(idx) => {
                self.presets.set(idx, preset);
            },
            None => {
                self.presets.push(preset);
            },
        }
        assert(self@.presets =~= old(self)@.added(preset@).presets);
        assert(self@.dirty =~= old(self)@.added(preset@).dirty);
    }

    /// Adds a copy of each of `presets` in turn.
    pub fn merge(&mut self, presets: &[DevicePreset])
        ensures
            final(self)@ == old(self)@.merged(presets_view(presets@).map_values(
                |p: DevicePresetView| preset_copied(p),
            )),
    {
        let ghost copies = presets_view(presets@).map_values(|p: DevicePresetView| preset_copied(p));
        let mut i: usize = 0;
        while i < presets.len()
            invariant
                i <= presets@.len(),
                copies == presets_view(presets@).map_values(|p: DevicePresetView| preset_copied(p)),
                self@ == old(self)@.merged(copies.take(i as int)),
            decreases presets@.len() - i,
        {
            let p = presets[i].clone();
            proof {
                assert(copies.take(i + 1).drop_last() =~= copies.take(i as int));
            }
            self.add_preset(p);
            i = i + 1;
        }
        assert(copies.take(i as int) =~= copies);
    }

    /// Removes the preset named `name` and marks the name removed.
    pub fn remove_preset(&mut self, name: &str)
        requires
            index_of_name(old(self)@.presets, name@) >= 0,
        ensures
            final(self)@ == old(self)@.without(name@),
    {
        proof {
            lemma_index_of_name(self@.presets, name@);
        }
        let idx = match preset_index(&self.presets, name) {
            Some(i) => i,
            None => 0,
        };
        self.presets.remove(idx);
        self.removed.push(name.to_owned());
        assert(self@.presets =~= old(self)@.without(name@).presets);
        assert(self@.removed =~= old(self)@.without(name@).removed);
    }

    /// The index of the preset named `name`.
    pub fn get_preset_idx(&self, name: &str) -> (r: Option<usize>)
        ensures
            r matches Some(i) ==> i == index_of_name(self@.presets, name@),
            r is None <==> index_of_name(self@.presets, name@) < 0,
    {
        preset_index(&self.presets, name)
    }

    /// The preset named `name`.
    pub fn get_preset(&self, name: &str) -> (r: Option<&DevicePreset>)
        ensures
            r matches Some(p) ==> index_of_name(self@.presets, name@) >= 0
                && p@ == self@.presets[index_of_name(self@.presets, name@)],
            r is None <==> index_of_name(self@.presets, name@) < 0,
    {
        match preset_index(&self.presets, name) {
            Some(i) => {
                proof {
                    lemma_index_of_name(self@.presets, name@);
                }
                Some(&self.presets[i])
            },
            None => None,
        }
    }

    /// The preset named `name`, to change in place.
    pub fn mut_preset(&mut self, name: &str) -> (r: Option<&mut DevicePreset>)
        ensures
            r is None <==> index_of_name(old(self)@.presets, name@) < 0,
            r is None ==> final(self)@ == old(self)@,
            r matches Some(p) ==> index_of_name(old(self)@.presets, name@) >= 0 && (*p)@ == old(
                self,
            )@.presets[index_of_name(old(self)@.presets, name@)] && final(self)@ == (PresetsView {
                presets: old(self)@.presets.update(index_of_name(old(self)@.presets, name@), (*final(p))@),
                ..old(self)@
            }),
    {
        match preset_index(&self.presets, name) {
            Some(i) => {
                proof {
                    lemma_index_of_name(self@.presets, name@);
                }
                let r = &mut self.presets[i];
                proof {
                    lemma_presets_view_update(old(self).presets@, i as int, *final(r));
                }
                Some(r)
            },
            None => None,
        }
    }

    /// The categories, each once, in order of first appearance.
    pub fn cat_names(&self) -> (r: Vec<String>)
        ensures
            strings_view(r@) == cats_of(self@.presets),
    {
        cat_names_in(&self.presets)
    }

    /// The names of the presets in category `cat`, in order.
    pub fn cat_presets(&self, cat: &str) -> (r: Vec<String>)
        ensures
            strings_view(r@) == names_of(in_cat(self@.presets, cat@)),
    {
        cat_presets_in(&self.presets, cat)
    }

    /// The presets grouped by category, as `Library::cats_sorted` groups them.
    pub fn cats_sorted(&self) -> (r: Vec<(&str, Vec<&DevicePreset>)>)
        ensures
            r@.len() == cats_of(self@.presets).len(),
            forall|k: int| 0 <= k < r@.len() ==> (#[trigger] r@[k]).0@ == cats_of(self@.presets)[k],
            forall|k: int| 0 <= k < r@.len() ==> (#[trigger] r@[k]).1@.map_values(|p: &DevicePreset| p@)
                == in_cat(self@.presets, cats_of(self@.presets)[k]),
    {
        cats_sorted_in(&self.presets)
    }

    /// The category that best matches `field`, as `Library::search_cats`
    /// finds it.
    pub fn search_cats(&self, field: &str) -> (r: Option<String>)
        ensures
            field@.len() == 0 ==> r is None,
            field@.len() > 0 ==> match r {
                Some(c) => best_match(cats_of(self@.presets), field@) >= 0
                    && c@ == cats_of(self@.presets)[best_match(cats_of(self@.presets), field@)],
                None => best_match(cats_of(self@.presets), field@) < 0,
            },
            field@.len() > 0 ==> match r {
                Some(c) => forall|j: int|
                    0 <= j < cats_of(self@.presets).len() ==> match_level(#[trigger] cats_of(self@.presets)[j], field@)
                        <= match_level(c@, field@),
                None => forall|j: int|
                    0 <= j < cats_of(self@.presets).len() ==> match_level(#[trigger] cats_of(self@.presets)[j], field@)
                        == 0,
            },
    {
        search_cats_in(&self.presets, field)
    }

    /// The preset names that match `field`, as `Library::search_presets`
    /// lists them.
    pub fn search_presets(&self, field: &str) -> (r: Vec<String>)
        ensures
            field@.len() == 0 ==> r@.len() == 0,
            field@.len() > 0 ==> strings_view(r@) == at_level(names_of(self@.presets), field@, 200)
                + at_level(names_of(self@.presets), field@, 100) + at_level(
                names_of(self@.presets),
                field@,
                50,
            ),
    {
        search_presets_in(&self.presets, field)
    }
}

/// After adding a preset, looking its name up finds that very preset, and
/// every other preset is still found as before.
pub proof fn lemma_added_then_found(lib: LibraryView, p: DevicePresetView, save: bool, other: Seq<char>)
    requires
        other != p.name,
    ensures
        index_of_name(lib.added(p, save).presets, p.name) >= 0,
        lib.added(p, save).presets[index_of_name(lib.added(p, save).presets, p.name)] == p,
        index_of_name(lib.added(p, save).presets, other) >= 0 <==> index_of_name(lib.presets, other) >= 0,
        index_of_name(lib.presets, other) >= 0 ==> lib.added(p, save).presets[index_of_name(
            lib.added(p, save).presets,
            other,
        )] == lib.presets[index_of_name(lib.presets, other)],
{
    let ps = lib.presets;
    let qs = lib.added(p, save).presets;
    lemma_index_of_name(ps, p.name);
    lemma_index_of_name(ps, other);
    lemma_index_of_name(qs, p.name);
    lemma_index_of_name(qs, other);
    let i = index_of_name(ps, p.name);
    let k = index_of_name(qs, p.name);
    if i >= 0 {
        assert(qs[i].name == p.name);
        if k < 0 || k > i {
            assert(qs[i].name != p.name);
        }
        if k < i {
            assert(qs[k] == ps[k]);
        }
    } else {
        assert(qs[ps.len() as int].name == p.name);
        if k < 0 || k > ps.len() {
            assert(qs[ps.len() as int].name != p.name);
        }
        if 0 <= k < ps.len() {
            assert(qs[k] == ps[k]);
        }
    }
    let a = index_of_name(ps, other);
    let b = index_of_name(qs, other);
    if a >= 0 {
        assert(qs[a] == ps[a]);
        if b < 0 || b > a {
            assert(qs[a].name != other);
        }
        if 0 <= b < a {
            assert(qs[b] == ps[b]);
        }
    } else if b >= 0 {
        if b < ps.len() {
            assert(qs[b] == ps[b]);
        }
    }
}

/// Adding and removing presets keeps their names unique.
pub proof fn lemma_names_stay_unique(lib: LibraryView, p: DevicePresetView, save: bool, name: Seq<char>)
    requires
        lib.names_unique(),
    ensures
        lib.added(p, save).names_unique(),
        index_of_name(lib.presets, name) >= 0 ==> lib.removed(name).names_unique(),
{
    let ps = lib.presets;
    lemma_index_of_name(ps, p.name);
    let i = index_of_name(ps, p.name);
    let qs = lib.added(p, save).presets;
    assert forall|a: int, b: int| 0 <= a < qs.len() && 0 <= b < qs.len() && a != b implies #[trigger] qs[a].name
        != #[trigger] qs[b].name by {
        if i >= 0 {
            if a != i && b != i {
                assert(ps[a].name != ps[b].name);
            } else if a == i {
                assert(ps[b].name != ps[i].name);
            } else {
                assert(ps[a].name != ps[i].name);
            }
        } else {
            if a < ps.len() && b < ps.len() {
                assert(ps[a].name != ps[b].name);
            } else if a < ps.len() {
                assert(ps[a].name != p.name);
            } else {
                assert(ps[b].name != p.name);
            }
        }
    }
    if index_of_name(ps, name) >= 0 {
        lemma_index_of_name(ps, name);
        let k = index_of_name(ps, name);
        let rs = lib.removed(name).presets;
        assert forall|a: int, b: int| 0 <= a < rs.len() && 0 <= b < rs.len() && a != b implies #[trigger] rs[a].name
            != #[trigger] rs[b].name by {
            let a2 = if a < k { a } else { a + 1 };
            let b2 = if b < k { b } else { b + 1 };
            assert(rs[a] == ps[a2]);
            assert(rs[b] == ps[b2]);
            assert(ps[a2].name != ps[b2].name);
        }
    }
}

/// With unique names, a removed preset is no longer found.
pub proof fn lemma_removed_not_found(lib: LibraryView, name: Seq<char>)
    requires
        lib.names_unique(),
        index_of_name(lib.presets, name) >= 0,
    ensures
        index_of_name(lib.removed(name).presets, name) < 0,
        lib.removed(name).presets.len() + 1 == lib.presets.len(),
{
    let ps = lib.presets;
    lemma_index_of_name(ps, name);
    let k = index_of_name(ps, name);
    let rs = lib.removed(name).presets;
    lemma_index_of_name(rs, name);
    let j = index_of_name(rs, name);
    if j >= 0 {
        let j2 = if j < k { j } else { j + 1 };
        assert(rs[j] == ps[j2]);
        assert(ps[j2].name != ps[k].name);
    }
}

/// The default presets have unique names.
pub proof fn lemma_default_names_unique()
    ensures
        (LibraryView { presets: seq![and_preset(), not_preset()], changes: seq![] }).names_unique(),
{
    reveal_strlit("And");
    reveal_strlit("Not");
    let ps = seq![and_preset(), not_preset()];
    assert(ps[0].name != ps[1].name) by {
        assert(ps[0].name[0] != ps[1].name[0]);
    }
}

/// The best match, when there is one, is an index of the list.
pub proof fn lemma_best_match_range(names: Seq<Seq<char>>, field: Seq<char>)
    ensures
        -1 <= best_match(names, field) < names.len(),
    decreases names.len(),
{
    if names.len() > 0 {
        lemma_best_match_range(names.drop_last(), field);
    }
}

/// The best match of `field` among `names` is a name with the highest
/// match level of all, the first such, and that level is positive; there
/// is none exactly when every name has level 0.
pub proof fn lemma_best_match_is_max(names: Seq<Seq<char>>, field: Seq<char>)
    ensures
        best_match(names, field) < 0 <==> forall|j: int| 0 <= j < names.len() ==> match_level(#[trigger] names[j], field)
            == 0,
        best_match(names, field) >= 0 ==> {
            let b = best_match(names, field);
            &&& b < names.len()
            &&& match_level(names[b], field) > 0
            &&& forall|j: int| 0 <= j < names.len() ==> match_level(#[trigger] names[j], field) <= match_level(
                names[b],
                field,
            )
            &&& forall|j: int| 0 <= j < b ==> match_level(#[trigger] names[j], field) < match_level(names[b], field)
        },
    decreases names.len(),
{
    if names.len() > 0 {
        let init = names.drop_last();
        lemma_best_match_is_max(init, field);
        lemma_best_match_range(init, field);
        assert forall|j: int| 0 <= j < init.len() implies #[trigger] init[j] == names[j] by {}
        let b = best_match(init, field);
        if b >= 0 {
            assert(match_level(init[b], field) > 0);
            assert(names[b] == init[b]);
        } else {
            assert forall|j: int| 0 <= j < init.len() implies match_level(#[trigger] names[j], field) == 0 by {
                assert(match_level(init[j], field) == 0);
            }
        }
        if best_match(names, field) >= 0 {
            let bb = best_match(names, field);
            assert forall|j: int| 0 <= j < names.len() implies match_level(#[trigger] names[j], field) <= match_level(
                names[bb],
                field,
            ) by {
                if j < init.len() {
                    assert(match_level(init[j], field) == match_level(names[j], field));
                }
            }
            assert forall|j: int| 0 <= j < bb implies match_level(#[trigger] names[j], field) < match_level(
                names[bb],
                field,
            ) by {
                assert(match_level(init[j], field) == match_level(names[j], field));
            }
        } else {
            assert forall|j: int| 0 <= j < names.len() implies match_level(#[trigger] names[j], field) == 0 by {
                if j < init.len() {
                    assert(match_level(init[j], field) == match_level(names[j], field));
                }
            }
        }
        if forall|j: int| 0 <= j < names.len() ==> match_level(#[trigger] names[j], field) == 0 {
            assert(match_level(names[names.len() - 1], field) == 0);
            assert forall|j: int| 0 <= j < init.len() implies match_level(#[trigger] init[j], field) == 0 by {
                assert(match_level(names[j], field) == 0);
            }
        }
    }
}

/// Every listed category is the category of some preset.
pub proof fn lemma_cats_occur(ps: Seq<DevicePresetView>, k: int)
    requires
        0 <= k < cats_of(ps).len(),
    ensures
        exists|i: int| 0 <= i < ps.len() && (#[trigger] ps[i]).cat == cats_of(ps)[k],
    decreases ps.len(),
{
    if ps.len() > 0 {
        let c = cats_of(ps.drop_last());
        if k < c.len() {
            lemma_cats_occur(ps.drop_last(), k);
            let i = choose|i: int| 0 <= i < ps.drop_last().len() && (#[trigger] ps.drop_last()[i]).cat == c[k];
            assert(ps[i] == ps.drop_last()[i]);
        } else {
            assert(ps[ps.len() - 1].cat == cats_of(ps)[k]);
        }
    }
}

/// A category held by some preset has at least one preset in it.
pub proof fn lemma_in_cat_nonempty(ps: Seq<DevicePresetView>, c: Seq<char>)
    requires
        exists|i: int| 0 <= i < ps.len() && (#[trigger] ps[i]).cat == c,
    ensures
        in_cat(ps, c).len() > 0,
    decreases ps.len(),
{
    if ps.last().cat != c {
        let i = choose|i: int| 0 <= i < ps.len() && (#[trigger] ps[i]).cat == c;
        assert(ps.drop_last()[i] == ps[i]);
        lemma_in_cat_nonempty(ps.drop_last(), c);
    }
}

/// The board after input pins `ins[0]`, ..., `ins[n - 1]` take, in turn, the
/// states of bits `0`, ..., `n - 1` of `s`.
pub open spec fn set_inputs(b: BoardView, ins: Seq<u64>, s: u64, n: nat) -> BoardView
    decreases n,
{
    if n == 0 {
        b
    } else {
        set_inputs(b, ins, s, (n - 1) as nat).set_input(ins[n - 1], bit_of(s, (n - 1) as nat))
    }
}

/// `c` is a possible board after one update of `b`.
#[verifier::opaque]
pub open spec fn update_step(b: BoardView, c: BoardView) -> bool {
    if b.run_ready().1 {
        c == b.run_ready().0
    } else {
        exists|order: Seq<u64>, dss: Seq<Seq<u8>>, ds: Seq<u8>|
            b.tick_draws_ok(order, dss, ds) && c == b.tick(order, dss, ds)
    }
}

/// Writes are still to land on `b`: pending in its queue, or buffered.
pub open spec fn busy(b: BoardView) -> bool {
    b.writes.len() > 0 || b.buffer.len() > 0
}

/// `trace` is a run of updates that settles: each board but the last has
/// writes pending or buffered and is followed by a possible update of it,
/// the last has none, and there are at most 1001 updates.
pub open spec fn settles(trace: Seq<BoardView>) -> bool {
    &&& 1 <= trace.len() <= 1002
    &&& forall|j: int| 0 <= j < trace.len() - 1 ==> update_step(#[trigger] trace[j], trace[j + 1])
    &&& forall|j: int| 0 <= j < trace.len() - 1 ==> busy(#[trigger] trace[j])
    &&& !busy(trace.last())
}

/// `trace` is a run of 1001 updates that never settles: every board in it,
/// the last one too, has writes pending or buffered, and each is followed by
/// a possible update of it.
pub open spec fn stays_busy(trace: Seq<BoardView>) -> bool {
    &&& trace.len() == 1002
    &&& forall|j: int| 0 <= j < trace.len() - 1 ==> update_step(#[trigger] trace[j], trace[j + 1])
    &&& forall|j: int| 0 <= j < trace.len() ==> busy(#[trigger] trace[j])
}

/// The states of output pins `outs` on `c`, packed from bit 0 upward.
pub open spec fn output_row(c: BoardView, outs: Seq<u64>) -> u64 {
    pack_bits(outs.map_values(|id: u64| c.outputs[id].state))
}

/// `ids` lists the pins of `pins` once each, from the top down.
pub open spec fn sorted_pins(pins: Map<u64, IoView>, ids: Seq<u64>) -> bool {
    &&& ids.no_duplicates()
    &&& ids.to_set() == pins.dom()
    &&& forall|i: int, j: int| 0 <= i < j < ids.len() ==> pins[ids[i]].y_pos <= pins[ids[j]].y_pos
}

/// The rows `map` come from simulating `b`: row `s` sets the inputs `ins` to
/// the bits of `s` on the board where row `s - 1` settled (`b` for row 0),
/// runs updates until it settles (the run `traces[s]`), and packs the states
/// of the outputs `outs`.
pub open spec fn table_run(
    b: BoardView,
    ins: Seq<u64>,
    outs: Seq<u64>,
    traces: Seq<Seq<BoardView>>,
    map: Seq<u64>,
) -> bool {
    &&& traces.len() == map.len()
    &&& forall|s: int|
        0 <= s < traces.len() ==> {
            &&& settles(#[trigger] traces[s])
            &&& traces[s][0] == set_inputs(
                if s == 0 {
                    b
                } else {
                    traces[s - 1].last()
                },
                ins,
                s as u64,
                ins.len(),
            )
            &&& map[s] == output_row(traces[s].last(), outs)
        }
}

/// `t` is a truth table simulated from board `b`: its inputs and outputs are
/// the board's pins from the top down, and its rows, one per input state,
/// come from a run of the simulation (`table_run`).
pub open spec fn gate_preset_of(b: BoardView, t: CombGatePresetView) -> bool {
    exists|ins: Seq<u64>, outs: Seq<u64>, traces: Seq<Seq<BoardView>>|
        #![trigger sorted_pins(b.pins(IoSel::Input), ins), sorted_pins(b.pins(IoSel::Output), outs), table_run(b, ins, outs, traces, t.map)]
        {
            &&& sorted_pins(b.pins(IoSel::Input), ins)
            &&& sorted_pins(b.pins(IoSel::Output), outs)
            &&& t.inputs == ins.map_values(|id: u64| b.inputs[id].io.name)
            &&& t.outputs == outs.map_values(|id: u64| b.outputs[id].name)
            &&& t.num_inputs == ins.len()
            &&& t.num_outputs == outs.len()
            &&& t.map.len() == rows(ins.len() as nat)
            &&& table_run(b, ins, outs, traces, t.map)
        }
}

/// Simulating `b` into a truth table finds a loop: with its pins sorted as
/// `sorted_pins` says, rows `0..s` settle as `table_run` says, and from the
/// start of row `s` a run of 1001 updates stays busy.
pub open spec fn loop_found(b: BoardView) -> bool {
    exists|ins: Seq<u64>, outs: Seq<u64>, traces: Seq<Seq<BoardView>>, map: Seq<u64>, run: Seq<BoardView>|
        #![trigger sorted_pins(b.pins(IoSel::Input), ins), sorted_pins(b.pins(IoSel::Output), outs), table_run(b, ins, outs, traces, map), stays_busy(run)]
        {
            &&& sorted_pins(b.pins(IoSel::Input), ins)
            &&& sorted_pins(b.pins(IoSel::Output), outs)
            &&& table_run(b, ins, outs, traces, map)
            &&& traces.len() < rows(ins.len() as nat)
            &&& stays_busy(run)
            &&& run[0] == set_inputs(
                if traces.len() == 0 {
                    b
                } else {
                    traces.last().last()
                },
                ins,
                traces.len() as u64,
                ins.len(),
            )
        }
}

/// An update keeps the input pins, the set of output pins and the set of
/// devices.
pub proof fn lemma_step_keeps_pins(b: BoardView, c: BoardView)
    requires
        update_step(b, c),
    ensures
        c.inputs == b.inputs,
        c.outputs.dom() == b.outputs.dom(),
        c.devices.dom() == b.devices.dom(),
{
    reveal(update_step);
    lemma_run_ready_keeps_pins(b);
    if !b.run_ready().1 {
        let (order, dss, ds) = choose|order: Seq<u64>, dss: Seq<Seq<u8>>, ds: Seq<u8>|
            b.tick_draws_ok(order, dss, ds) && c == b.tick(order, dss, ds);
        lemma_tick_chips_keeps_pins(b.run_ready().0, order, dss);
    }
}

/// An update never leaves two pending writes for the same target.
pub proof fn lemma_update_keeps_distinct(b: BoardView, c: BoardView)
    requires
        update_step(b, c),
        crate::queue::distinct_targets(b.writes),
    ensures
        crate::queue::distinct_targets(c.writes),
{
    reveal(update_step);
    lemma_run_ready_distinct(b);
    if !b.run_ready().1 {
        let (order, dss, ds) = choose|order: Seq<u64>, dss: Seq<Seq<u8>>, ds: Seq<u8>|
            b.tick_draws_ok(order, dss, ds) && c == b.tick(order, dss, ds);
        let r = b.run_ready().0;
        lemma_tick_chips_keeps_writes(r, order, dss);
        let t = r.tick_chips(order, dss);
        let tk = crate::queue::ticked(t.writes);
        assert(crate::queue::distinct_targets(tk)) by {
            assert forall|i: int, j: int| 0 <= i < tk.len() && 0 <= j < tk.len() && i != j implies #[trigger] tk[i].target
                != #[trigger] tk[j].target by {
                assert(tk[i].target == t.writes[i].target && tk[j].target == t.writes[j].target);
            }
        }
        crate::queue::lemma_flushed_distinct(tk, t.buffer, ds);
    }
}

/// Landing the ready writes only takes writes out.
pub proof fn lemma_run_ready_distinct(b: BoardView)
    requires
        crate::queue::distinct_targets(b.writes),
    ensures
        crate::queue::distinct_targets(b.run_ready().0.writes),
    decreases b.writes.len(),
{
    crate::queue::lemma_find_ready_range(b.writes, 0);
    let k = crate::queue::find_ready(b.writes, 0);
    if 0 <= k < b.writes.len() {
        let w = b.writes[k];
        let v0 = BoardView { writes: b.writes.remove(k), ..b };
        assert(crate::queue::distinct_targets(v0.writes)) by {
            assert forall|i: int, j: int| 0 <= i < v0.writes.len() && 0 <= j < v0.writes.len() && i != j implies #[trigger] v0.writes[i].target
                != #[trigger] v0.writes[j].target by {
                let i2 = if i < k { i } else { i + 1 };
                let j2 = if j < k { j } else { j + 1 };
                assert(v0.writes[i] == b.writes[i2] && v0.writes[j] == b.writes[j2]);
            }
        }
        match v0.land(w.target, w.state) {
            Some(v1) => {
                assert(v1.writes == v0.writes);
                lemma_run_ready_distinct(v1);
            },
            None => {},
        }
    }
}

/// Chips ticking leave the board's pending writes as they are.
pub proof fn lemma_tick_chips_keeps_writes(b: BoardView, order: Seq<u64>, dss: Seq<Seq<u8>>)
    ensures
        b.tick_chips(order, dss).writes == b.writes,
    decreases order.len(),
{
    if order.len() > 0 {
        lemma_tick_chips_keeps_writes(b, order.drop_last(), dss.drop_last());
    }
}

/// Landing the ready writes keeps the input pins, the set of output pins
/// and the set of devices.
pub proof fn lemma_run_ready_keeps_pins(b: BoardView)
    ensures
        b.run_ready().0.inputs == b.inputs,
        b.run_ready().0.outputs.dom() == b.outputs.dom(),
        b.run_ready().0.devices.dom() == b.devices.dom(),
    decreases b.writes.len(),
{
    crate::queue::lemma_find_ready_range(b.writes, 0);
    let k = crate::queue::find_ready(b.writes, 0);
    if 0 <= k < b.writes.len() {
        let w = b.writes[k];
        let v0 = BoardView { writes: b.writes.remove(k), ..b };
        match v0.land(w.target, w.state) {
            Some(v1) => {
                assert(v1.outputs.dom() =~= b.outputs.dom());
                assert(v1.devices.dom() =~= b.devices.dom());
                lemma_run_ready_keeps_pins(v1);
            },
            None => {},
        }
    }
}

/// Chips ticking keep the input and output pins and the set of devices.
pub proof fn lemma_tick_chips_keeps_pins(b: BoardView, order: Seq<u64>, dss: Seq<Seq<u8>>)
    ensures
        b.tick_chips(order, dss).inputs == b.inputs,
        b.tick_chips(order, dss).outputs == b.outputs,
        b.tick_chips(order, dss).devices.dom() == b.devices.dom(),
    decreases order.len(),
{
    if order.len() > 0 {
        lemma_tick_chips_keeps_pins(b, order.drop_last(), dss.drop_last());
        let m = b.tick_chips(order.drop_last(), dss.drop_last());
        assert(m.tick_chip(order.last(), dss.last()).devices.dom() =~= m.devices.dom());
    }
}

/// What `Board::update` promises is one possible update.
pub proof fn lemma_update_step(b: BoardView, c: BoardView)
    requires
        b.run_ready().1 ==> c == b.run_ready().0,
        !b.run_ready().1 ==> exists|order: Seq<u64>, dss: Seq<Seq<u8>>, ds: Seq<u8>|
            b.tick_draws_ok(order, dss, ds) && c == b.tick(order, dss, ds),
    ensures
        update_step(b, c),
{
    reveal(update_step);
}

/// A run of updates grows by one more possible update.
proof fn lemma_trace_push(trace: Seq<BoardView>, c: BoardView)
    requires
        trace.len() >= 1,
        forall|j: int| 0 <= j < trace.len() - 1 ==> update_step(#[trigger] trace[j], trace[j + 1]),
        forall|j: int| 0 <= j < trace.len() - 1 ==> busy(#[trigger] trace[j]),
        update_step(trace.last(), c),
        busy(trace.last()),
    ensures
        forall|j: int| 0 <= j < trace.push(c).len() - 1 ==> update_step(#[trigger] trace.push(c)[j], trace.push(c)[j + 1]),
        forall|j: int| 0 <= j < trace.push(c).len() - 1 ==> busy(#[trigger] trace.push(c)[j]),
{
    let t = trace.push(c);
    assert forall|j: int| 0 <= j < t.len() - 1 implies update_step(#[trigger] t[j], t[j + 1]) by {
        if j < trace.len() - 1 {
            assert(t[j] == trace[j] && t[j + 1] == trace[j + 1]);
        } else {
            assert(t[j] == trace.last() && t[j + 1] == c);
        }
    }
    assert forall|j: int| 0 <= j < t.len() - 1 implies busy(#[trigger] t[j]) by {
        assert(t[j] == trace[j]);
    }
}

/// Updates `board` while writes are pending or buffered, at most 1001 times.
/// Returns whether it settled, and the run of boards it went through: a run
/// that settles, or one of 1001 updates after which writes are still to
/// land.
fn settle(board: &mut Board) -> (r: (bool, Ghost<Seq<BoardView>>))
    requires
        old(board)@.sim_wf(),
    ensures
        final(board)@.sim_wf(),
        final(board)@.inputs.dom() == old(board)@.inputs.dom(),
        final(board)@.outputs.dom() == old(board)@.outputs.dom(),
        r.1@.len() >= 1,
        r.1@[0] == old(board)@,
        r.1@.last() == final(board)@,
        r.0 ==> settles(r.1@),
        !r.0 ==> stays_busy(r.1@),
{
    let ghost first = board@;
    let ghost mut trace: Seq<BoardView> = seq![board@];
    let mut updates: u32 = 0;
    while board.write_queue.len() > 0 || board.write_queue.buffer.len() > 0
        invariant
            trace.len() == updates + 1,
            updates <= 1001,
            first == old(board)@,
            trace[0] == first,
            trace.last() == board@,
            forall|j: int| 0 <= j < trace.len() - 1 ==> update_step(#[trigger] trace[j], trace[j + 1]),
            forall|j: int| 0 <= j < trace.len() - 1 ==> busy(#[trigger] trace[j]),
            board@.sim_wf(),
            board@.inputs.dom() == first.inputs.dom(),
            board@.outputs.dom() == first.outputs.dom(),
        decreases 1002 - updates,
    {
        if updates > 1000 {
            assert(busy(trace.last()));
            assert forall|j: int| 0 <= j < trace.len() implies busy(#[trigger] trace[j]) by {
                if j == trace.len() - 1 {
                    assert(trace[j] == trace.last());
                }
            }
            return (false, Ghost(trace));
        }
        let ghost before = board@;
        board.update();
        proof {
            lemma_update_step(before, board@);
            lemma_step_keeps_pins(before, board@);
            lemma_trace_push(trace, board@);
            trace = trace.push(board@);
        }
        updates = updates + 1;
    }
    (true, Ghost(trace))
}

/// The pin ids sorted from the top down, as `inputs_sorted` and
/// `outputs_sorted` give them, are sorted pins.
pub(crate) proof fn lemma_sorted_pins(b: BoardView, ins: Seq<u64>, outs: Seq<u64>)
    requires
        ins.no_duplicates(),
        ins.to_set() == b.inputs.dom(),
        forall|i: int, j: int| 0 <= i < j < ins.len() ==> b.inputs[ins[i]].io.y_pos <= b.inputs[ins[j]].io.y_pos,
        outs.no_duplicates(),
        outs.to_set() == b.outputs.dom(),
        forall|i: int, j: int| 0 <= i < j < outs.len() ==> b.outputs[outs[i]].y_pos <= b.outputs[outs[j]].y_pos,
    ensures
        sorted_pins(b.pins(IoSel::Input), ins),
        sorted_pins(b.pins(IoSel::Output), outs),
{
    let p = b.pins(IoSel::Input);
    assert(p.dom() =~= b.inputs.dom());
    assert forall|i: int, j: int| 0 <= i < j < ins.len() implies p[ins[i]].y_pos <= p[ins[j]].y_pos by {
        assert(ins.to_set().contains(ins[i]));
        assert(ins.to_set().contains(ins[j]));
        assert(b.inputs[ins[i]].io.y_pos <= b.inputs[ins[j]].io.y_pos);
    }
}

/// An input pin taking a state keeps the board well formed, its pins' set
/// and its pending writes.
pub proof fn lemma_set_input_keeps(b: BoardView, id: u64, state: bool)
    requires
        b.sim_wf(),
    ensures
        b.set_input(id, state).sim_wf(),
        b.set_input(id, state).inputs.dom() == b.inputs.dom(),
        b.set_input(id, state).outputs == b.outputs,
        b.set_input(id, state).writes == b.writes,
{
    let c = b.set_input(id, state);
    if b.inputs.contains_key(id) {
        assert(c.inputs.dom() =~= b.inputs.dom());
        let inp = b.inputs[id];
        let f = crate::queue::fanout(crate::targets_of(inp.links), state);
        assert forall|k: int| 0 <= k < c.buffer.len() implies c.target_ok(#[trigger] c.buffer[k].0) by {
            if k >= b.buffer.len() {
                let kk = k - b.buffer.len();
                assert(c.buffer[k] == f[kk]);
                assert(b.target_ok(b.inputs[id].links[kk].target));
            }
        }
        assert forall|i: u64, k: int|
            #![trigger c.inputs[i].links[k]]
            c.inputs.contains_key(i) && 0 <= k < c.inputs[i].links.len() implies c.target_ok(
            c.inputs[i].links[k].target) by {
            assert(b.target_ok(b.inputs[i].links[k].target));
        }
    }
}

/// Row `s` of the inputs: `ins[0..n]` take the bits of `s`, from the board
/// `b`, one at a time.
fn set_row(board: &mut Board, ins: &Vec<u64>, s: u64, n: usize)
    requires
        old(board)@.sim_wf(),
        n <= ins@.len(),
        n <= 64,
    ensures
        final(board)@ == set_inputs(old(board)@, ins@, s, n as nat),
        final(board)@.sim_wf(),
        final(board)@.inputs.dom() == old(board)@.inputs.dom(),
        final(board)@.outputs == old(board)@.outputs,
{
    let mut i: usize = 0;
    while i < n
        invariant
            i <= n <= ins@.len(),
            n <= 64,
            board@ == set_inputs(old(board)@, ins@, s, i as nat),
            board@.sim_wf(),
            board@.inputs.dom() == old(board)@.inputs.dom(),
            board@.outputs == old(board)@.outputs,
        decreases n - i,
    {
        let state = ((s >> i as u64) & 1) == 1;
        proof {
            lemma_set_input_keeps(board@, ins@[i as int], state);
        }
        board.set_input(ins[i], state);
        i = i + 1;
    }
}

impl CombGatePreset {
    /// Simulates `board` into a truth table: for each state of its inputs
    /// (the first input is bit 0), in order, the inputs take the state and
    /// the board is updated until no write is pending or buffered; the
    /// settled output states make the row. Fails with more than 64 inputs or
    /// outputs, or when a row is still busy after 1001 updates. On success
    /// the board is restored (as a copy of it).
    pub fn from_board(board: &mut Board) -> (r: Result<CombGatePreset, &'static str>)
        requires
            old(board)@.inputs.dom().len() <= 64 && old(board)@.outputs.dom().len() <= 64 ==> old(
                board,
            )@.sim_wf(),
            !(old(board)@.inputs.dom().len() == 64 && old(board)@.outputs.dom().len() <= 64),
        ensures
            old(board)@.inputs.dom().len() > 64 ==> (r matches Err(e) && e@ == "Too many inputs (max is 64)"@
                && final(board)@ == old(board)@),
            old(board)@.inputs.dom().len() <= 64 && old(board)@.outputs.dom().len() > 64 ==> (r matches Err(e)
                && e@ == "Too many outputs (max is 64)"@ && final(board)@ == old(board)@),
            old(board)@.inputs.dom().len() < 64 && old(board)@.outputs.dom().len() <= 64 ==> match r {
                Ok(t) => gate_preset_of(old(board)@, t@) && final(board)@ == old(board)@.copied(),
                Err(e) => e@ == "Has a loop or is too big"@ && loop_found(old(board)@) && final(board)@.sim_wf(),
            },
    {
        let ghost b0 = board@;
        let n_in = board.inputs.len();
        let n_out = board.outputs.len();
        if n_in > 64 {
            return Err("Too many inputs (max is 64)");
        }
        if n_out > 64 {
            return Err("Too many outputs (max is 64)");
        }
        let saved = board.clone();
        let total: u64 = 1u64 << n_in as u64;
        proof {
            assert(total == rows(n_in as nat)) by {
                crate::bits::lemma_rows_pos(n_in as nat);
            }
        }
        let ins = board.inputs_sorted();
        let outs = board.outputs_sorted();
        proof {
            lemma_sorted_pins(b0, ins@, outs@);
            ins@.unique_seq_to_set();
            outs@.unique_seq_to_set();
        }
        let mut in_names: Vec<String> = Vec::new();
        let mut i: usize = 0;
        while i < ins.len()
            invariant
                board@ == b0,
                i <= ins@.len(),
                ins@.to_set() == b0.inputs.dom(),
                in_names@.len() == i,
                forall|j: int| 0 <= j < i ==> (#[trigger] in_names@[j])@ == b0.inputs[ins@[j]].io.name,
            decreases ins@.len() - i,
        {
            assert(ins@.to_set().contains(ins@[i as int]));
            match board.inputs.get(ins[i]) {
                Some(inp) => in_names.push(inp.io.name.clone()),
                None => in_names.push(String::new()),
            }
            i = i + 1;
        }
        let mut out_names: Vec<String> = Vec::new();
        let mut i: usize = 0;
        while i < outs.len()
            invariant
                board@ == b0,
                i <= outs@.len(),
                outs@.to_set() == b0.outputs.dom(),
                out_names@.len() == i,
                forall|j: int| 0 <= j < i ==> (#[trigger] out_names@[j])@ == b0.outputs[outs@[j]].name,
            decreases outs@.len() - i,
        {
            assert(outs@.to_set().contains(outs@[i as int]));
            match board.outputs.get(outs[i]) {
                Some(o) => out_names.push(o.io.name.clone()),
                None => out_names.push(String::new()),
            }
            i = i + 1;
        }
        let mut map: Vec<u64> = Vec::new();
        let ghost mut traces: Seq<Seq<BoardView>> = seq![];
        let mut s: u64 = 0;
        while s < total
            invariant
                total == rows(n_in as nat),
                b0 == old(board)@,
                sorted_pins(b0.pins(IoSel::Input), ins@),
                sorted_pins(b0.pins(IoSel::Output), outs@),
                n_in == b0.inputs.dom().len(),
                n_out == b0.outputs.dom().len(),
                n_in == ins@.len(),
                n_in < 64,
                n_out == outs@.len(),
                n_out <= 64,
                ins@.to_set() == b0.inputs.dom(),
                outs@.to_set() == b0.outputs.dom(),
                s <= total,
                map@.len() == s,
                table_run(b0, ins@, outs@, traces, map@),
                board@ == (if s == 0 {
                    b0
                } else {
                    traces.last().last()
                }),
                board@.sim_wf(),
                board@.inputs.dom() == b0.inputs.dom(),
                board@.outputs.dom() == b0.outputs.dom(),
                saved@ == b0.copied(),
            decreases total - s,
        {
            let ghost start = board@;
            set_row(board, &ins, s, n_in);
            let (settled, Ghost(trace)) = settle(board);
            if !settled {
                proof {
                    assert(sorted_pins(b0.pins(IoSel::Input), ins@));
                    assert(sorted_pins(b0.pins(IoSel::Output), outs@));
                    assert(table_run(b0, ins@, outs@, traces, map@));
                    assert(stays_busy(trace));
                    assert(traces.len() == s);
                }
                return Err("Has a loop or is too big");
            }
            let mut field = BitField::empty(n_out);
            let ghost c = board@;
            let ghost states = outs@.map_values(|id: u64| c.outputs[id].state);
            let mut i: usize = 0;
            while i < n_out
                invariant
                    board@ == c,
                    states == outs@.map_values(|id: u64| c.outputs[id].state),
                    n_out == outs@.len(),
                    n_out <= 64,
                    outs@.to_set() == c.outputs.dom(),
                    i <= n_out,
                    field.spec_len() == n_out,
                    field.data == pack_bits(states.take(i as int)),
                decreases n_out - i,
            {
                assert(outs@.to_set().contains(outs@[i as int]));
                let state = match board.outputs.get(outs[i]) {
                    Some(o) => o.io.state,
                    None => false,
                };
                proof {
                    assert(states.take(i + 1).drop_last() =~= states.take(i as int));
                }
                field.set(i, state);
                i = i + 1;
            }
            proof {
                assert(states.take(i as int) =~= states);
            }
            map.push(field.data);
            proof {
                let old_traces = traces;
                traces = traces.push(trace);
                assert forall|t: int| 0 <= t < traces.len() implies {
                    &&& settles(#[trigger] traces[t])
                    &&& traces[t][0] == set_inputs(
                        if t == 0 {
                            b0
                        } else {
                            traces[t - 1].last()
                        },
                        ins@,
                        t as u64,
                        ins@.len(),
                    )
                    &&& map@[t] == output_row(traces[t].last(), outs@)
                } by {
                    if t < s {
                        assert(traces[t] == old_traces[t]);
                        if t > 0 {
                            assert(traces[t - 1] == old_traces[t - 1]);
                        }
                    } else {
                        assert(traces[t] == trace);
                        if t > 0 {
                            assert(traces[t - 1] == old_traces[t - 1]);
                        }
                    }
                }
            }
            s = s + 1;
        }
        *board = saved;
        let t = CombGatePreset {
            inputs: in_names,
            outputs: out_names,
            table: TruthTable { num_inputs: n_in, num_outputs: n_out, map },
        };
        proof {
            assert(t@.inputs =~= ins@.map_values(|id: u64| b0.inputs[id].io.name));
            assert(t@.outputs =~= outs@.map_values(|id: u64| b0.outputs[id].name));
            assert(sorted_pins(b0.pins(IoSel::Input), ins@));
            assert(sorted_pins(b0.pins(IoSel::Output), outs@));
            assert(table_run(b0, ins@, outs@, traces, t@.map));
        }
        Ok(t)
    }
}

impl PresetData {
    /// A device can be built from the preset without fault: a gate's table
    /// has a first row and fits its inputs in a bit field; a chip is
    /// buildable (see `ChipPreset::buildable`).
    pub open spec fn buildable(&self) -> bool {
        match self {
            PresetData::CombGate(e) => e.table.num_inputs <= 64 && e.table.map@.len() >= 1,
            PresetData::Chip(e) => e.buildable(),
        }
    }

    /// The tables are well formed, with one name per pin.
    pub open spec fn wf(&self) -> bool {
        match self {
            PresetData::CombGate(e) => e.table.wf() && e.inputs@.len() == e.table.num_inputs && e.outputs@.len()
                == e.table.num_outputs,
            PresetData::Chip(e) => e.wf(),
        }
    }
}

/// A chip fresh from a preset: all pins off, every gate on its first row,
/// no pending writes, and the writes for the gates' first rows buffered.
pub open spec fn fresh_chip(p: ChipPreset) -> ChipView {
    ChipView {
        input: 0,
        input_len: p.inputs@.len(),
        output: 0,
        output_len: p.outputs@.len(),
        input_links: crate::nested_view(p.input_links@),
        gates: p.comb_gates@.map_values(|g: ChipGate| fresh_gate(g.table)),
        links: p.comb_gates@.map_values(|g: ChipGate| links_view(g.links@)),
        writes: Seq::empty(),
        buffer: start_writes(p.comb_gates@),
    }
}

impl DeviceData {
    /// A fresh gate or chip for what a preset places.
    pub fn from_preset(preset: &PresetData) -> (r: DeviceData)
        requires
            preset.buildable(),
        ensures
            preset.wf() ==> r@.wf(),
            preset.wf() ==> r@.num_inputs() == preset@.input_names().len(),
            preset.wf() ==> r@.num_outputs() == preset@.output_names().len(),
            match preset {
                PresetData::CombGate(e) => r@ == DeviceDataView::CombGate(fresh_gate(e.table)),
                PresetData::Chip(e) => r@ == DeviceDataView::Chip(fresh_chip(*e)),
            },
    {
        match preset {
            PresetData::CombGate(e) => DeviceData::CombGate(Gate::new(e.table.clone())),
            PresetData::Chip(e) => {
                let c = Chip::from_preset(e);
                assert(c@.writes =~= Seq::<crate::queue::Write<usize>>::empty());
                assert(c@ == fresh_chip(*e));
                DeviceData::Chip(c)
            },
        }
    }
}

/// A well-formed preset can be built.
pub proof fn lemma_wf_buildable(d: PresetData)
    requires
        d.wf(),
    ensures
        d.buildable(),
{
    match d {
        PresetData::CombGate(e) => {
            crate::bits::lemma_rows_pos(e.table.num_inputs as nat);
        },
        PresetData::Chip(e) => {
            assert forall|g: int| 0 <= g < e.comb_gates@.len() implies (#[trigger] e.comb_gates@[g]).table.map@.len()
                >= 1 by {
                crate::bits::lemma_rows_pos(e.comb_gates@[g].table.num_inputs as nat);
            }
        },
    }
}

/// The device placed at `pos` from preset `p`: fresh state, no links.
pub open spec fn device_from(p: DevicePreset, pos: Point) -> DeviceView {
    DeviceView {
        pos,
        data: match p.data {
            PresetData::CombGate(e) => DeviceDataView::CombGate(fresh_gate(e.table)),
            PresetData::Chip(e) => DeviceDataView::Chip(fresh_chip(e)),
        },
        links: Seq::new(p@.data.output_names().len(), |i: int| Seq::<crate::LinkView>::empty()),
        preset: p@.name,
    }
}

impl Device {
    /// A device placed at `pos` from `preset`: fresh state, no links.
    pub fn from_preset(preset: &DevicePreset, pos: Point) -> (r: Device)
        requires
            preset.data.buildable(),
        ensures
            r@ == device_from(*preset, pos),
            preset.data.wf() ==> r@.wf(),
            r@.pos == pos,
            r@.links == Seq::new(preset@.data.output_names().len(), |i: int| Seq::<crate::LinkView>::empty()),
            r@.preset == preset@.name,
            match preset.data {
                PresetData::CombGate(e) => r@.data == DeviceDataView::CombGate(fresh_gate(e.table)),
                PresetData::Chip(e) => r@.data == DeviceDataView::Chip(fresh_chip(e)),
            },
    {
        let data = DeviceData::from_preset(&preset.data);
        let n = preset.data.num_outputs();
        let mut links: Vec<Vec<crate::Link>> = Vec::new();
        let mut i: usize = 0;
        while i < n
            invariant
                i <= n,
                links@.len() == i,
                forall|j: int| 0 <= j < i ==> (#[trigger] links@[j])@.len() == 0,
            decreases n - i,
        {
            links.push(Vec::new());
            i = i + 1;
        }
        let r = Device { pos, data, links, preset: preset.name.clone() };
        assert forall|j: int| 0 <= j < n implies #[trigger] r@.links[j] =~= Seq::<crate::LinkView>::empty() by {
            assert(links@[j]@.len() == 0);
        }
        assert(r@.links =~= Seq::new(n as nat, |i: int| Seq::<crate::LinkView>::empty()));
        assert(r@ == device_from(*preset, pos));
        r
    }
}

} // verus!
