//! The editor's state between frames: what the pointer is over, the action
//! asked for, links being drawn, recently placed presets and pin name
//! popups.

use crate::board::{device_copied, Board, BoardItem, BoardView, Device, DeviceView};
use crate::geom::Point;
use crate::pack::pos_in;
use crate::presets::{
    at_level, best_match, cats_of, in_cat, index_of_name, names_of, strings_view, DevicePresetView, Library, Presets,
};
use crate::text::{is_blank, is_white_space, push_char};
use crate::LinkStart;
use vstd::prelude::*;

verus! {

/// What the pointer is over.
#[derive(Debug, Clone, Copy)]
pub enum AppItem {
    Nothing,
    Board(BoardItem),
    NamePopup,
    Other,
    PresetPlacer,
}

impl Default for AppItem {
    fn default() -> (r: Self)
        ensures
            r is Nothing,
    {
        AppItem::Nothing
    }
}

/// The layer of an item: an item on a higher layer is shown above.
pub open spec fn layer_of(item: AppItem) -> u8 {
    match item {
        AppItem::Nothing => 0,
        AppItem::Board(BoardItem::Board) => 1,
        AppItem::Board(_) => 2,
        AppItem::NamePopup => 3,
        AppItem::Other => 4,
        AppItem::PresetPlacer => 5,
    }
}

impl AppItem {
    /// The layer of the item: an item on a higher layer is shown above.
    pub fn layer(self) -> (r: u8)
        ensures
            r == layer_of(self),
    {
        match self {
            AppItem::Nothing => 0,
            AppItem::Board(BoardItem::Board) => 1,
            AppItem::Board(_) => 2,
            AppItem::NamePopup => 3,
            AppItem::Other => 4,
            AppItem::PresetPlacer => 5,
        }
    }

    /// Takes `new` when it is on a higher layer.
    pub fn set(&mut self, new: AppItem)
        ensures
            *final(self) == if layer_of(new) > layer_of(*old(self)) {
                new
            } else {
                *old(self)
            },
    {
        if new.layer() > self.layer() {
            *self = new;
        }
    }
}

/// What the user asked for this frame.
#[derive(Debug, Clone)]
pub enum AppAction {
    Nothing,
    RevealConfigDir,
    LoadSettings,
    ReloadLibrary,
    ImportLibrary,
    ToggleLibraryMenu,
    TogglePackMenu,
    ToggleSimMenu,
    OpenSettings,
    CloseSettings,
    PackBoard,
    StepSim,
    HoldPreset(String),
    LoadPreset(String),
    DeletePreset(String),
    Clear,
}

impl Default for AppAction {
    fn default() -> (r: Self)
        ensures
            r is Nothing,
    {
        AppAction::Nothing
    }
}

impl AppAction {
    /// Takes `new` unless an action was already asked for.
    pub fn set(&mut self, new: AppAction)
        ensures
            *final(self) == if *old(self) is Nothing {
                new
            } else {
                *old(self)
            },
    {
        if let AppAction::Nothing = self {
            *self = new;
        }
    }
}

/// Links being drawn: their starts (the newest first), colour and anchors.
pub struct CreateLinks {
    pub starts: Vec<LinkStart<u64>>,
    pub color: usize,
    pub anchors: Vec<Point>,
}

impl CreateLinks {
    /// No links being drawn.
    pub fn new() -> (r: CreateLinks)
        ensures
            r.starts@.len() == 0,
            r.color == 0,
            r.anchors@.len() == 0,
    {
        CreateLinks { starts: Vec::new(), color: 0, anchors: Vec::new() }
    }

    /// Starts a link at `start`, unless one starts there already; the first
    /// start resets the colour and anchors.
    pub fn push(&mut self, start: LinkStart<u64>)
        ensures
            old(self).starts@.contains(start) ==> final(self).starts@ == old(self).starts@ && final(self).color
                == old(self).color && final(self).anchors@ == old(self).anchors@,
            !old(self).starts@.contains(start) ==> final(self).starts@ == seq![start] + old(self).starts@,
            !old(self).starts@.contains(start) && old(self).starts@.len() == 0 ==> final(self).color == 0
                && final(self).anchors@.len() == 0,
            !old(self).starts@.contains(start) && old(self).starts@.len() > 0 ==> final(self).color == old(
                self,
            ).color && final(self).anchors@ == old(self).anchors@,
    {
        let mut k: usize = 0;
        while k < self.starts.len()
            invariant
                k <= self.starts@.len(),
                *self == *old(self),
                forall|j: int| 0 <= j < k ==> self.starts@[j] != start,
            decreases self.starts@.len() - k,
        {
            if self.starts[k].same(&start) {
                assert(self.starts@[k as int] == start);
                return ;
            }
            k = k + 1;
        }
        if self.starts.len() == 0 {
            self.color = 0;
            self.anchors.clear();
        }
        self.starts.insert(0, start);
        assert(self.starts@ =~= seq![start] + old(self).starts@);
    }

    /// Takes the oldest start, with the colour.
    pub fn take(&mut self) -> (r: Option<(LinkStart<u64>, usize)>)
        ensures
            old(self).starts@.len() == 0 ==> r is None && final(self).starts@ == old(self).starts@,
            old(self).starts@.len() > 0 ==> r == Some((old(self).starts@.last(), old(self).color))
                && final(self).starts@ == old(self).starts@.drop_last(),
            final(self).color == old(self).color,
            final(self).anchors@ == old(self).anchors@,
    {
        match self.starts.pop() {
            Some(s) => Some((s, self.color)),
            None => None,
        }
    }
}

/// How many presets the placer remembers.
pub const MAX_RECENT: usize = 10;

/// The recent list after placing `name`: it moves (or is put) first, and the
/// list is cut to `MAX_RECENT`.
pub open spec fn recent_pushed(recent: Seq<Seq<char>>, name: Seq<char>) -> Seq<Seq<char>> {
    let i = pos_in(recent, name);
    let rest = if i >= 0 {
        recent.remove(i)
    } else {
        recent
    };
    let r = seq![name] + rest;
    if r.len() > MAX_RECENT {
        r.drop_last()
    } else {
        r
    }
}

/// Placing a preset puts its name first, keeps the list within
/// `MAX_RECENT`, and never lists a name twice.
pub proof fn lemma_recent_pushed(recent: Seq<Seq<char>>, name: Seq<char>)
    requires
        recent.len() <= MAX_RECENT,
        recent.no_duplicates(),
    ensures
        recent_pushed(recent, name)[0] == name,
        recent_pushed(recent, name).len() <= MAX_RECENT,
        recent_pushed(recent, name).no_duplicates(),
        recent_pushed(recent, name).contains(name),
{
    crate::pack::lemma_pos_in(recent, name);
    let i = pos_in(recent, name);
    let rest = if i >= 0 {
        recent.remove(i)
    } else {
        recent
    };
    let r = seq![name] + rest;
    assert(!rest.contains(name)) by {
        if rest.contains(name) {
            let j = choose|j: int| 0 <= j < rest.len() && rest[j] == name;
            if i >= 0 {
                let j2 = if j < i { j } else { j + 1 };
                assert(rest[j] == recent[j2]);
                assert(recent[i] == name);
            } else {
                assert(recent[j] == name);
            }
        }
    }
    assert(rest.no_duplicates()) by {
        assert forall|a: int, b: int| 0 <= a < rest.len() && 0 <= b < rest.len() && a != b implies rest[a]
            != rest[b] by {
            if i >= 0 {
                let a2 = if a < i { a } else { a + 1 };
                let b2 = if b < i { b } else { b + 1 };
                assert(rest[a] == recent[a2] && rest[b] == recent[b2]);
            }
        }
    }
    assert(r.no_duplicates()) by {
        assert forall|a: int, b: int| 0 <= a < r.len() && 0 <= b < r.len() && a != b implies r[a] != r[b] by {
            if a == 0 {
                assert(r[b] == rest[b - 1]);
            } else if b == 0 {
                assert(r[a] == rest[a - 1]);
            } else {
                assert(r[a] == rest[a - 1] && r[b] == rest[b - 1]);
            }
        }
    }
    let f = recent_pushed(recent, name);
    assert(f[0] == name);
    assert(f.no_duplicates()) by {
        assert forall|a: int, b: int| 0 <= a < f.len() && 0 <= b < f.len() && a != b implies f[a] != f[b] by {
            assert(f[a] == r[a] && f[b] == r[b]);
        }
    }
    assert(f.contains(name)) by {
        assert(f[0] == name);
    }
}

/// The names of `recent` that the library holds, in order.
pub open spec fn recent_kept(recent: Seq<Seq<char>>, presets: Seq<crate::presets::DevicePresetView>) -> Seq<
    Seq<char>,
>
    decreases recent.len(),
{
    if recent.len() == 0 {
        seq![]
    } else if index_of_name(presets, recent.last()) >= 0 {
        recent_kept(recent.drop_last(), presets).push(recent.last())
    } else {
        recent_kept(recent.drop_last(), presets)
    }
}

/// Moves `preset` to the front of `recent` (or puts it there), keeping at
/// most `MAX_RECENT` names.
fn push_recent_in(recent: &mut Vec<String>, preset: &str)
    ensures
        strings_view(final(recent)@) == recent_pushed(strings_view(old(recent)@), preset@),
{
    let ghost rv = strings_view(recent@);
    proof {
        crate::pack::lemma_pos_in(rv, preset@);
    }
    let mut k: usize = 0;
    let mut found = false;
    while k < recent.len() && !found
        invariant
            rv == strings_view(recent@),
            k <= recent@.len(),
            -1 <= pos_in(rv, preset@) < rv.len(),
            pos_in(rv, preset@) >= 0 ==> rv[pos_in(rv, preset@)] == preset@,
            forall|j: int| 0 <= j < rv.len() && (pos_in(rv, preset@) < 0 || j < pos_in(rv, preset@)) ==> rv[j] != preset@,
            found ==> k >= 1 && pos_in(rv, preset@) == k - 1,
            !found ==> forall|j: int| 0 <= j < k ==> rv[j] != preset@,
        decreases recent@.len() - k + (if found { 0int } else { 1int }),
    {
        if crate::presets::str_eq(recent[k].as_str(), preset) {
            found = true;
            proof {
                assert(rv[k as int] == preset@);
                if pos_in(rv, preset@) >= 0 && pos_in(rv, preset@) < k {
                    assert(rv[pos_in(rv, preset@)] != preset@);
                }
            }
        }
        k = k + 1;
    }
    let ghost rest = if found {
        rv.remove(k - 1)
    } else {
        rv
    };
    if found {
        recent.remove(k - 1);
        assert(strings_view(recent@) =~= rest);
    } else {
        proof {
            if pos_in(rv, preset@) >= 0 {
                assert(rv[pos_in(rv, preset@)] == preset@);
            }
        }
    }
    recent.insert(0, preset.to_owned());
    assert(strings_view(recent@) =~= seq![preset@] + rest);
    if recent.len() > MAX_RECENT {
        recent.pop();
        assert(strings_view(recent@) =~= (seq![preset@] + rest).drop_last());
    }
}

/// The preset placer: its search field and results, and the presets placed
/// recently.
pub struct ChipPlacer {
    pub field: String,
    pub results: Vec<String>,
    pub results_cat: Option<String>,
    pub recent: Vec<String>,
    pub first_frame: bool,
}

impl ChipPlacer {
    /// An empty placer, about to show its first frame.
    pub fn default() -> (r: ChipPlacer)
        ensures
            r.field@.len() == 0,
            r.results@.len() == 0,
            r.results_cat is None,
            r.recent@.len() == 0,
            r.first_frame,
    {
        ChipPlacer { field: String::new(), results: Vec::new(), results_cat: None, recent: Vec::new(), first_frame: true }
    }

    /// Records that `preset` was placed.
    pub fn push_recent(&mut self, preset: &str)
        ensures
            strings_view(final(self).recent@) == recent_pushed(strings_view(old(self).recent@), preset@),
    {
        push_recent_in(&mut self.recent, preset);
    }

    /// Forgets recent presets that the library no longer holds.
    pub fn check_recent(&mut self, library: &Library)
        ensures
            strings_view(final(self).recent@) == recent_kept(strings_view(old(self).recent@), library@.presets),
    {
        let ghost rv = strings_view(self.recent@);
        let mut kept: Vec<String> = Vec::new();
        let mut k: usize = 0;
        while k < self.recent.len()
            invariant
                rv == strings_view(self.recent@),
                k <= self.recent@.len(),
                strings_view(kept@) == recent_kept(rv.take(k as int), library@.presets),
            decreases self.recent@.len() - k,
        {
            proof {
                assert(rv.take(k + 1).drop_last() =~= rv.take(k as int));
                assert(rv.take(k + 1).last() == rv[k as int]);
            }
            if library.get_preset(self.recent[k].as_str()).is_some() {
                let ghost before = kept@;
                kept.push(self.recent[k].clone());
                assert(strings_view(kept@) =~= strings_view(before).push(rv[k as int]));
            }
            k = k + 1;
        }
        assert(rv.take(k as int) =~= rv);
        self.recent = kept;
    }
}

/// Which column a pin is in.
#[derive(Debug, Clone, Copy)]
pub enum PinType {
    Input,
    Output,
}

/// How many frames a name popup stays after the pointer leaves.
pub const FADE_TIME: u32 = 50;

/// The name editor shown over a pin.
#[derive(Debug, Clone)]
pub struct NamePopup {
    pub timer: u32,
    pub id: u64,
    pub ty: PinType,
}

impl NamePopup {
    /// A popup over input pin `id`.
    pub fn input(id: u64) -> (r: NamePopup)
        ensures
            r.timer == FADE_TIME,
            r.id == id,
            r.ty is Input,
    {
        NamePopup { timer: FADE_TIME, id, ty: PinType::Input }
    }

    /// A popup over output pin `id`.
    pub fn output(id: u64) -> (r: NamePopup)
        ensures
            r.timer == FADE_TIME,
            r.id == id,
            r.ty is Output,
    {
        NamePopup { timer: FADE_TIME, id, ty: PinType::Output }
    }

    /// Whether the popup has faded.
    pub fn is_dead(&self) -> (r: bool)
        ensures
            r == (self.timer == 0),
    {
        self.timer == 0
    }

    /// One frame passes.
    pub fn update(&mut self)
        ensures
            final(self).timer == if old(self).timer > 0 {
                (old(self).timer - 1) as u32
            } else {
                0
            },
            final(self).id == old(self).id,
            final(self).ty == old(self).ty,
    {
        if self.timer > 0 {
            self.timer = self.timer - 1;
        }
    }

    /// The popup stays for the whole fade time again.
    pub fn persist(&mut self)
        ensures
            final(self).timer == FADE_TIME,
            final(self).id == old(self).id,
            final(self).ty == old(self).ty,
    {
        self.timer = FADE_TIME;
    }
}

/// The top-left corner of the devices `ids` on `b`: the lowest `x` and the
/// lowest `y` of their positions (`i64::MAX` for none).
pub open spec fn selection_min(b: BoardView, ids: Seq<u64>) -> Point
    decreases ids.len(),
{
    if ids.len() == 0 {
        Point { x: i64::MAX, y: i64::MAX }
    } else {
        let m = selection_min(b, ids.drop_last());
        let p = b.devices[ids.last()].pos;
        Point { x: if p.x < m.x { p.x } else { m.x }, y: if p.y < m.y { p.y } else { m.y } }
    }
}

/// The devices after putting copies `ds` of devices under the ids `ids`, in
/// turn.
pub open spec fn with_copies(devices: Map<u64, DeviceView>, ids: Seq<u64>, ds: Seq<DeviceView>) -> Map<
    u64,
    DeviceView,
>
    decreases ids.len(),
{
    if ids.len() == 0 || ds.len() != ids.len() {
        devices
    } else {
        with_copies(devices, ids.drop_last(), ds.drop_last()).insert(ids.last(), ds.last())
    }
}

/// A copy of device `d` moved by `off`.
pub open spec fn moved_copy(d: DeviceView, off: Point) -> DeviceView {
    DeviceView { pos: d.pos.moved(off), ..device_copied(d) }
}

/// Copies the devices `selected` so that their top-left corner lands on
/// `to`, each under a fresh random id; the copies become the selection.
pub fn clone_selected_devices(board: &mut Board, selected: &mut Vec<u64>, to: Point)
    requires
        forall|k: int| 0 <= k < old(selected)@.len() ==> old(board)@.devices.contains_key(#[trigger] old(selected)@[k]),
    ensures
        final(selected)@.len() == old(selected)@.len(),
        final(board)@ == (BoardView {
            devices: with_copies(
                old(board)@.devices,
                final(selected)@,
                old(selected)@.map_values(
                    |id: u64|
                        moved_copy(
                            old(board)@.devices[id],
                            to.offset_from(selection_min(old(board)@, old(selected)@)),
                        ),
                ),
            ),
            ..old(board)@
        }),
{
    let ghost b0 = board@;
    let ghost sel = selected@;
    let mut min = Point { x: i64::MAX, y: i64::MAX };
    let mut copies: Vec<Device> = Vec::new();
    let mut k: usize = 0;
    while k < selected.len()
        invariant
            b0 == board@,
            sel == selected@,
            forall|j: int| 0 <= j < sel.len() ==> b0.devices.contains_key(#[trigger] sel[j]),
            k <= sel.len(),
            min == selection_min(b0, sel.take(k as int)),
            copies@.len() == k,
            forall|j: int| 0 <= j < k ==> (#[trigger] copies@[j])@ == device_copied(b0.devices[sel[j]]),
        decreases sel.len() - k,
    {
        proof {
            assert(sel.take(k + 1).drop_last() =~= sel.take(k as int));
            assert(sel.take(k + 1).last() == sel[k as int]);
        }
        match board.device(selected[k]) {
            Some(dev) => {
                let d = dev.clone();
                if d.pos.x < min.x {
                    min.x = d.pos.x;
                }
                if d.pos.y < min.y {
                    min.y = d.pos.y;
                }
                copies.push(d);
            },
            None => {
                assert(false);
            },
        }
        k = k + 1;
    }
    assert(sel.take(k as int) =~= sel);
    let offset = to.sub(min);
    let ghost want = sel.map_values(|id: u64| moved_copy(b0.devices[id], offset));
    let mut ids: Vec<u64> = Vec::new();
    let n = selected.len();
    let mut k: usize = 0;
    while copies.len() > 0
        invariant
            k + copies@.len() == sel.len(),
            n == sel.len(),
            sel == selected@,
            forall|j: int| 0 <= j < copies@.len() ==> (#[trigger] copies@[j])@ == device_copied(b0.devices[sel[j + k]]),
            want == sel.map_values(|id: u64| moved_copy(b0.devices[id], offset)),
            ids@.len() == k,
            board@ == (BoardView { devices: with_copies(b0.devices, ids@, want.take(k as int)), ..b0 }),
        decreases copies@.len(),
    {
        let mut d = copies.remove(0);
        d.pos = d.pos.add(offset);
        let id = crate::queue::rand_id();
        proof {
            assert(d@ == want[k as int]);
            assert(want.take(k + 1).drop_last() =~= want.take(k as int));
        }
        let ghost old_ids = ids@;
        board.add_device(id, d);
        ids.push(id);
        proof {
            assert(ids@.drop_last() =~= old_ids);
            assert(ids@.last() == id);
            assert(want.take(k + 1).last() == want[k as int]);
            assert(want.take(k + 1).len() == ids@.len());
        }
        k = k + 1;
    }
    assert(want.take(k as int) =~= want);
    *selected = ids;
}

/// The names of `names` that are (`inside`) or are not in `recent`, in
/// order.
pub open spec fn names_by_recent(names: Seq<Seq<char>>, recent: Seq<Seq<char>>, inside: bool) -> Seq<Seq<char>>
    decreases names.len(),
{
    if names.len() == 0 {
        seq![]
    } else if recent.contains(names.last()) == inside {
        names_by_recent(names.drop_last(), recent, inside).push(names.last())
    } else {
        names_by_recent(names.drop_last(), recent, inside)
    }
}

/// The names of `names`, those in `recent` first, each group in order.
pub open spec fn recent_first(names: Seq<Seq<char>>, recent: Seq<Seq<char>>) -> Seq<Seq<char>> {
    names_by_recent(names, recent, true) + names_by_recent(names, recent, false)
}

/// The category search for query `q`: the presets of the best matching
/// category, and the category; nothing when none matches.
pub open spec fn cat_results(ps: Seq<DevicePresetView>, q: Seq<char>) -> (Seq<Seq<char>>, Option<Seq<char>>) {
    if q.len() > 0 && best_match(cats_of(ps), q) >= 0 {
        let c = cats_of(ps)[best_match(cats_of(ps), q)];
        (names_of(in_cat(ps, c)), Some(c))
    } else {
        (seq![], None)
    }
}

/// The preset names that match `field`, best match first.
pub open spec fn name_results(ps: Seq<DevicePresetView>, field: Seq<char>) -> Seq<Seq<char>> {
    if field.len() == 0 {
        seq![]
    } else {
        at_level(names_of(ps), field, 200) + at_level(names_of(ps), field, 100) + at_level(names_of(ps), field, 50)
    }
}

/// Whether `field` asks for a category: it starts with `:`.
pub open spec fn asks_cat(field: Seq<char>) -> bool {
    field.len() > 0 && field[0] == ':'
}

/// The results the library placer shows for `field`: `:` and a query give
/// the presets of the best matching category; a blank field gives every
/// preset, the recently placed ones first; any other field gives the
/// matching presets, best match first.
pub open spec fn placer_results(ps: Seq<DevicePresetView>, recent: Seq<Seq<char>>, field: Seq<char>) -> (
    Seq<Seq<char>>,
    Option<Seq<char>>,
) {
    if asks_cat(field) {
        cat_results(ps, field.subrange(1, field.len() as int))
    } else if forall|i: int| 0 <= i < field.len() ==> is_white_space(#[trigger] field[i]) {
        (recent_first(names_of(ps), recent), None)
    } else {
        (name_results(ps, field), None)
    }
}

/// The view of an optional string.
pub open spec fn opt_view(o: Option<String>) -> Option<Seq<char>> {
    match o {
        Some(s) => Some(s@),
        None => None,
    }
}

/// `s` without its first character.
fn after_first(s: &str) -> (r: String)
    requires
        s@.len() > 0,
    ensures
        r@ == s@.subrange(1, s@.len() as int),
{
    let n = s.unicode_len();
    let mut r = String::new();
    let mut k: usize = 1;
    while k < n
        invariant
            n == s@.len(),
            1 <= k <= n,
            r@ == s@.subrange(1, k as int),
        decreases n - k,
    {
        push_char(&mut r, s.get_char(k));
        k = k + 1;
        assert(r@ =~= s@.subrange(1, k as int));
    }
    r
}

/// Whether `name` is among `recent`.
fn is_recent(recent: &Vec<String>, name: &str) -> (r: bool)
    ensures
        r == strings_view(recent@).contains(name@),
{
    let mut k: usize = 0;
    while k < recent.len()
        invariant
            k <= recent@.len(),
            forall|j: int| 0 <= j < k ==> recent@[j]@ != name@,
        decreases recent@.len() - k,
    {
        if crate::presets::str_eq(recent[k].as_str(), name) {
            assert(strings_view(recent@)[k as int] == name@);
            return true;
        }
        k = k + 1;
    }
    proof {
        if strings_view(recent@).contains(name@) {
            let j = choose|j: int| 0 <= j < strings_view(recent@).len() && strings_view(recent@)[j] == name@;
            assert(recent@[j]@ == name@);
        }
    }
    false
}

/// `names`, those in `recent` first, each group in order.
fn order_recent_first(names: &Vec<String>, recent: &Vec<String>) -> (r: Vec<String>)
    ensures
        strings_view(r@) == recent_first(strings_view(names@), strings_view(recent@)),
{
    let ghost ns = strings_view(names@);
    let ghost rs = strings_view(recent@);
    let mut r: Vec<String> = Vec::new();
    let mut pass: usize = 0;
    while pass < 2
        invariant
            ns == strings_view(names@),
            rs == strings_view(recent@),
            pass <= 2,
            strings_view(r@) == (if pass == 0 {
                seq![]
            } else if pass == 1 {
                names_by_recent(ns, rs, true)
            } else {
                recent_first(ns, rs)
            }),
        decreases 2 - pass,
    {
        let inside = pass == 0;
        let ghost head = strings_view(r@);
        let mut k: usize = 0;
        while k < names.len()
            invariant
                ns == strings_view(names@),
                rs == strings_view(recent@),
                k <= names@.len(),
                strings_view(r@) == head + names_by_recent(ns.take(k as int), rs, inside),
            decreases names@.len() - k,
        {
            proof {
                assert(ns.take(k + 1).drop_last() =~= ns.take(k as int));
                assert(ns.take(k + 1).last() == ns[k as int]);
            }
            if is_recent(recent, names[k].as_str()) == inside {
                let ghost before = r@;
                r.push(names[k].clone());
                assert(strings_view(r@) =~= strings_view(before).push(ns[k as int]));
            }
            k = k + 1;
        }
        assert(ns.take(k as int) =~= ns);
        pass = pass + 1;
    }
    r
}

impl ChipPlacer {
    /// Fills the results for the search field from `library`, as the placer
    /// does when the field changes.
    pub fn refresh_results(&mut self, library: &Library)
        ensures
            strings_view(final(self).results@) == placer_results(
                library@.presets,
                strings_view(old(self).recent@),
                old(self).field@,
            ).0,
            opt_view(final(self).results_cat) == placer_results(
                library@.presets,
                strings_view(old(self).recent@),
                old(self).field@,
            ).1,
            final(self).field@ == old(self).field@,
            strings_view(final(self).recent@) == strings_view(old(self).recent@),
            final(self).first_frame == old(self).first_frame,
    {
        let n = self.field.unicode_len();
        if n > 0 && self.field.get_char(0) == ':' {
            let q = after_first(self.field.as_str());
            match library.search_cats(q.as_str()) {
                Some(cat) => {
                    self.results = library.cat_presets(cat.as_str());
                    self.results_cat = Some(cat);
                },
                None => {
                    self.results = Vec::new();
                    self.results_cat = None;
                    assert(strings_view(self.results@) =~= Seq::<Seq<char>>::empty());
                },
            }
        } else if is_blank(self.field.as_str()) {
            let names = library.preset_names();
            self.results = order_recent_first(&names, &self.recent);
            self.results_cat = None;
        } else {
            self.results = library.search_presets(self.field.as_str());
            self.results_cat = None;
        }
    }

    /// The preset that pressing enter picks: the first result.
    pub fn entered_pick(&self) -> (r: Option<String>)
        ensures
            self.results@.len() == 0 ==> r is None,
            self.results@.len() > 0 ==> (r matches Some(p) && p@ == self.results@[0]@),
    {
        if self.results.len() >= 1 {
            Some(self.results[0].clone())
        } else {
            None
        }
    }
}

/// The results the device placer shows for `field`: `:` and a query give
/// the presets of the best matching category; any other field gives the
/// matching presets, best match first.
pub open spec fn device_placer_results(ps: Seq<DevicePresetView>, field: Seq<char>) -> (
    Seq<Seq<char>>,
    Option<Seq<char>>,
) {
    if asks_cat(field) {
        cat_results(ps, field.subrange(1, field.len() as int))
    } else {
        (name_results(ps, field), None)
    }
}

/// The placer for the presets of the device editor: its search field and
/// results, and the presets placed recently.
pub struct PresetPlacer {
    pub field: String,
    pub results: Vec<String>,
    pub results_cat: Option<String>,
    pub recent: Vec<String>,
}

impl PresetPlacer {
    /// An empty placer.
    pub fn default() -> (r: PresetPlacer)
        ensures
            r.field@.len() == 0,
            r.results@.len() == 0,
            r.results_cat is None,
            r.recent@.len() == 0,
    {
        PresetPlacer { field: String::new(), results: Vec::new(), results_cat: None, recent: Vec::new() }
    }

    /// Records that `preset` was placed.
    pub fn push_recent(&mut self, preset: &str)
        ensures
            strings_view(final(self).recent@) == recent_pushed(strings_view(old(self).recent@), preset@),
            final(self).field@ == old(self).field@,
            strings_view(final(self).results@) == strings_view(old(self).results@),
    {
        push_recent_in(&mut self.recent, preset);
    }

    /// Forgets recent presets that `presets` no longer holds.
    pub fn check_recent(&mut self, presets: &Presets)
        ensures
            strings_view(final(self).recent@) == recent_kept(strings_view(old(self).recent@), presets@.presets),
            final(self).field@ == old(self).field@,
            strings_view(final(self).results@) == strings_view(old(self).results@),
    {
        let ghost rv = strings_view(self.recent@);
        let mut kept: Vec<String> = Vec::new();
        let mut k: usize = 0;
        while k < self.recent.len()
            invariant
                rv == strings_view(self.recent@),
                k <= self.recent@.len(),
                strings_view(kept@) == recent_kept(rv.take(k as int), presets@.presets),
            decreases self.recent@.len() - k,
        {
            proof {
                assert(rv.take(k + 1).drop_last() =~= rv.take(k as int));
                assert(rv.take(k + 1).last() == rv[k as int]);
            }
            if presets.get_preset(self.recent[k].as_str()).is_some() {
                let ghost before = kept@;
                kept.push(self.recent[k].clone());
                assert(strings_view(kept@) =~= strings_view(before).push(rv[k as int]));
            }
            k = k + 1;
        }
        assert(rv.take(k as int) =~= rv);
        self.recent = kept;
    }

    /// Fills the results for the search field from `presets`, as the placer
    /// does when the field changes.
    pub fn refresh_results(&mut self, presets: &Presets)
        ensures
            strings_view(final(self).results@) == device_placer_results(presets@.presets, old(self).field@).0,
            opt_view(final(self).results_cat) == device_placer_results(presets@.presets, old(self).field@).1,
            final(self).field@ == old(self).field@,
            strings_view(final(self).recent@) == strings_view(old(self).recent@),
    {
        self.results_cat = None;
        let n = self.field.unicode_len();
        if n > 0 && self.field.get_char(0) == ':' {
            let q = after_first(self.field.as_str());
            match presets.search_cats(q.as_str()) {
                Some(cat) => {
                    self.results = presets.cat_presets(cat.as_str());
                    self.results_cat = Some(cat);
                },
                None => {
                    self.results = Vec::new();
                    assert(strings_view(self.results@) =~= Seq::<Seq<char>>::empty());
                },
            }
        } else {
            self.results = presets.search_presets(self.field.as_str());
            proof {
                if n == 0 {
                    assert(strings_view(self.results@) =~= Seq::<Seq<char>>::empty());
                }
            }
        }
    }

    /// The names the placer lists: the recent presets that `presets` still
    /// holds while the field is empty (forgetting the others), else the
    /// results.
    pub fn listed(&mut self, presets: &Presets) -> (r: Vec<String>)
        ensures
            old(self).field@.len() == 0 ==> strings_view(final(self).recent@) == recent_kept(
                strings_view(old(self).recent@),
                presets@.presets,
            ) && strings_view(r@) == strings_view(final(self).recent@),
            old(self).field@.len() > 0 ==> strings_view(final(self).recent@) == strings_view(old(self).recent@)
                && strings_view(r@) == strings_view(old(self).results@),
            final(self).field@ == old(self).field@,
            strings_view(final(self).results@) == strings_view(old(self).results@),
    {
        if self.field.unicode_len() == 0 {
            self.check_recent(presets);
            self.recent.clone()
        } else {
            self.results.clone()
        }
    }

    /// The preset that pressing enter picks: the first result.
    pub fn entered_pick(&self) -> (r: Option<String>)
        ensures
            self.results@.len() == 0 ==> r is None,
            self.results@.len() > 0 ==> (r matches Some(p) && p@ == self.results@[0]@),
    {
        if self.results.len() >= 1 {
            Some(self.results[0].clone())
        } else {
            None
        }
    }
}

} // verus!
