//! The decisions the simulation page makes each frame: how many updates
//! run, what the key binds do, what a drag moves, where held presets are
//! placed, and what the actions asked for by the menus do. The window
//! around them draws and reads the pointer.

use crate::board::{Board, BoardItem, BoardView, DeviceView, IoSel};
use crate::geom::{sat_add, sat_add_spec, Point, Rect};
use crate::input_step::pending;
use crate::presets::{device_from, index_of_name, lemma_step_keeps_pins, lemma_update_step, strings_view, update_step, Library};
use crate::queue::rand_id;
use crate::ui_state::{
    clone_selected_devices, moved_copy, recent_pushed, selection_min, with_copies, AppAction, AppItem, ChipPlacer,
    CreateLinks,
};
use vstd::prelude::*;

verus! {

/// `trace` is a run of updates: each board after the first is a possible
/// update of the one before.
pub open spec fn is_run(trace: Seq<BoardView>) -> bool {
    forall|j: int| 0 <= j < trace.len() - 1 ==> update_step(#[trigger] trace[j], trace[j + 1])
}

/// `r` is `b` after `n` updates.
pub open spec fn updated_times(b: BoardView, n: nat, r: BoardView) -> bool {
    exists|trace: Seq<BoardView>|
        #![trigger is_run(trace)]
        trace.len() == n + 1 && trace[0] == b && trace.last() == r && is_run(trace)
}

/// Runs the simulation for a frame: `speed` updates unless it is paused.
pub fn run_sim(board: &mut Board, paused: bool, speed: u32)
    requires
        old(board)@.sim_wf(),
    ensures
        final(board)@.sim_wf(),
        updated_times(old(board)@, if paused { 0 } else { speed as nat }, final(board)@),
{
    let ghost mut trace: Seq<BoardView> = seq![board@];
    if !paused {
        let mut k: u32 = 0;
        while k < speed
            invariant
                k <= speed,
                board@.sim_wf(),
                trace.len() == k + 1,
                trace[0] == old(board)@,
                trace.last() == board@,
                is_run(trace),
            decreases speed - k,
        {
            let ghost before = board@;
            board.update();
            proof {
                lemma_update_step(before, board@);
                let t2 = trace.push(board@);
                assert forall|j: int| 0 <= j < t2.len() - 1 implies update_step(#[trigger] t2[j], t2[j + 1]) by {
                    if j < trace.len() - 1 {
                        assert(update_step(trace[j], trace[j + 1]));
                    }
                }
                trace = t2;
            }
            k = k + 1;
        }
    }
    assert(is_run(trace));
}

/// The key binds of the simulation page pressed in a frame (with the
/// command key: Ctrl, or Cmd on a Mac).
#[derive(Debug, Clone, Copy)]
pub struct PageKeys {
    /// Command+L: make links on hover, or stop.
    pub command_l: bool,
    /// Command+T: one update while the simulation is paused.
    pub command_t: bool,
    /// Command+D: copy the selected devices to the pointer.
    pub command_d: bool,
    /// Escape: drop the links being drawn.
    pub escape: bool,
}

/// `r` is `b` with copies of the devices `sel` whose top-left corner lands
/// on `to`, under the ids `sel2` (see `clone_selected_devices`).
pub open spec fn selection_cloned(b: BoardView, sel: Seq<u64>, to: Point, sel2: Seq<u64>, r: BoardView) -> bool {
    &&& sel2.len() == sel.len()
    &&& r == (BoardView {
        devices: with_copies(
            b.devices,
            sel2,
            sel.map_values(|id: u64| moved_copy(b.devices[id], to.offset_from(selection_min(b, sel)))),
        ),
        ..b
    })
}

/// `r` and `sel2` are the board and selection after the key binds, with
/// `m` the board between the update and the copy: Command+T on a paused
/// simulation gives one update, then Command+D with a selection copies it.
pub open spec fn keys_board_after(
    b: BoardView,
    sel: Seq<u64>,
    keys: PageKeys,
    paused: bool,
    at: Point,
    m: BoardView,
    sel2: Seq<u64>,
    r: BoardView,
) -> bool {
    &&& if paused && keys.command_t {
        update_step(b, m)
    } else {
        m == b
    }
    &&& if keys.command_d && sel.len() > 0 {
        selection_cloned(m, sel, at, sel2, r)
    } else {
        r == m && sel2 == sel
    }
}

/// Handles the page's key binds for a frame, in order: Command+L toggles
/// making links on hover, Command+T updates a paused simulation once,
/// Command+D copies a non-empty selection to `at` (the copies become the
/// selection), and Escape drops the links being drawn.
pub fn sim_page_keys(
    auto_link: &mut bool,
    board: &mut Board,
    selected: &mut Vec<u64>,
    links: &mut CreateLinks,
    keys: PageKeys,
    paused: bool,
    at: Point,
)
    requires
        old(board)@.sim_wf(),
        keys.command_d && old(selected)@.len() > 0 ==> forall|k: int|
            0 <= k < old(selected)@.len() ==> old(board)@.devices.contains_key(#[trigger] old(selected)@[k]),
    ensures
        *final(auto_link) == (*old(auto_link) != keys.command_l),
        exists|m: BoardView|
            #[trigger] keys_board_after(old(board)@, old(selected)@, keys, paused, at, m, final(selected)@, final(board)@),
        keys.escape ==> pending(*final(links)) == (Seq::<crate::LinkStart<u64>>::empty(), 0usize, Seq::<Point>::empty()),
        !keys.escape ==> pending(*final(links)) == pending(*old(links)),
{
    if keys.command_l {
        *auto_link = !*auto_link;
    }
    if paused && keys.command_t {
        let ghost before = board@;
        board.update();
        proof {
            lemma_update_step(before, board@);
            lemma_step_keeps_pins(before, board@);
        }
    }
    let ghost m = board@;
    if selected.len() > 0 && keys.command_d {
        proof {
            assert forall|k: int| 0 <= k < selected@.len() implies board@.devices.contains_key(#[trigger] selected@[k]) by {
                assert(old(board)@.devices.contains_key(old(selected)@[k]));
            }
        }
        clone_selected_devices(board, selected, at);
    }
    if keys.escape {
        *links = CreateLinks::new();
        assert(pending(*links).0 =~= Seq::<crate::LinkStart<u64>>::empty());
        assert(pending(*links).2 =~= Seq::<Point>::empty());
    }
    assert(keys_board_after(old(board)@, old(selected)@, keys, paused, at, m, selected@, board@));
}

/// The devices `ids` of `devices`, each moved by `delta` (once per time it
/// is listed).
pub open spec fn devices_moved(devices: Map<u64, DeviceView>, ids: Seq<u64>, delta: Point) -> Map<u64, DeviceView>
    decreases ids.len(),
{
    if ids.len() == 0 {
        devices
    } else {
        let prev = devices_moved(devices, ids.drop_last(), delta);
        prev.insert(ids.last(), DeviceView { pos: prev[ids.last()].pos.moved(delta), ..prev[ids.last()] })
    }
}

/// A drag over `item` can be handled without fault: what it moves exists.
pub open spec fn drag_ok(b: BoardView, sel: Seq<u64>, item: AppItem) -> bool {
    match item {
        AppItem::Board(BoardItem::InputBulb(id)) => b.groups_wf(IoSel::Input) && b.pins(IoSel::Input).contains_key(id),
        AppItem::Board(BoardItem::OutputBulb(id)) => b.groups_wf(IoSel::Output) && b.pins(IoSel::Output).contains_key(
            id,
        ),
        AppItem::Board(BoardItem::Device(id)) => if sel.contains(id) {
            forall|k: int| 0 <= k < sel.len() ==> b.devices.contains_key(#[trigger] sel[k])
        } else {
            b.devices.contains_key(id)
        },
        _ => true,
    }
}

/// `r` is `b` after the pointer dragged `item` by `delta` (on the board):
/// a pin bulb moves with its group, a device moves with the selection when
/// it is selected, and a pin column moves the board's side.
pub open spec fn dragged(b: BoardView, sel: Seq<u64>, item: AppItem, delta: Point) -> BoardView {
    match item {
        AppItem::Board(BoardItem::InputBulb(id)) => b.move_pins(
            IoSel::Input,
            b.moving_pins(IoSel::Input, id),
            delta.y,
        ),
        AppItem::Board(BoardItem::OutputBulb(id)) => b.move_pins(
            IoSel::Output,
            b.moving_pins(IoSel::Output, id),
            delta.y,
        ),
        AppItem::Board(BoardItem::Device(id)) => BoardView {
            devices: devices_moved(b.devices, if sel.contains(id) { sel } else { seq![id] }, delta),
            ..b
        },
        AppItem::Board(BoardItem::InputCol) => BoardView {
            rect: Rect { min: Point { x: sat_add_spec(b.rect.min.x, delta.x), ..b.rect.min }, ..b.rect },
            ..b
        },
        AppItem::Board(BoardItem::OutputCol) => BoardView {
            rect: Rect { max: Point { x: sat_add_spec(b.rect.max.x, delta.x), ..b.rect.max }, ..b.rect },
            ..b
        },
        _ => b,
    }
}

/// Whether `id` is in `v`.
fn has_id(v: &Vec<u64>, id: u64) -> (r: bool)
    ensures
        r == v@.contains(id),
{
    let mut k: usize = 0;
    while k < v.len()
        invariant
            k <= v@.len(),
            forall|j: int| 0 <= j < k ==> v@[j] != id,
        decreases v@.len() - k,
    {
        if v[k] == id {
            assert(v@[k as int] == id);
            return true;
        }
        k = k + 1;
    }
    false
}

/// Moves the devices `ids` by `delta`, in order.
fn drag_devices(board: &mut Board, ids: &Vec<u64>, delta: Point)
    requires
        forall|k: int| 0 <= k < ids@.len() ==> old(board)@.devices.contains_key(#[trigger] ids@[k]),
    ensures
        final(board)@ == (BoardView { devices: devices_moved(old(board)@.devices, ids@, delta), ..old(board)@ }),
{
    let ghost b0 = board@;
    let mut k: usize = 0;
    while k < ids.len()
        invariant
            k <= ids@.len(),
            board@ == (BoardView { devices: devices_moved(b0.devices, ids@.take(k as int), delta), ..b0 }),
            board@.devices.dom() == b0.devices.dom(),
            forall|j: int| 0 <= j < ids@.len() ==> b0.devices.contains_key(#[trigger] ids@[j]),
        decreases ids@.len() - k,
    {
        proof {
            assert(ids@.take(k + 1).drop_last() =~= ids@.take(k as int));
            assert(b0.devices.contains_key(ids@[k as int]));
        }
        board.drag_device(ids[k], delta);
        assert(board@.devices.dom() =~= b0.devices.dom());
        k = k + 1;
    }
    assert(ids@.take(k as int) =~= ids@);
}

/// Handles a drag of `item` by `delta` (on the board) for a frame, as
/// `dragged` says.
pub fn drag_item(board: &mut Board, selected: &Vec<u64>, item: AppItem, delta: Point)
    requires
        drag_ok(old(board)@, selected@, item),
    ensures
        final(board)@ == dragged(old(board)@, selected@, item, delta),
{
    match item {
        AppItem::Board(BoardItem::InputBulb(id)) => board.drag_input(id, delta),
        AppItem::Board(BoardItem::OutputBulb(id)) => board.drag_output(id, delta),
        AppItem::Board(BoardItem::Device(id)) => {
            if has_id(selected, id) {
                drag_devices(board, selected, delta);
            } else {
                let one = vec![id];
                assert(one@ =~= seq![id]);
                drag_devices(board, &one, delta);
            }
        },
        AppItem::Board(BoardItem::InputCol) => {
            board.rect.min.x = sat_add(board.rect.min.x, delta.x);
        },
        AppItem::Board(BoardItem::OutputCol) => {
            board.rect.max.x = sat_add(board.rect.max.x, delta.x);
        },
        _ => {},
    }
}

/// `b` with device `d` under id `id`.
pub open spec fn with_device(b: BoardView, id: u64, d: DeviceView) -> BoardView {
    BoardView { devices: b.devices.insert(id, d), ..b }
}

/// Places the library preset `name` at `pos` under a fresh random id and
/// records it as recent; nothing happens when the library has no such
/// preset.
pub fn place_preset(board: &mut Board, placer: &mut ChipPlacer, library: &Library, name: &str, pos: Point)
    requires
        library.presets_buildable(),
    ensures
        index_of_name(library@.presets, name@) >= 0 ==> (exists|id: u64|
            final(board)@ == #[trigger] with_device(old(board)@, id, device_from(library.preset_of(name@), pos)))
            && strings_view(final(placer).recent@) == recent_pushed(strings_view(old(placer).recent@), name@),
        index_of_name(library@.presets, name@) < 0 ==> final(board)@ == old(board)@ && strings_view(
            final(placer).recent@,
        ) == strings_view(old(placer).recent@),
{
    match library.get_preset(name) {
        Some(preset) => {
            let device = crate::board::Device::from_preset(preset, pos);
            let id = rand_id();
            let ghost b0 = board@;
            board.add_device(id, device);
            assert(board@ == with_device(b0, id, device_from(library.preset_of(name@), pos)));
            placer.push_recent(name);
        },
        None => {},
    }
}

/// The point `at` moved down by the first `k` of `heights`.
pub open spec fn placed_at(at: Point, heights: Seq<i64>, k: int) -> Point
    decreases k,
{
    if k <= 0 {
        at
    } else {
        placed_at(at, heights, k - 1).moved(Point { x: 0, y: heights[k - 1] })
    }
}

/// `b` with the library presets `names` placed in order, the `k`-th at
/// `placed_at(at, heights, k)` under id `ids[k]`.
pub open spec fn with_placed(
    b: BoardView,
    library: Library,
    names: Seq<Seq<char>>,
    at: Point,
    heights: Seq<i64>,
    ids: Seq<u64>,
) -> BoardView
    decreases names.len(),
{
    if names.len() == 0 {
        b
    } else {
        let k = names.len() - 1;
        let prev = with_placed(b, library, names.drop_last(), at, heights, ids.drop_last());
        with_device(prev, ids[k], device_from(library.preset_of(names[k]), placed_at(at, heights, k)))
    }
}

/// The recent list after placing `names` in order.
pub open spec fn recents_pushed(recent: Seq<Seq<char>>, names: Seq<Seq<char>>) -> Seq<Seq<char>>
    decreases names.len(),
{
    if names.len() == 0 {
        recent
    } else {
        recent_pushed(recents_pushed(recent, names.drop_last()), names.last())
    }
}

/// Held presets are placed in this frame: some are held and the primary
/// button went down over the board.
pub open spec fn places_now(pressed_prim: bool, hovered: AppItem, n: nat) -> bool {
    pressed_prim && (hovered is Board) && n > 0
}

/// Places the held presets when the primary button goes down over the
/// board: each in order, the first at `at` and each next one lower by the
/// height of the one before (`heights[k]` for the `k`-th), each recorded
/// as recent; the held list is then empty. Otherwise nothing happens.
pub fn place_held_presets(
    board: &mut Board,
    placer: &mut ChipPlacer,
    library: &Library,
    held: &mut Vec<String>,
    hovered: AppItem,
    pressed_prim: bool,
    at: Point,
    heights: &Vec<i64>,
)
    requires
        library.presets_buildable(),
        heights@.len() >= old(held)@.len(),
        forall|k: int| 0 <= k < old(held)@.len() ==> index_of_name(library@.presets, (#[trigger] old(held)@[k])@) >= 0,
    ensures
        places_now(pressed_prim, hovered, old(held)@.len()) ==> {
            &&& final(held)@.len() == 0
            &&& exists|ids: Seq<u64>|
                ids.len() == old(held)@.len() && final(board)@ == with_placed(
                    old(board)@,
                    *library,
                    strings_view(old(held)@),
                    at,
                    heights@,
                    ids,
                )
            &&& strings_view(final(placer).recent@) == recents_pushed(
                strings_view(old(placer).recent@),
                strings_view(old(held)@),
            )
        },
        !places_now(pressed_prim, hovered, old(held)@.len()) ==> final(board)@ == old(board)@,
        !places_now(pressed_prim, hovered, old(held)@.len()) ==> final(held)@ == old(held)@,
        !places_now(pressed_prim, hovered, old(held)@.len()) ==> strings_view(final(placer).recent@)
            == strings_view(old(placer).recent@),
{
    let on_board = match hovered {
        AppItem::Board(_) => true,
        _ => false,
    };
    if pressed_prim && on_board && held.len() > 0 {
        let mut names: Vec<String> = Vec::new();
        std::mem::swap(&mut names, held);
        let ghost nv = strings_view(names@);
        let ghost b0 = board@;
        let ghost r0 = strings_view(placer.recent@);
        let ghost mut ids: Seq<u64> = seq![];
        let mut pos = at;
        let mut k: usize = 0;
        while k < names.len()
            invariant
                k <= names@.len(),
                nv == strings_view(names@),
                heights@.len() >= names@.len(),
                library.presets_buildable(),
                forall|j: int| 0 <= j < names@.len() ==> index_of_name(library@.presets, (#[trigger] names@[j])@) >= 0,
                ids.len() == k,
                pos == placed_at(at, heights@, k as int),
                board@ == with_placed(b0, *library, nv.take(k as int), at, heights@, ids),
                strings_view(placer.recent@) == recents_pushed(r0, nv.take(k as int)),
            decreases names@.len() - k,
        {
            let ghost before = board@;
            proof {
                assert(nv.take(k + 1).drop_last() =~= nv.take(k as int));
                assert(nv.take(k + 1).last() == nv[k as int]);
                assert(nv[k as int] == names@[k as int]@);
            }
            place_preset(board, placer, library, names[k].as_str(), pos);
            proof {
                let id = choose|id: u64|
                    board@ == #[trigger] with_device(before, id, device_from(library.preset_of(nv[k as int]), pos));
                let ids2 = ids.push(id);
                assert(ids2.drop_last() =~= ids);
                ids = ids2;
            }
            pos = pos.add(Point::new(0, heights[k]));
            k = k + 1;
        }
        assert(nv.take(k as int) =~= nv);
        assert(held@.len() == 0);
    }
}

/// What the window should do after an action: nothing, or a file task.
#[derive(Debug, Clone, Copy)]
pub enum OutEvent {
    Nothing,
    RevealConfigDir,
    LoadSettings,
    LoadLibrary,
    ImportPresets,
}

/// Which menus of the page are open.
#[derive(Debug, Clone, Copy)]
pub struct PageMenus {
    pub library_open: bool,
    pub pack_open: bool,
    pub sim_open: bool,
    pub settings_open: bool,
}

/// An action can be carried out: it is not one of the two not written yet
/// (packing the board, loading a preset), and a preset to delete exists.
pub open spec fn action_ok(action: AppAction, board: BoardView, library: Library) -> bool {
    match action {
        AppAction::PackBoard => false,
        AppAction::LoadPreset(_) => false,
        AppAction::StepSim => board.sim_wf(),
        AppAction::DeletePreset(name) => index_of_name(library@.presets, name@) >= 0,
        _ => true,
    }
}

/// Carries out an action asked for by a menu: file tasks are handed to the
/// window, menus open and close, a step updates the board once, a held
/// preset joins the held list, a deleted preset leaves the library, and
/// clearing gives an empty board.
pub fn exec_action(
    action: AppAction,
    board: &mut Board,
    library: &mut Library,
    held: &mut Vec<String>,
    menus: &mut PageMenus,
) -> (r: OutEvent)
    requires
        action_ok(action, old(board)@, *old(library)),
    ensures
        r == match action {
            AppAction::RevealConfigDir => OutEvent::RevealConfigDir,
            AppAction::LoadSettings => OutEvent::LoadSettings,
            AppAction::ReloadLibrary => OutEvent::LoadLibrary,
            AppAction::ImportLibrary => OutEvent::ImportPresets,
            _ => OutEvent::Nothing,
        },
        *final(menus) == match action {
            AppAction::ToggleLibraryMenu => PageMenus { library_open: !old(menus).library_open, ..*old(menus) },
            AppAction::TogglePackMenu => PageMenus { pack_open: !old(menus).pack_open, ..*old(menus) },
            AppAction::ToggleSimMenu => PageMenus { sim_open: !old(menus).sim_open, ..*old(menus) },
            AppAction::OpenSettings => PageMenus { settings_open: true, ..*old(menus) },
            AppAction::CloseSettings => PageMenus { settings_open: false, ..*old(menus) },
            _ => *old(menus),
        },
        strings_view(final(held)@) == match action {
            AppAction::HoldPreset(name) => strings_view(old(held)@).push(name@),
            _ => strings_view(old(held)@),
        },
        final(library)@ == match action {
            AppAction::DeletePreset(name) => old(library)@.removed(name@),
            _ => old(library)@,
        },
        old(library).presets_buildable() ==> final(library).presets_buildable(),
        match action {
            AppAction::StepSim => update_step(old(board)@, final(board)@),
            AppAction::Clear => {
                &&& final(board)@.rect == (Rect { min: Point { x: 0, y: 0 }, max: Point { x: 600, y: 400 } })
                &&& final(board)@.writes.len() == 0
                &&& final(board)@.buffer.len() == 0
                &&& final(board)@.inputs.dom().is_empty()
                &&& final(board)@.outputs.dom().is_empty()
                &&& final(board)@.devices.dom().is_empty()
                &&& final(board)@.input_groups.dom().is_empty()
                &&& final(board)@.output_groups.dom().is_empty()
            },
            _ => final(board)@ == old(board)@,
        },
{
    match action {
        AppAction::Nothing => OutEvent::Nothing,
        AppAction::RevealConfigDir => OutEvent::RevealConfigDir,
        AppAction::LoadSettings => OutEvent::LoadSettings,
        AppAction::ReloadLibrary => OutEvent::LoadLibrary,
        AppAction::ImportLibrary => OutEvent::ImportPresets,
        AppAction::ToggleLibraryMenu => {
            menus.library_open = !menus.library_open;
            OutEvent::Nothing
        },
        AppAction::TogglePackMenu => {
            menus.pack_open = !menus.pack_open;
            OutEvent::Nothing
        },
        AppAction::ToggleSimMenu => {
            menus.sim_open = !menus.sim_open;
            OutEvent::Nothing
        },
        AppAction::OpenSettings => {
            menus.settings_open = true;
            OutEvent::Nothing
        },
        AppAction::CloseSettings => {
            menus.settings_open = false;
            OutEvent::Nothing
        },
        AppAction::PackBoard => OutEvent::Nothing,
        AppAction::StepSim => {
            let ghost before = board@;
            board.update();
            proof {
                lemma_update_step(before, board@);
            }
            OutEvent::Nothing
        },
        AppAction::HoldPreset(name) => {
            let ghost h = strings_view(held@);
            let ghost nv = name@;
            held.push(name);
            assert(strings_view(held@) =~= h.push(nv));
            OutEvent::Nothing
        },
        AppAction::LoadPreset(_) => OutEvent::Nothing,
        AppAction::DeletePreset(name) => {
            library.remove_preset(name.as_str());
            OutEvent::Nothing
        },
        AppAction::Clear => {
            *board = Board::new();
            OutEvent::Nothing
        },
    }
}

} // verus!
