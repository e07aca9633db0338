//! Logic-gate simulation: bit fields and truth tables, combinational gates,
//! packed chips, the editable board with its write queue, the preset library
//! and its search.

pub mod bits;
pub mod geom;
pub mod text;
pub mod gate;
pub mod chip;
pub mod chip_preset;
pub mod presets;
pub mod queue;
pub mod maps;
pub mod board;
pub mod pack;
pub mod debug;
pub mod files;
pub mod links;
pub mod ui_state;
pub mod input_step;
pub mod sim_page;
pub mod sim;
pub mod platform;

use vstd::prelude::*;

verus! {

/// An identifier that a link can point at: ids on a board (`u64`) or
/// indices inside a packed chip (`usize`).
pub trait LinkId: Copy + Sized {
    /// Whether the two ids are the same.
    fn same(&self, other: &Self) -> (r: bool)
        ensures
            r == (*self == *other),
    ;
}

impl LinkId for u64 {
    fn same(&self, other: &Self) -> (r: bool) {
        *self == *other
    }
}

impl LinkId for usize {
    fn same(&self, other: &Self) -> (r: bool) {
        *self == *other
    }
}

/// Where a link delivers its state: an input of a device, or an output pin.
#[derive(Debug, Clone, Copy)]
pub enum LinkTarget<T> {
    DeviceInput(T, usize),
    Output(T),
}

impl<T: LinkId> LinkTarget<T> {
    /// Whether both targets are the same.
    pub fn same(&self, other: &Self) -> (r: bool)
        ensures
            r == (*self == *other),
    {
        match (self, other) {
            (LinkTarget::DeviceInput(a, i), LinkTarget::DeviceInput(b, j)) => a.same(b) && *i == *j,
            (LinkTarget::Output(a), LinkTarget::Output(b)) => a.same(b),
            _ => false,
        }
    }
}

/// Where a link takes its state from: an output of a device, or an input pin.
#[derive(Debug, Clone, Copy)]
pub enum LinkStart<T> {
    DeviceOutput(T, usize),
    Input(T),
}

impl<T: LinkId> LinkStart<T> {
    /// Whether both starts are the same.
    pub fn same(&self, other: &Self) -> (r: bool)
        ensures
            r == (*self == *other),
    {
        match (self, other) {
            (LinkStart::DeviceOutput(a, i), LinkStart::DeviceOutput(b, j)) => a.same(b) && *i == *j,
            (LinkStart::Input(a), LinkStart::Input(b)) => a.same(b),
            _ => false,
        }
    }
}

/// Input `1` of device `0`.
#[derive(Debug, Clone, Copy)]
pub struct DeviceInput<T>(pub T, pub usize);

impl<T: Copy> DeviceInput<T> {
    /// The same place, as a link target.
    pub fn wrap(&self) -> (r: LinkTarget<T>)
        ensures
            r == LinkTarget::DeviceInput(self.0, self.1),
    {
        LinkTarget::DeviceInput(self.0, self.1)
    }
}

/// A link from a pin to `target`, drawn through `anchors` in colour `color`.
#[derive(Debug)]
pub struct Link {
    pub target: LinkTarget<u64>,
    pub anchors: Vec<crate::geom::Point>,
    pub color: usize,
}

/// A link, as values.
pub struct LinkView {
    pub target: LinkTarget<u64>,
    pub anchors: Seq<crate::geom::Point>,
    pub color: usize,
}

impl View for Link {
    type V = LinkView;

    open spec fn view(&self) -> LinkView {
        LinkView { target: self.target, anchors: self.anchors@, color: self.color }
    }
}

impl Clone for Link {
    fn clone(&self) -> (r: Self)
        ensures
            r@ == self@,
    {
        Link { target: self.target, anchors: copy_vec(&self.anchors), color: self.color }
    }
}

impl Link {
    /// A link to `target` with the given colour and anchors.
    pub fn new(target: LinkTarget<u64>, color: usize, anchors: Vec<crate::geom::Point>) -> (r: Link)
        ensures
            r.target == target,
            r.color == color,
            r.anchors@ == anchors@,
    {
        Link { target, anchors, color }
    }
}

/// A link waiting to be made: from an input pin to a device input, or from
/// a device output to a target.
#[derive(Debug, Clone, Copy)]
pub enum NewLink<T> {
    InputToDeviceInput(T, DeviceInput<T>),
    DeviceOutputTo(T, usize, LinkTarget<T>),
}

/// How many link colours there are.
pub const NUM_LINK_COLORS: usize = 7;

/// Calls `getrandom::getrandom` on a one-byte buffer and returns the byte;
/// when the call fails the buffer keeps its initial `0`. Nothing is promised
/// of the value.
#[verifier::external_body]
fn random_byte() -> (r: u8) {
    let mut bytes = [0u8];
    let _ = getrandom::getrandom(&mut bytes);
    bytes[0]
}

/// The link colour for a random byte: the byte's share of the 256 byte
/// values scaled to the number of colours and rounded down, so always an
/// index into the colours.
pub fn link_color_of(byte: u8) -> (r: usize)
    ensures
        r == byte as int * NUM_LINK_COLORS as int / 256,
        r < NUM_LINK_COLORS,
{
    let b: usize = byte as usize;
    b * NUM_LINK_COLORS / 256
}

/// A random link colour, drawn from one random byte.
pub fn rand_link_color() -> (r: usize)
    ensures
        r < NUM_LINK_COLORS,
{
    link_color_of(random_byte())
}

/// The targets of a list of links.
pub open spec fn targets_of(links: Seq<LinkView>) -> Seq<LinkTarget<u64>> {
    links.map_values(|l: LinkView| l.target)
}

/// The set of the first `k + 1` entries is that of the first `k` plus the
/// `k`-th.
pub proof fn lemma_take_push_to_set<T>(s: Seq<T>, k: int)
    requires
        0 <= k < s.len(),
    ensures
        s.take(k + 1).to_set() == s.take(k).to_set().insert(s[k]),
{
    assert forall|x: T| s.take(k + 1).to_set().contains(x) == s.take(k).to_set().insert(s[k]).contains(
        x,
    ) by {
        if s.take(k + 1).contains(x) {
            let j = choose|j: int| 0 <= j < k + 1 && #[trigger] s.take(k + 1)[j] == x;
            if j < k {
                assert(s.take(k)[j] == x);
            }
        }
        if s.take(k).contains(x) {
            let j = choose|j: int| 0 <= j < k && #[trigger] s.take(k)[j] == x;
            assert(s.take(k + 1)[j] == x);
        }
        if x == s[k] {
            assert(s.take(k + 1)[k] == s[k]);
        }
    }
    assert(s.take(k + 1).to_set() =~= s.take(k).to_set().insert(s[k]));
}

/// An entry of a list without duplicates is not among the entries before it.
pub proof fn lemma_not_in_prefix<T>(s: Seq<T>, k: int)
    requires
        0 <= k < s.len(),
        s.no_duplicates(),
    ensures
        !s.take(k).to_set().contains(s[k]),
{
    if s.take(k).contains(s[k]) {
        let j = choose|j: int| 0 <= j < k && #[trigger] s.take(k)[j] == s[k];
        assert(s[j] == s[k]);
    }
}

/// A copy of a list of plain values.
pub fn copy_vec<T: Copy>(v: &Vec<T>) -> (r: Vec<T>)
    ensures
        r@ == v@,
{
    let mut r: Vec<T> = Vec::new();
    let mut i: usize = 0;
    while i < v.len()
        invariant
            i <= v@.len(),
            r@ == v@.take(i as int),
        decreases v@.len() - i,
    {
        r.push(v[i]);
        i = i + 1;
        assert(r@ =~= v@.take(i as int));
    }
    assert(r@ =~= v@);
    r
}

/// The views of a list of lists.
pub open spec fn nested_view<T>(v: Seq<Vec<T>>) -> Seq<Seq<T>> {
    v.map_values(|x: Vec<T>| x@)
}

/// A copy of a list of lists of plain values.
pub fn copy_nested<T: Copy>(v: &Vec<Vec<T>>) -> (r: Vec<Vec<T>>)
    ensures
        nested_view(r@) == nested_view(v@),
{
    let mut r: Vec<Vec<T>> = Vec::new();
    let mut i: usize = 0;
    while i < v.len()
        invariant
            i <= v@.len(),
            nested_view(r@) == nested_view(v@).take(i as int),
            r@.len() == i,
        decreases v@.len() - i,
    {
        let c = copy_vec(&v[i]);
        let ghost old_r = r@;
        r.push(c);
        proof {
            assert forall|k: int| 0 <= k <= i implies #[trigger] nested_view(r@)[k] == nested_view(
                v@,
            )[k] by {
                if k < i {
                    assert(r@[k] == old_r[k]);
                    assert(nested_view(old_r)[k] == nested_view(v@).take(i as int)[k]);
                }
            }
        }
        i = i + 1;
        assert(nested_view(r@) =~= nested_view(v@).take(i as int));
    }
    assert(nested_view(r@) =~= nested_view(v@));
    r
}

} // verus!
