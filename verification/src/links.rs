//! A board never holds two links into the same target: adding a link first
//! takes away the link that led there.

use crate::board::BoardView;
use crate::{LinkStart, LinkTarget, LinkView};
use vstd::prelude::*;

verus! {

/// No two links of the board lead into the same target.
pub open spec fn one_link_per_target(v: BoardView) -> bool {
    &&& forall|i1: u64, k1: int, i2: u64, k2: int|
        #![trigger v.inputs[i1].links[k1], v.inputs[i2].links[k2]]
        v.inputs.contains_key(i1) && 0 <= k1 < v.inputs[i1].links.len() && v.inputs.contains_key(i2) && 0 <= k2
            < v.inputs[i2].links.len() && (i1 != i2 || k1 != k2) ==> v.inputs[i1].links[k1].target
            != v.inputs[i2].links[k2].target
    &&& forall|d1: u64, o1: int, k1: int, d2: u64, o2: int, k2: int|
        #![trigger v.devices[d1].links[o1][k1], v.devices[d2].links[o2][k2]]
        v.devices.contains_key(d1) && 0 <= o1 < v.devices[d1].links.len() && 0 <= k1
            < v.devices[d1].links[o1].len() && v.devices.contains_key(d2) && 0 <= o2
            < v.devices[d2].links.len() && 0 <= k2 < v.devices[d2].links[o2].len() && (d1 != d2 || o1 != o2
            || k1 != k2) ==> v.devices[d1].links[o1][k1].target != v.devices[d2].links[o2][k2].target
    &&& forall|i: u64, k: int, d: u64, o: int, q: int|
        #![trigger v.inputs[i].links[k], v.devices[d].links[o][q]]
        v.inputs.contains_key(i) && 0 <= k < v.inputs[i].links.len() && v.devices.contains_key(d) && 0 <= o
            < v.devices[d].links.len() && 0 <= q < v.devices[d].links[o].len() ==> v.inputs[i].links[k].target
            != v.devices[d].links[o][q].target
}

/// Where entry `j` of a list with entry `k` removed came from.
pub open spec fn from_removed(j: int, k: int) -> int {
    if j < k {
        j
    } else {
        j + 1
    }
}

/// Removing the one link to `t` leaves no link to `t` and keeps every
/// target led into by at most one link.
pub proof fn lemma_link_removed_one(v: BoardView, t: LinkTarget<u64>, m: BoardView)
    requires
        one_link_per_target(v),
        v.link_removed(t, m),
    ensures
        !m.input_has_link_to(t),
        !m.device_has_link_to(t),
        one_link_per_target(m),
{
    if v.input_has_link_to(t) {
        let (i, k) = choose|i: u64, k: int|
            #![trigger v.inputs[i].links[k]]
            v.inputs.contains_key(i) && crate::board::first_link_to(v.inputs[i].links, t, k) && m
                == v.remove_input_link(i, k);
        assert(m.devices == v.devices);
        assert(m.inputs.dom() =~= v.inputs.dom());
        assert forall|i2: u64, k2: int|
            m.inputs.contains_key(i2) && 0 <= k2 < m.inputs[i2].links.len() implies #[trigger] m.inputs[i2].links[k2]
            == v.inputs[i2].links[if i2 == i {
            from_removed(k2, k)
        } else {
            k2
        }] by {}
        assert(!m.input_has_link_to(t)) by {
            if m.input_has_link_to(t) {
                let (i2, k2) = choose|i2: u64, k2: int|
                    #![trigger m.inputs[i2].links[k2]]
                    m.inputs.contains_key(i2) && 0 <= k2 < m.inputs[i2].links.len() && m.inputs[i2].links[k2].target
                        == t;
                let p = if i2 == i {
                    from_removed(k2, k)
                } else {
                    k2
                };
                assert(m.inputs[i2].links[k2] == v.inputs[i2].links[p]);
                assert(v.inputs[i].links[k].target == t);
            }
        }
        assert(!m.device_has_link_to(t)) by {
            if m.device_has_link_to(t) {
                let (d, o, q) = choose|d: u64, o: int, q: int|
                    #![trigger m.devices[d].links[o][q]]
                    m.devices.contains_key(d) && 0 <= o < m.devices[d].links.len() && 0 <= q
                        < m.devices[d].links[o].len() && m.devices[d].links[o][q].target == t;
                assert(v.inputs[i].links[k].target == v.devices[d].links[o][q].target);
            }
        }
        assert forall|i1: u64, k1: int, i2: u64, k2: int|
            m.inputs.contains_key(i1) && 0 <= k1 < m.inputs[i1].links.len() && m.inputs.contains_key(i2) && 0 <= k2
                < m.inputs[i2].links.len() && (i1 != i2 || k1 != k2) implies #[trigger] m.inputs[i1].links[k1].target
            != #[trigger] m.inputs[i2].links[k2].target by {
            let p1 = if i1 == i {
                from_removed(k1, k)
            } else {
                k1
            };
            let p2 = if i2 == i {
                from_removed(k2, k)
            } else {
                k2
            };
            assert(m.inputs[i1].links[k1] == v.inputs[i1].links[p1]);
            assert(m.inputs[i2].links[k2] == v.inputs[i2].links[p2]);
        }
        assert forall|i1: u64, k1: int, d: u64, o: int, q: int|
            m.inputs.contains_key(i1) && 0 <= k1 < m.inputs[i1].links.len() && m.devices.contains_key(d) && 0 <= o
                < m.devices[d].links.len() && 0 <= q < m.devices[d].links[o].len() implies #[trigger] m.inputs[i1].links[k1].target
            != #[trigger] m.devices[d].links[o][q].target by {
            let p1 = if i1 == i {
                from_removed(k1, k)
            } else {
                k1
            };
            assert(m.inputs[i1].links[k1] == v.inputs[i1].links[p1]);
            assert(v.inputs[i1].links[p1].target != v.devices[d].links[o][q].target);
        }
        assert forall|d1: u64, o1: int, k1: int, d2: u64, o2: int, k2: int|
            m.devices.contains_key(d1) && 0 <= o1 < m.devices[d1].links.len() && 0 <= k1
                < m.devices[d1].links[o1].len() && m.devices.contains_key(d2) && 0 <= o2
                < m.devices[d2].links.len() && 0 <= k2 < m.devices[d2].links[o2].len() && (d1 != d2 || o1 != o2
                || k1 != k2) implies #[trigger] m.devices[d1].links[o1][k1].target
            != #[trigger] m.devices[d2].links[o2][k2].target by {
            assert(v.devices[d1].links[o1][k1].target != v.devices[d2].links[o2][k2].target);
        }
    } else if v.device_has_link_to(t) {
        let (d, o, k) = choose|d: u64, o: int, k: int|
            #![trigger v.devices[d].links[o][k]]
            v.devices.contains_key(d) && 0 <= o < v.devices[d].links.len() && crate::board::first_link_to(
                v.devices[d].links[o],
                t,
                k,
            ) && m == v.remove_device_link(d, o, k);
        assert(m.inputs == v.inputs);
        assert(m.devices.dom() =~= v.devices.dom());
        assert forall|d2: u64, o2: int, k2: int|
            m.devices.contains_key(d2) && 0 <= o2 < m.devices[d2].links.len() && 0 <= k2
                < m.devices[d2].links[o2].len() implies #[trigger] m.devices[d2].links[o2][k2]
            == v.devices[d2].links[o2][if d2 == d && o2 == o {
            from_removed(k2, k)
        } else {
            k2
        }] by {}
        assert(!m.device_has_link_to(t)) by {
            if m.device_has_link_to(t) {
                let (d2, o2, k2) = choose|d2: u64, o2: int, k2: int|
                    #![trigger m.devices[d2].links[o2][k2]]
                    m.devices.contains_key(d2) && 0 <= o2 < m.devices[d2].links.len() && 0 <= k2
                        < m.devices[d2].links[o2].len() && m.devices[d2].links[o2][k2].target == t;
                let p = if d2 == d && o2 == o {
                    from_removed(k2, k)
                } else {
                    k2
                };
                assert(m.devices[d2].links[o2][k2] == v.devices[d2].links[o2][p]);
                assert(v.devices[d].links[o][k].target == t);
            }
        }
        assert forall|d1: u64, o1: int, k1: int, d2: u64, o2: int, k2: int|
            m.devices.contains_key(d1) && 0 <= o1 < m.devices[d1].links.len() && 0 <= k1
                < m.devices[d1].links[o1].len() && m.devices.contains_key(d2) && 0 <= o2
                < m.devices[d2].links.len() && 0 <= k2 < m.devices[d2].links[o2].len() && (d1 != d2 || o1 != o2
                || k1 != k2) implies #[trigger] m.devices[d1].links[o1][k1].target
            != #[trigger] m.devices[d2].links[o2][k2].target by {
            let p1 = if d1 == d && o1 == o {
                from_removed(k1, k)
            } else {
                k1
            };
            let p2 = if d2 == d && o2 == o {
                from_removed(k2, k)
            } else {
                k2
            };
            assert(m.devices[d1].links[o1][k1] == v.devices[d1].links[o1][p1]);
            assert(m.devices[d2].links[o2][k2] == v.devices[d2].links[o2][p2]);
        }
        assert forall|i1: u64, k1: int, d2: u64, o2: int, q: int|
            m.inputs.contains_key(i1) && 0 <= k1 < m.inputs[i1].links.len() && m.devices.contains_key(d2) && 0 <= o2
                < m.devices[d2].links.len() && 0 <= q < m.devices[d2].links[o2].len() implies #[trigger] m.inputs[i1].links[k1].target
            != #[trigger] m.devices[d2].links[o2][q].target by {
            let p = if d2 == d && o2 == o {
                from_removed(q, k)
            } else {
                q
            };
            assert(m.devices[d2].links[o2][q] == v.devices[d2].links[o2][p]);
            assert(v.inputs[i1].links[k1].target != v.devices[d2].links[o2][p].target);
        }
    }
}

/// The start of a link exists on the board.
pub open spec fn start_exists(v: BoardView, start: LinkStart<u64>) -> bool {
    match start {
        LinkStart::Input(id) => v.inputs.contains_key(id),
        LinkStart::DeviceOutput(id, idx) => v.devices.contains_key(id) && idx < v.devices[id].links.len(),
    }
}

/// Attaching a link into a target that no link leads into keeps every
/// target led into by at most one link.
pub proof fn lemma_attach_one(m: BoardView, start: LinkStart<u64>, l: LinkView)
    requires
        one_link_per_target(m),
        !m.input_has_link_to(l.target),
        !m.device_has_link_to(l.target),
        start_exists(m, start),
    ensures
        one_link_per_target(m.attach(start, l)),
        m.attach(start, l).input_has_link_to(l.target) || m.attach(start, l).device_has_link_to(l.target),
{
    let r = m.attach(start, l);
    match start {
        LinkStart::Input(id) => {
            assert(r.devices == m.devices);
            assert(r.inputs.dom() =~= m.inputs.dom());
            let n = m.inputs[id].links.len() as int;
            assert(r.inputs[id].links[n] == l);
            assert forall|i1: u64, k1: int| r.inputs.contains_key(i1) && 0 <= k1 < r.inputs[i1].links.len() && !(
            i1 == id && k1 == n) implies #[trigger] r.inputs[i1].links[k1] == m.inputs[i1].links[k1]
                && 0 <= k1 < m.inputs[i1].links.len() by {}
            assert forall|i1: u64, k1: int, i2: u64, k2: int|
                r.inputs.contains_key(i1) && 0 <= k1 < r.inputs[i1].links.len() && r.inputs.contains_key(i2) && 0
                    <= k2 < r.inputs[i2].links.len() && (i1 != i2 || k1 != k2) implies #[trigger] r.inputs[i1].links[k1].target
                != #[trigger] r.inputs[i2].links[k2].target by {
                if i1 == id && k1 == n {
                    assert(r.inputs[i2].links[k2] == m.inputs[i2].links[k2]);
                    assert(m.inputs[i2].links[k2].target != l.target);
                } else if i2 == id && k2 == n {
                    assert(r.inputs[i1].links[k1] == m.inputs[i1].links[k1]);
                    assert(m.inputs[i1].links[k1].target != l.target);
                } else {
                    assert(r.inputs[i1].links[k1] == m.inputs[i1].links[k1]);
                    assert(r.inputs[i2].links[k2] == m.inputs[i2].links[k2]);
                }
            }
            assert forall|i1: u64, k1: int, d: u64, o: int, q: int|
                r.inputs.contains_key(i1) && 0 <= k1 < r.inputs[i1].links.len() && r.devices.contains_key(d) && 0
                    <= o < r.devices[d].links.len() && 0 <= q < r.devices[d].links[o].len() implies #[trigger] r.inputs[i1].links[k1].target
                != #[trigger] r.devices[d].links[o][q].target by {
                if i1 == id && k1 == n {
                    assert(m.devices[d].links[o][q].target != l.target);
                } else {
                    assert(r.inputs[i1].links[k1] == m.inputs[i1].links[k1]);
                }
            }
            assert forall|d1: u64, o1: int, k1: int, d2: u64, o2: int, k2: int|
                r.devices.contains_key(d1) && 0 <= o1 < r.devices[d1].links.len() && 0 <= k1
                    < r.devices[d1].links[o1].len() && r.devices.contains_key(d2) && 0 <= o2
                    < r.devices[d2].links.len() && 0 <= k2 < r.devices[d2].links[o2].len() && (d1 != d2 || o1 != o2
                    || k1 != k2) implies #[trigger] r.devices[d1].links[o1][k1].target
                != #[trigger] r.devices[d2].links[o2][k2].target by {
                assert(m.devices[d1].links[o1][k1].target != m.devices[d2].links[o2][k2].target);
            }
            assert(r.input_has_link_to(l.target)) by {
                assert(r.inputs.contains_key(id) && 0 <= n < r.inputs[id].links.len() && r.inputs[id].links[n].target
                    == l.target);
            }
        },
        LinkStart::DeviceOutput(id, idx) => {
            let o0 = idx as int;
            assert(r.inputs == m.inputs);
            assert(r.devices.dom() =~= m.devices.dom());
            let n = m.devices[id].links[o0].len() as int;
            assert(r.devices[id].links[o0][n] == l);
            assert forall|d1: u64, o1: int, k1: int|
                r.devices.contains_key(d1) && 0 <= o1 < r.devices[d1].links.len() && 0 <= k1
                    < r.devices[d1].links[o1].len() && !(d1 == id && o1 == o0 && k1 == n) implies #[trigger] r.devices[d1].links[o1][k1]
                == m.devices[d1].links[o1][k1] && 0 <= o1 < m.devices[d1].links.len() && 0 <= k1
                < m.devices[d1].links[o1].len() by {}
            assert forall|d1: u64, o1: int, k1: int, d2: u64, o2: int, k2: int|
                r.devices.contains_key(d1) && 0 <= o1 < r.devices[d1].links.len() && 0 <= k1
                    < r.devices[d1].links[o1].len() && r.devices.contains_key(d2) && 0 <= o2
                    < r.devices[d2].links.len() && 0 <= k2 < r.devices[d2].links[o2].len() && (d1 != d2 || o1 != o2
                    || k1 != k2) implies #[trigger] r.devices[d1].links[o1][k1].target
                != #[trigger] r.devices[d2].links[o2][k2].target by {
                if d1 == id && o1 == o0 && k1 == n {
                    assert(r.devices[d2].links[o2][k2] == m.devices[d2].links[o2][k2]);
                    assert(m.devices[d2].links[o2][k2].target != l.target);
                } else if d2 == id && o2 == o0 && k2 == n {
                    assert(r.devices[d1].links[o1][k1] == m.devices[d1].links[o1][k1]);
                    assert(m.devices[d1].links[o1][k1].target != l.target);
                } else {
                    assert(r.devices[d1].links[o1][k1] == m.devices[d1].links[o1][k1]);
                    assert(r.devices[d2].links[o2][k2] == m.devices[d2].links[o2][k2]);
                }
            }
            assert forall|i1: u64, k1: int, d: u64, o: int, q: int|
                r.inputs.contains_key(i1) && 0 <= k1 < r.inputs[i1].links.len() && r.devices.contains_key(d) && 0
                    <= o < r.devices[d].links.len() && 0 <= q < r.devices[d].links[o].len() implies #[trigger] r.inputs[i1].links[k1].target
                != #[trigger] r.devices[d].links[o][q].target by {
                if d == id && o == o0 && q == n {
                    assert(m.inputs[i1].links[k1].target != l.target);
                } else {
                    assert(r.devices[d].links[o][q] == m.devices[d].links[o][q]);
                }
            }
            assert forall|i1: u64, k1: int, i2: u64, k2: int|
                r.inputs.contains_key(i1) && 0 <= k1 < r.inputs[i1].links.len() && r.inputs.contains_key(i2) && 0
                    <= k2 < r.inputs[i2].links.len() && (i1 != i2 || k1 != k2) implies #[trigger] r.inputs[i1].links[k1].target
                != #[trigger] r.inputs[i2].links[k2].target by {
                assert(m.inputs[i1].links[k1].target != m.inputs[i2].links[k2].target);
            }
            assert(r.device_has_link_to(l.target)) by {
                assert(r.devices.contains_key(id) && 0 <= o0 < r.devices[id].links.len() && 0 <= n
                    < r.devices[id].links[o0].len() && r.devices[id].links[o0][n].target == l.target);
            }
        },
    }
}

/// Adding a link (as `Board::add_link` does: take away the link into the
/// same target, then attach the new one) keeps every target led into by at
/// most one link, and the new link's target is led into.
pub proof fn lemma_add_link_one(v: BoardView, start: LinkStart<u64>, l: LinkView, m: BoardView)
    requires
        one_link_per_target(v),
        start_exists(v, start),
        v.link_removed(l.target, m),
    ensures
        one_link_per_target(m.attach(start, l)),
        m.attach(start, l).input_has_link_to(l.target) || m.attach(start, l).device_has_link_to(l.target),
{
    lemma_link_removed_one(v, l.target, m);
    assert(start_exists(m, start)) by {
        if v.input_has_link_to(l.target) {
            let (i, k) = choose|i: u64, k: int|
                #![trigger v.inputs[i].links[k]]
                v.inputs.contains_key(i) && crate::board::first_link_to(v.inputs[i].links, l.target, k) && m
                    == v.remove_input_link(i, k);
            assert(m.inputs.dom() =~= v.inputs.dom());
        } else if v.device_has_link_to(l.target) {
            let (d, o, k) = choose|d: u64, o: int, k: int|
                #![trigger v.devices[d].links[o][k]]
                v.devices.contains_key(d) && 0 <= o < v.devices[d].links.len() && crate::board::first_link_to(
                    v.devices[d].links[o],
                    l.target,
                    k,
                ) && m == v.remove_device_link(d, o, k);
            assert(m.devices.dom() =~= v.devices.dom());
        }
    }
    lemma_attach_one(m, start, l);
}

/// At most one link of the board leads into `t`.
pub open spec fn one_link_into(v: BoardView, t: LinkTarget<u64>) -> bool {
    &&& forall|i1: u64, k1: int, i2: u64, k2: int|
        #![trigger v.inputs[i1].links[k1], v.inputs[i2].links[k2]]
        v.inputs.contains_key(i1) && 0 <= k1 < v.inputs[i1].links.len() && v.inputs.contains_key(i2) && 0 <= k2
            < v.inputs[i2].links.len() && v.inputs[i1].links[k1].target == t && v.inputs[i2].links[k2].target == t
            ==> i1 == i2 && k1 == k2
    &&& forall|d1: u64, o1: int, k1: int, d2: u64, o2: int, k2: int|
        #![trigger v.devices[d1].links[o1][k1], v.devices[d2].links[o2][k2]]
        v.devices.contains_key(d1) && 0 <= o1 < v.devices[d1].links.len() && 0 <= k1
            < v.devices[d1].links[o1].len() && v.devices.contains_key(d2) && 0 <= o2 < v.devices[d2].links.len()
            && 0 <= k2 < v.devices[d2].links[o2].len() && v.devices[d1].links[o1][k1].target == t
            && v.devices[d2].links[o2][k2].target == t ==> d1 == d2 && o1 == o2 && k1 == k2
    &&& !(v.input_has_link_to(t) && v.device_has_link_to(t))
}

/// The last link of the list of `start`, if the start exists and has one.
pub open spec fn last_link_of(v: BoardView, start: LinkStart<u64>) -> Option<LinkView> {
    match start {
        LinkStart::Input(id) => if v.inputs.contains_key(id) && v.inputs[id].links.len() > 0 {
            Some(v.inputs[id].links.last())
        } else {
            None
        },
        LinkStart::DeviceOutput(id, idx) => if v.devices.contains_key(id) && idx < v.devices[id].links.len()
            && v.devices[id].links[idx as int].len() > 0 {
            Some(v.devices[id].links[idx as int].last())
        } else {
            None
        },
    }
}

/// Taking away the first link into `t` from a board with at most one link
/// into `t` leaves none.
proof fn lemma_removed_none(v: BoardView, t: LinkTarget<u64>, m: BoardView)
    requires
        one_link_into(v, t),
        v.link_removed(t, m),
    ensures
        !m.input_has_link_to(t),
        !m.device_has_link_to(t),
        m.inputs.dom() == v.inputs.dom(),
        m.devices.dom() == v.devices.dom(),
        forall|d: u64| #[trigger] m.devices.contains_key(d) ==> m.devices[d].links.len() == v.devices[d].links.len(),
{
    if v.input_has_link_to(t) {
        let (i, k) = choose|i: u64, k: int|
            #![trigger v.inputs[i].links[k]]
            v.inputs.contains_key(i) && crate::board::first_link_to(v.inputs[i].links, t, k) && m
                == v.remove_input_link(i, k);
        assert(m.devices == v.devices);
        assert(m.inputs.dom() =~= v.inputs.dom());
        assert(v.inputs[i].links[k].target == t);
        assert(!m.input_has_link_to(t)) by {
            if m.input_has_link_to(t) {
                let (i2, k2) = choose|i2: u64, k2: int|
                    #![trigger m.inputs[i2].links[k2]]
                    m.inputs.contains_key(i2) && 0 <= k2 < m.inputs[i2].links.len() && m.inputs[i2].links[k2].target
                        == t;
                let p = if i2 == i {
                    from_removed(k2, k)
                } else {
                    k2
                };
                assert(m.inputs[i2].links[k2] == v.inputs[i2].links[p]);
                assert(v.inputs[i2].links[p].target == t && v.inputs[i].links[k].target == t);
            }
        }
        assert(!m.device_has_link_to(t));
    } else if v.device_has_link_to(t) {
        let (d, o, k) = choose|d: u64, o: int, k: int|
            #![trigger v.devices[d].links[o][k]]
            v.devices.contains_key(d) && 0 <= o < v.devices[d].links.len() && crate::board::first_link_to(
                v.devices[d].links[o],
                t,
                k,
            ) && m == v.remove_device_link(d, o, k);
        assert(m.inputs == v.inputs);
        assert(m.devices.dom() =~= v.devices.dom());
        assert(v.devices[d].links[o][k].target == t);
        assert(!m.device_has_link_to(t)) by {
            if m.device_has_link_to(t) {
                let (d2, o2, k2) = choose|d2: u64, o2: int, k2: int|
                    #![trigger m.devices[d2].links[o2][k2]]
                    m.devices.contains_key(d2) && 0 <= o2 < m.devices[d2].links.len() && 0 <= k2
                        < m.devices[d2].links[o2].len() && m.devices[d2].links[o2][k2].target == t;
                let p = if d2 == d && o2 == o {
                    from_removed(k2, k)
                } else {
                    k2
                };
                assert(m.devices[d2].links[o2][k2] == v.devices[d2].links[o2][p]);
                assert(v.devices[d2].links[o2][p].target == t && v.devices[d].links[o][k].target == t);
            }
        }
    }
}

/// Adding a link (as `Board::add_link` does) to a board where at most one
/// link leads into its target: afterwards exactly one link leads there, the
/// new one, which is the last of its start's list.
pub proof fn lemma_add_link_into(v: BoardView, start: LinkStart<u64>, l: LinkView, m: BoardView)
    requires
        one_link_into(v, l.target),
        start_exists(v, start),
        v.link_removed(l.target, m),
    ensures
        one_link_into(m.attach(start, l), l.target),
        m.attach(start, l).input_has_link_to(l.target) || m.attach(start, l).device_has_link_to(l.target),
        last_link_of(m.attach(start, l), start) == Some(l),
{
    lemma_removed_none(v, l.target, m);
    let t = l.target;
    let r = m.attach(start, l);
    match start {
        LinkStart::Input(id) => {
            assert(r.devices == m.devices);
            assert(r.inputs.dom() =~= m.inputs.dom());
            let n = m.inputs[id].links.len() as int;
            assert(r.inputs[id].links[n] == l);
            assert forall|i1: u64, k1: int| r.inputs.contains_key(i1) && 0 <= k1 < r.inputs[i1].links.len() && !(
            i1 == id && k1 == n) implies #[trigger] r.inputs[i1].links[k1] == m.inputs[i1].links[k1]
                && 0 <= k1 < m.inputs[i1].links.len() by {}
            assert forall|i1: u64, k1: int|
                r.inputs.contains_key(i1) && 0 <= k1 < r.inputs[i1].links.len() && #[trigger] r.inputs[i1].links[k1].target == t
                implies i1 == id && k1 == n by {
                if !(i1 == id && k1 == n) {
                    assert(r.inputs[i1].links[k1] == m.inputs[i1].links[k1]);
                }
            }
            assert(r.input_has_link_to(t)) by {
                assert(r.inputs.contains_key(id) && 0 <= n < r.inputs[id].links.len() && r.inputs[id].links[n].target
                    == t);
            }
            assert(!r.device_has_link_to(t));
        },
        LinkStart::DeviceOutput(id, idx) => {
            let o0 = idx as int;
            assert(r.inputs == m.inputs);
            assert(r.devices.dom() =~= m.devices.dom());
            let n = m.devices[id].links[o0].len() as int;
            assert(r.devices[id].links[o0][n] == l);
            assert forall|d1: u64, o1: int, k1: int|
                r.devices.contains_key(d1) && 0 <= o1 < r.devices[d1].links.len() && 0 <= k1
                    < r.devices[d1].links[o1].len() && !(d1 == id && o1 == o0 && k1 == n) implies #[trigger] r.devices[d1].links[o1][k1]
                == m.devices[d1].links[o1][k1] && 0 <= o1 < m.devices[d1].links.len() && 0 <= k1
                < m.devices[d1].links[o1].len() by {}
            assert forall|d1: u64, o1: int, k1: int|
                r.devices.contains_key(d1) && 0 <= o1 < r.devices[d1].links.len() && 0 <= k1
                    < r.devices[d1].links[o1].len() && #[trigger] r.devices[d1].links[o1][k1].target == t
                implies d1 == id && o1 == o0 && k1 == n by {
                if !(d1 == id && o1 == o0 && k1 == n) {
                    assert(r.devices[d1].links[o1][k1] == m.devices[d1].links[o1][k1]);
                }
            }
            assert(r.device_has_link_to(t)) by {
                assert(r.devices.contains_key(id) && 0 <= o0 < r.devices[id].links.len() && 0 <= n
                    < r.devices[id].links[o0].len() && r.devices[id].links[o0][n].target == t);
            }
            assert(!r.input_has_link_to(t));
        },
    }
}

/// Taking away a link keeps every pin's and device's state and the
/// buffered writes.
proof fn lemma_removed_keeps_states(v: BoardView, t: LinkTarget<u64>, m: BoardView)
    requires
        v.link_removed(t, m),
    ensures
        m.buffer == v.buffer,
        m.inputs.dom() == v.inputs.dom(),
        forall|i: u64| #[trigger] m.inputs.contains_key(i) ==> m.inputs[i].io == v.inputs[i].io,
        m.devices.dom() == v.devices.dom(),
        forall|d: u64| #[trigger] m.devices.contains_key(d) ==> m.devices[d].data == v.devices[d].data
            && m.devices[d].links.len() == v.devices[d].links.len(),
{
    if v.input_has_link_to(t) {
        let (i, k) = choose|i: u64, k: int|
            #![trigger v.inputs[i].links[k]]
            v.inputs.contains_key(i) && crate::board::first_link_to(v.inputs[i].links, t, k) && m
                == v.remove_input_link(i, k);
        assert(m.inputs.dom() =~= v.inputs.dom());
    } else if v.device_has_link_to(t) {
        let (d, o, k) = choose|d: u64, o: int, k: int|
            #![trigger v.devices[d].links[o][k]]
            v.devices.contains_key(d) && 0 <= o < v.devices[d].links.len() && crate::board::first_link_to(
                v.devices[d].links[o],
                t,
                k,
            ) && m == v.remove_device_link(d, o, k);
        assert(m.devices.dom() =~= v.devices.dom());
    }
}

/// Adding a link (as `Board::add_link` does: take away the link into the
/// same target, then attach the new one) buffers exactly one write, to the
/// new link's target, carrying the start's state before the call: the
/// input pin's state, or bit `idx` of the device's outputs for output
/// `idx`.
pub proof fn lemma_add_link_sends_start_state(v: BoardView, start: LinkStart<u64>, l: LinkView, m: BoardView)
    requires
        start_exists(v, start),
        v.link_removed(l.target, m),
    ensures
        m.attach(start, l).buffer == v.buffer.push(
            (
                l.target,
                match start {
                    LinkStart::Input(id) => v.inputs[id].io.state,
                    LinkStart::DeviceOutput(id, idx) => crate::bits::bit_of(
                        v.devices[id].data.output(),
                        idx as nat,
                    ),
                },
            ),
        ),
        m.attach(start, l).buffer.last() == (l.target, v.start_state(start)->Some_0),
{
    lemma_removed_keeps_states(v, l.target, m);
    match start {
        LinkStart::Input(id) => {
            assert(m.inputs.contains_key(id));
        },
        LinkStart::DeviceOutput(id, idx) => {
            assert(m.devices.contains_key(id));
        },
    }
}

} // verus!
