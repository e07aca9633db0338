//! The queue of pending link writes. Each write waits a small random number
//! of ticks before it lands, which lets races between paths show up as they
//! would in hardware.

use crate::bits::ChangedOutputs;
use crate::{LinkId, LinkTarget};
use tinyrand::{RandRange, Seeded};
use vstd::prelude::*;

verus! {

#[verifier::external_type_specification]
#[verifier::external_body]
pub struct ExWyrand(tinyrand::Wyrand);

/// Calls `fastrand::u64(..)`: a random `u64` from the thread-local generator.
/// Nothing is promised of the value.
#[verifier::external_body]
pub fn rand_id() -> (r: u64) {
    fastrand::u64(..)
}

/// Calls `tinyrand::Wyrand::seed`: a generator started from `seed`.
/// Its state is opaque here.
#[verifier::external_body]
fn seeded_rand(seed: u64) -> (r: tinyrand::Wyrand) {
    tinyrand::Wyrand::seed(seed)
}

/// Calls `RandRange::<u64>::next_range(0..3)` on the generator: a value
/// below 3, which then advances the generator. Which value comes depends on
/// the generator's state, which is opaque here.
#[verifier::external_body]
fn next_delay(rand: &mut tinyrand::Wyrand) -> (r: u8)
    ensures
        r < 3,
{
    rand.next_range(0u64..3) as u8
}

/// A write that lands on `target` once `delay` reaches zero.
#[derive(Debug, Clone, Copy)]
pub struct Write<T> {
    pub target: LinkTarget<T>,
    pub state: bool,
    pub delay: u8,
}

/// The first index at or after `i` of a write to `target`, or `-1`.
pub open spec fn find_target<T>(ws: Seq<Write<T>>, target: LinkTarget<T>, i: int) -> int
    decreases ws.len() - i,
{
    if i < 0 || i >= ws.len() {
        -1
    } else if ws[i].target == target {
        i
    } else {
        find_target(ws, target, i + 1)
    }
}

/// The first index at or after `i` of a write whose delay is zero, or `-1`.
pub open spec fn find_ready<T>(ws: Seq<Write<T>>, i: int) -> int
    decreases ws.len() - i,
{
    if i < 0 || i >= ws.len() {
        -1
    } else if ws[i].delay == 0 {
        i
    } else {
        find_ready(ws, i + 1)
    }
}

/// `a + b` on `u8`, wrapping past 255.
pub open spec fn add_delay(a: u8, b: u8) -> u8 {
    ((a + b) % 256) as u8
}

/// The queue after queueing `state` for `target` with the extra delay `d`:
/// a write already queued for `target` takes the new state and waits `d`
/// more ticks; otherwise a new write waiting `d` ticks is appended.
pub open spec fn pushed<T>(ws: Seq<Write<T>>, target: LinkTarget<T>, state: bool, d: u8) -> Seq<
    Write<T>,
> {
    let i = find_target(ws, target, 0);
    if i >= 0 {
        ws.update(i, Write { target, state, delay: add_delay(ws[i].delay, d) })
    } else {
        ws.push(Write { target, state, delay: d })
    }
}

/// The queue after queueing each buffered `(target, state)` in order, the
/// `k`-th with the extra delay `ds[k]`.
pub open spec fn flushed<T>(ws: Seq<Write<T>>, buf: Seq<(LinkTarget<T>, bool)>, ds: Seq<u8>) -> Seq<
    Write<T>,
>
    decreases buf.len(),
{
    if buf.len() == 0 {
        ws
    } else {
        pushed(
            flushed(ws, buf.drop_last(), ds.drop_last()),
            buf.last().0,
            buf.last().1,
            ds.last(),
        )
    }
}

/// Every delay is a possible outcome of the generator (below 3).
pub open spec fn delays_ok(ds: Seq<u8>) -> bool {
    forall|k: int| 0 <= k < ds.len() ==> #[trigger] ds[k] < 3
}

/// No two queued writes go to the same target.
pub open spec fn distinct_targets<T>(ws: Seq<Write<T>>) -> bool {
    forall|i: int, j: int|
        0 <= i < ws.len() && 0 <= j < ws.len() && i != j ==> #[trigger] ws[i].target
            != #[trigger] ws[j].target
}

/// Every queued write has a delay above zero.
pub open spec fn all_waiting<T>(ws: Seq<Write<T>>) -> bool {
    forall|i: int| 0 <= i < ws.len() ==> #[trigger] ws[i].delay > 0
}

/// The queue after one tick: every delay goes down by one.
pub open spec fn ticked<T>(ws: Seq<Write<T>>) -> Seq<Write<T>> {
    Seq::new(
        ws.len(),
        |i: int| Write { target: ws[i].target, state: ws[i].state, delay: (ws[i].delay - 1) as u8 },
    )
}

proof fn lemma_find_target_skip<T>(ws: Seq<Write<T>>, target: LinkTarget<T>, i: int)
    requires
        0 <= i < ws.len(),
        ws[i].target != target,
    ensures
        find_target(ws, target, i) == find_target(ws, target, i + 1),
{
}

pub proof fn lemma_find_target_range<T>(ws: Seq<Write<T>>, target: LinkTarget<T>, i: int)
    requires
        0 <= i,
    ensures
        find_target(ws, target, i) == -1 || (i <= find_target(ws, target, i) < ws.len()
            && ws[find_target(ws, target, i)].target == target && forall|j: int|
            i <= j < find_target(ws, target, i) ==> ws[j].target != target),
        find_target(ws, target, i) == -1 ==> forall|j: int|
            i <= j < ws.len() ==> ws[j].target != target,
    decreases ws.len() - i,
{
    if i < ws.len() && ws[i].target != target {
        lemma_find_target_range(ws, target, i + 1);
    }
}

pub proof fn lemma_find_ready_range<T>(ws: Seq<Write<T>>, i: int)
    requires
        0 <= i,
    ensures
        find_ready(ws, i) == -1 || (i <= find_ready(ws, i) < ws.len() && ws[find_ready(
            ws,
            i,
        )].delay == 0 && forall|j: int| i <= j < find_ready(ws, i) ==> ws[j].delay != 0),
        find_ready(ws, i) == -1 ==> forall|j: int| i <= j < ws.len() ==> ws[j].delay != 0,
    decreases ws.len() - i,
{
    if i < ws.len() && ws[i].delay != 0 {
        lemma_find_ready_range(ws, i + 1);
    }
}

/// Queueing a write keeps the targets of the queue distinct.
pub proof fn lemma_pushed_distinct<T>(ws: Seq<Write<T>>, target: LinkTarget<T>, state: bool, d: u8)
    requires
        distinct_targets(ws),
    ensures
        distinct_targets(pushed(ws, target, state, d)),
{
    lemma_find_target_range(ws, target, 0);
    let r = pushed(ws, target, state, d);
    assert forall|i: int, j: int|
        0 <= i < r.len() && 0 <= j < r.len() && i != j implies #[trigger] r[i].target
        != #[trigger] r[j].target by {
        if find_target(ws, target, 0) >= 0 {
            assert(r[i].target == ws[i].target);
            assert(r[j].target == ws[j].target);
        } else {
            if i < ws.len() && j < ws.len() {
                assert(r[i].target == ws[i].target);
                assert(r[j].target == ws[j].target);
            }
        }
    }
}

/// Flushing a buffer keeps the targets of the queue distinct.
pub proof fn lemma_flushed_distinct<T>(
    ws: Seq<Write<T>>,
    buf: Seq<(LinkTarget<T>, bool)>,
    ds: Seq<u8>,
)
    requires
        distinct_targets(ws),
    ensures
        distinct_targets(flushed(ws, buf, ds)),
    decreases buf.len(),
{
    if buf.len() > 0 {
        lemma_flushed_distinct(ws, buf.drop_last(), ds.drop_last());
        lemma_pushed_distinct(
            flushed(ws, buf.drop_last(), ds.drop_last()),
            buf.last().0,
            buf.last().1,
            ds.last(),
        );
    }
}

/// Pending writes, and the writes produced during the current tick that
/// join the queue when it is flushed.
pub struct WriteQueue<T> {
    pub writes: Vec<Write<T>>,
    pub buffer: Vec<(LinkTarget<T>, bool)>,
    pub rand: tinyrand::Wyrand,
}

impl<T: LinkId> WriteQueue<T> {
    /// A queue holding `writes`, with an empty buffer and a freshly seeded
    /// generator.
    pub fn new(writes: Vec<Write<T>>) -> (r: WriteQueue<T>)
        ensures
            r.writes@ == writes@,
            r.buffer@.len() == 0,
    {
        WriteQueue { writes, buffer: Vec::new(), rand: seeded_rand(rand_id()) }
    }

    /// An empty queue.
    pub fn empty() -> (r: WriteQueue<T>)
        ensures
            r.writes@.len() == 0,
            r.buffer@.len() == 0,
    {
        Self::new(Vec::new())
    }

    /// A copy of the pending writes, with an empty buffer and a freshly
    /// seeded generator.
    pub fn duplicate(&self) -> (r: WriteQueue<T>)
        ensures
            r.writes@ == self.writes@,
            r.buffer@.len() == 0,
    {
        let mut writes: Vec<Write<T>> = Vec::new();
        let mut i: usize = 0;
        while i < self.writes.len()
            invariant
                i <= self.writes@.len(),
                writes@ == self.writes@.take(i as int),
            decreases self.writes@.len() - i,
        {
            writes.push(self.writes[i]);
            i = i + 1;
            assert(writes@ =~= self.writes@.take(i as int));
        }
        assert(writes@ =~= self.writes@);
        Self::new(writes)
    }

    /// Number of pending writes (the buffer is not counted).
    pub fn len(&self) -> (r: usize)
        ensures
            r == self.writes@.len(),
    {
        self.writes.len()
    }

    /// Drops every pending and buffered write.
    pub fn clear(&mut self)
        ensures
            final(self).writes@.len() == 0,
            final(self).buffer@.len() == 0,
    {
        self.writes.clear();
        self.buffer.clear();
    }

    /// Buffers a write; it joins the queue at the next flush.
    pub fn push(&mut self, target: LinkTarget<T>, state: bool)
        ensures
            final(self).writes@ == old(self).writes@,
            final(self).buffer@ == old(self).buffer@.push((target, state)),
    {
        self.buffer.push((target, state));
    }

    /// Queues a write with a fresh random extra delay `d` (returned).
    fn push_raw(&mut self, target: LinkTarget<T>, state: bool) -> (d: u8)
        ensures
            d < 3,
            final(self).writes@ == pushed(old(self).writes@, target, state, d),
            final(self).buffer@ == old(self).buffer@,
    {
        let new_delay = next_delay(&mut self.rand);
        let mut idx: usize = 0;
        while idx < self.writes.len()
            invariant
                idx <= self.writes@.len(),
                self.writes@ == old(self).writes@,
                self.buffer@ == old(self).buffer@,
                find_target(self.writes@, target, 0) == find_target(self.writes@, target, idx as int),
                new_delay < 3,
            decreases self.writes@.len() - idx,
        {
            if self.writes[idx].target.same(&target) {
                let delay = self.writes[idx].delay.wrapping_add(new_delay);
                self.writes.set(idx, Write { target, state, delay });
                return new_delay;
            }
            proof {
                lemma_find_target_skip(self.writes@, target, idx as int);
            }
            idx = idx + 1;
        }
        self.writes.push(Write { target, state, delay: new_delay });
        new_delay
    }

    /// Moves every buffered write into the queue, in order, each with its own
    /// random extra delay.
    pub fn flush(&mut self)
        ensures
            final(self).buffer@.len() == 0,
            exists|ds: Seq<u8>|
                ds.len() == old(self).buffer@.len() && delays_ok(ds) && final(self).writes@
                    == flushed(old(self).writes@, old(self).buffer@, ds),
    {
        let ghost mut ds: Seq<u8> = Seq::empty();
        let mut idx: usize = 0;
        while idx < self.buffer.len()
            invariant
                idx <= self.buffer@.len(),
                self.buffer@ == old(self).buffer@,
                ds.len() == idx,
                delays_ok(ds),
                self.writes@ == flushed(old(self).writes@, self.buffer@.take(idx as int), ds),
            decreases self.buffer@.len() - idx,
        {
            let (target, state) = self.buffer[idx];
            let d = self.push_raw(target, state);
            proof {
                let buf = self.buffer@.take(idx + 1);
                assert(buf.drop_last() =~= self.buffer@.take(idx as int));
                assert(ds.push(d).drop_last() =~= ds);
                ds = ds.push(d);
            }
            idx = idx + 1;
        }
        proof {
            assert(self.buffer@.take(idx as int) =~= self.buffer@);
        }
        self.buffer.clear();
    }

    /// Takes out the first pending write whose delay is zero.
    pub fn next(&mut self) -> (r: Option<Write<T>>)
        ensures
            final(self).buffer@ == old(self).buffer@,
            find_ready(old(self).writes@, 0) < 0 ==> r is None && final(self).writes@ == old(
                self,
            ).writes@,
            find_ready(old(self).writes@, 0) >= 0 ==> r == Some(
                old(self).writes@[find_ready(old(self).writes@, 0)],
            ) && final(self).writes@ == old(self).writes@.remove(find_ready(old(self).writes@, 0)),
    {
        let mut idx: usize = 0;
        while idx < self.writes.len()
            invariant
                idx <= self.writes@.len(),
                self.writes@ == old(self).writes@,
                self.buffer@ == old(self).buffer@,
                find_ready(self.writes@, 0) == find_ready(self.writes@, idx as int),
            decreases self.writes@.len() - idx,
        {
            if self.writes[idx].delay == 0 {
                let write = self.writes.remove(idx);
                return Some(write);
            }
            idx = idx + 1;
        }
        None
    }

    /// One tick: every pending delay goes down by one. Meant for after
    /// `next` has taken out every ready write and before `flush`.
    pub fn update(&mut self)
        requires
            all_waiting(old(self).writes@),
        ensures
            final(self).writes@ == ticked(old(self).writes@),
            final(self).buffer@ == old(self).buffer@,
    {
        let mut idx: usize = 0;
        while idx < self.writes.len()
            invariant
                idx <= self.writes@.len(),
                self.writes@.len() == old(self).writes@.len(),
                self.buffer@ == old(self).buffer@,
                all_waiting(old(self).writes@),
                forall|i: int|
                    0 <= i < idx ==> self.writes@[i] == ticked(old(self).writes@)[i],
                forall|i: int| idx <= i < self.writes@.len() ==> self.writes@[i] == old(self).writes@[i],
            decreases self.writes@.len() - idx,
        {
            let w = self.writes[idx];
            self.writes.set(idx, Write { target: w.target, state: w.state, delay: w.delay - 1 });
            idx = idx + 1;
        }
        assert(self.writes@ =~= ticked(old(self).writes@));
    }
}

/// After `next` finds nothing ready, every pending write is waiting, so a
/// tick may follow.
pub proof fn lemma_none_ready_all_waiting<T>(ws: Seq<Write<T>>)
    requires
        find_ready(ws, 0) < 0,
    ensures
        all_waiting(ws),
{
    lemma_find_ready_range(ws, 0);
}

} // verus!

verus! {

/// One buffered write per target, all carrying `state`.
pub open spec fn fanout<T>(targets: Seq<LinkTarget<T>>, state: bool) -> Seq<(LinkTarget<T>, bool)> {
    targets.map_values(|t: LinkTarget<T>| (t, state))
}

/// The writes that the output changes `changes` send along `links` (the
/// links of each output), in order.
pub open spec fn change_writes<T>(links: Seq<Seq<LinkTarget<T>>>, changes: Seq<(usize, bool)>) -> Seq<
    (LinkTarget<T>, bool),
>
    decreases changes.len(),
{
    if changes.len() == 0 {
        Seq::empty()
    } else {
        fanout(links[changes[0].0 as int], changes[0].1) + change_writes(links, changes.drop_first())
    }
}

/// The writes for a list of changes split at any point are those of the
/// first part followed by those of the second.
pub proof fn lemma_change_writes_append<T>(
    links: Seq<Seq<LinkTarget<T>>>,
    a: Seq<(usize, bool)>,
    b: Seq<(usize, bool)>,
)
    ensures
        change_writes(links, a + b) == change_writes(links, a) + change_writes(links, b),
    decreases a.len(),
{
    if a.len() == 0 {
        assert(a + b =~= b);
        assert(change_writes(links, a) + change_writes(links, b) =~= change_writes(links, b));
    } else {
        assert((a + b).drop_first() =~= a.drop_first() + b);
        lemma_change_writes_append(links, a.drop_first(), b);
        assert(change_writes(links, a + b) =~= change_writes(links, a) + change_writes(links, b));
    }
}

/// The writes of a single change.
pub proof fn lemma_change_writes_single<T>(links: Seq<Seq<LinkTarget<T>>>, c: (usize, bool))
    ensures
        change_writes(links, seq![c]) == fanout(links[c.0 as int], c.1),
{
    let s = seq![c];
    assert(s[0] == c);
    assert(s.drop_first() =~= Seq::<(usize, bool)>::empty());
    assert(change_writes(links, s.drop_first()) =~= Seq::<(LinkTarget<T>, bool)>::empty());
    assert(fanout(links[c.0 as int], c.1) + Seq::<(LinkTarget<T>, bool)>::empty() =~= fanout(
        links[c.0 as int],
        c.1,
    ));
}

} // verus!

verus! {

/// The link lists of each output, as values.
pub open spec fn links_view<T>(links: Seq<Vec<LinkTarget<T>>>) -> Seq<Seq<LinkTarget<T>>> {
    links.map_values(|v: Vec<LinkTarget<T>>| v@)
}

impl<T: LinkId> WriteQueue<T> {
    /// Buffers, for each change still to come, one write per link of the
    /// changed output.
    pub fn push_changes(&mut self, changes: &mut ChangedOutputs, links: &Vec<Vec<LinkTarget<T>>>)
        requires
            old(changes).wf(),
            forall|k: int|
                0 <= k < old(changes).remaining().len() ==> (#[trigger] old(changes).remaining()[k]).0 < links@.len(),
        ensures
            final(self).writes@ == old(self).writes@,
            final(self).buffer@ == old(self).buffer@ + change_writes(
                links_view(links@),
                old(changes).remaining(),
            ),
            final(changes).remaining().len() == 0,
    {
        let ghost all = changes.remaining();
        let ghost lv = links_view(links@);
        let mut done = false;
        while !done
            invariant
                changes.wf(),
                forall|k: int|
                    0 <= k < changes.remaining().len() ==> (#[trigger] changes.remaining()[k]).0 < links@.len(),
                lv == links_view(links@),
                self.writes@ == old(self).writes@,
                all == old(changes).remaining(),
                all.len() >= changes.remaining().len(),
                changes.remaining() == all.skip(all.len() - changes.remaining().len()),
                self.buffer@ == old(self).buffer@ + change_writes(
                    lv,
                    all.take(all.len() - changes.remaining().len()),
                ),
                done ==> changes.remaining().len() == 0,
            decreases changes.remaining().len() + (if done { 0int } else { 1int }),
        {
            let ghost before = changes.remaining();
            match changes.next() {
                Some((output, state)) => {
                    let ghost done_part = all.take(all.len() - before.len());
                    let targets = &links[output];
                    let ghost buf0 = self.buffer@;
                    let mut i: usize = 0;
                    while i < targets.len()
                        invariant
                            i <= targets@.len(),
                            targets@ == lv[output as int],
                            self.writes@ == old(self).writes@,
                            self.buffer@ == buf0 + fanout(targets@, state).take(i as int),
                        decreases targets@.len() - i,
                    {
                        self.push(targets[i], state);
                        i = i + 1;
                        assert(self.buffer@ =~= buf0 + fanout(targets@, state).take(i as int));
                    }
                    proof {
                        assert(fanout(targets@, state).take(i as int) =~= fanout(targets@, state));
                        assert(before[0] == (output, state));
                        assert(all.take(all.len() - changes.remaining().len()) =~= done_part + seq![
                            (output, state),
                        ]);
                        lemma_change_writes_append(lv, done_part, seq![(output, state)]);
                        lemma_change_writes_single(lv, (output, state));
                        assert(changes.remaining() =~= all.skip(
                            all.len() - changes.remaining().len(),
                        ));
                        assert forall|k: int| 0 <= k < changes.remaining().len() implies (
                        #[trigger] changes.remaining()[k]).0 < links@.len() by {
                            assert(changes.remaining()[k] == before[k + 1]);
                        }
                    }
                },
                None => {
                    done = true;
                },
            }
        }
        proof {
            assert(all.take(all.len() as int) =~= all);
        }
    }
}

} // verus!

verus! {

/// Writes sent along links whose targets all satisfy `p` go to targets that
/// satisfy `p`.
pub proof fn lemma_change_writes_targets<T>(
    links: Seq<Seq<LinkTarget<T>>>,
    changes: Seq<(usize, bool)>,
    p: spec_fn(LinkTarget<T>) -> bool,
)
    requires
        forall|o: int, k: int|
            0 <= o < links.len() && 0 <= k < links[o].len() ==> p(#[trigger] links[o][k]),
        forall|c: int| 0 <= c < changes.len() ==> (#[trigger] changes[c]).0 < links.len(),
    ensures
        forall|k: int|
            0 <= k < change_writes(links, changes).len() ==> p(
                (#[trigger] change_writes(links, changes)[k]).0,
            ),
    decreases changes.len(),
{
    if changes.len() > 0 {
        assert forall|c: int| 0 <= c < changes.drop_first().len() implies (
        #[trigger] changes.drop_first()[c]).0 < links.len() by {
            assert(changes.drop_first()[c] == changes[c + 1]);
        }
        lemma_change_writes_targets(links, changes.drop_first(), p);
        let f = fanout(links[changes[0].0 as int], changes[0].1);
        let rest = change_writes(links, changes.drop_first());
        assert forall|k: int| 0 <= k < (f + rest).len() implies p((#[trigger] (f + rest)[k]).0) by {
            if k < f.len() {
                assert(f[k].0 == links[changes[0].0 as int][k]);
            } else {
                assert((f + rest)[k] == rest[k - f.len()]);
            }
        }
    }
}

} // verus!

verus! {

/// After queueing, every target in the queue was in the queue before or is
/// the new one.
pub proof fn lemma_pushed_targets<T>(
    ws: Seq<Write<T>>,
    target: LinkTarget<T>,
    state: bool,
    d: u8,
    p: spec_fn(LinkTarget<T>) -> bool,
)
    requires
        forall|k: int| 0 <= k < ws.len() ==> p(#[trigger] ws[k].target),
        p(target),
    ensures
        forall|k: int|
            0 <= k < pushed(ws, target, state, d).len() ==> p(
                #[trigger] pushed(ws, target, state, d)[k].target,
            ),
{
    lemma_find_target_range(ws, target, 0);
}

/// Flushing only brings in the buffered targets.
pub proof fn lemma_flushed_targets<T>(
    ws: Seq<Write<T>>,
    buf: Seq<(LinkTarget<T>, bool)>,
    ds: Seq<u8>,
    p: spec_fn(LinkTarget<T>) -> bool,
)
    requires
        forall|k: int| 0 <= k < ws.len() ==> p(#[trigger] ws[k].target),
        forall|k: int| 0 <= k < buf.len() ==> p(#[trigger] buf[k].0),
    ensures
        forall|k: int|
            0 <= k < flushed(ws, buf, ds).len() ==> p(#[trigger] flushed(ws, buf, ds)[k].target),
    decreases buf.len(),
{
    if buf.len() > 0 {
        assert forall|k: int| 0 <= k < buf.drop_last().len() implies p(
            #[trigger] buf.drop_last()[k].0,
        ) by {
            assert(buf.drop_last()[k] == buf[k]);
        }
        lemma_flushed_targets(ws, buf.drop_last(), ds.drop_last(), p);
        assert(p(buf[buf.len() - 1].0));
        lemma_pushed_targets(
            flushed(ws, buf.drop_last(), ds.drop_last()),
            buf.last().0,
            buf.last().1,
            ds.last(),
            p,
        );
    }
}

} // verus!
