use crate::text::{binary_padded, digits, zero_padded};
use vstd::prelude::*;

verus! {

/// The value of bit `pos` of `data`.
pub open spec fn bit_of(data: u64, pos: nat) -> bool {
    pos < 64 && (data >> (pos as u64)) & 1u64 == 1u64
}

/// Setting a bit below `n` keeps a value below `2^n`.
pub proof fn lemma_with_bit_bound(data: u64, pos: nat, state: bool, n: nat)
    requires
        pos < n,
        n < 64,
        data < (1u64 << (n as u64)),
    ensures
        with_bit(data, pos, state) < (1u64 << (n as u64)),
{
    let p = pos as u64;
    let m = n as u64;
    let s: u64 = if state { 1u64 } else { 0u64 };
    assert(((data & !(1u64 << p)) | (s << p)) < (1u64 << m)) by (bit_vector)
        requires
            p < m,
            m < 64,
            data < (1u64 << m),
            s == 0u64 || s == 1u64,
    ;
}

/// `data` with bit `pos` replaced by `state`.
pub open spec fn with_bit(data: u64, pos: nat, state: bool) -> u64
    recommends pos < 64,
{
    (data & !(1u64 << (pos as u64))) | ((if state { 1u64 } else { 0u64 }) << (pos as u64))
}

/// Setting bit `pos` makes it read `state` and leaves every other bit as it was.
pub proof fn lemma_with_bit(data: u64, pos: nat, state: bool, other: nat)
    requires
        pos < 64,
        other < 64,
    ensures
        bit_of(with_bit(data, pos, state), pos) == state,
        other != pos ==> bit_of(with_bit(data, pos, state), other) == bit_of(data, other),
{
    let p = pos as u64;
    let o = other as u64;
    let s: u64 = if state { 1u64 } else { 0u64 };
    assert(((((data & !(1u64 << p)) | (s << p)) >> p) & 1u64 == 1u64) == (s == 1u64))
        by (bit_vector)
        requires
            p < 64,
            s == 0u64 || s == 1u64,
    ;
    if other != pos {
        assert(((((data & !(1u64 << p)) | (s << p)) >> o) & 1u64) == ((data >> o) & 1u64))
            by (bit_vector)
            requires
                p < 64,
                o < 64,
                o != p,
                s == 0u64 || s == 1u64,
        ;
    }
}

/// The OR of `bits[i] << i` over the first `n` entries.
pub open spec fn or_shifted(bits: Seq<u8>, n: nat) -> u64
    decreases n,
{
    if n == 0 {
        0u64
    } else {
        or_shifted(bits, (n - 1) as nat) | ((bits[n - 1] as u64) << ((n - 1) as u64))
    }
}

proof fn lemma_or_shifted_bit(bits: Seq<u8>, n: nat, k: nat)
    requires
        n <= bits.len(),
        n <= 64,
        k < 64,
        forall|i: int| 0 <= i < bits.len() ==> bits[i] <= 1,
    ensures
        bit_of(or_shifted(bits, n), k) <==> (k < n && bits[k as int] == 1),
    decreases n,
{
    if n > 0 {
        lemma_or_shifted_bit(bits, (n - 1) as nat, k);
        let a = or_shifted(bits, (n - 1) as nat);
        let b = bits[n - 1] as u64;
        let m = (n - 1) as u64;
        let kk = k as u64;
        assert(((((a | (b << m)) >> kk) & 1u64) == 1u64) == ((((a >> kk) & 1u64) == 1u64) || (kk
            == m && b == 1u64))) by (bit_vector)
            requires
                m < 64,
                kk < 64,
                b <= 1,
        ;
    } else {
        let kk = k as u64;
        assert((((0u64 >> kk) & 1u64) == 1u64) == false) by (bit_vector);
    }
}

/// The bits `s[0]`, `s[1]`, ... packed from bit 0 upward.
pub open spec fn pack_bits(s: Seq<bool>) -> u64
    decreases s.len(),
{
    if s.len() == 0 {
        0u64
    } else {
        with_bit(pack_bits(s.drop_last()), (s.len() - 1) as nat, s.last())
    }
}

/// Bit `i` of `pack_bits(s)` is `s[i]` (and off past the end).
pub proof fn lemma_pack_bits(s: Seq<bool>, i: nat)
    requires
        s.len() <= 64,
        i < 64,
    ensures
        bit_of(pack_bits(s), i) == (i < s.len() && s[i as int]),
    decreases s.len(),
{
    if s.len() == 0 {
        let ii = i as u64;
        assert((((0u64 >> ii) & 1u64) == 1u64) == false) by (bit_vector);
    } else {
        lemma_pack_bits(s.drop_last(), i);
        lemma_with_bit(pack_bits(s.drop_last()), (s.len() - 1) as nat, s.last(), i);
    }
}

/// A row of up to 64 bits, of which the first `len` are meaningful.
#[derive(Debug, Clone, Copy)]
pub struct BitField {
    pub data: u64,
    pub len: usize,
}

impl BitField {
    /// Number of meaningful bits.
    pub open spec fn spec_len(&self) -> nat {
        self.len as nat
    }

    /// The state of bit `pos`.
    pub open spec fn bit(&self, pos: nat) -> bool {
        bit_of(self.data, pos)
    }

    /// A field of `len` bits, all off.
    pub fn empty(len: usize) -> (r: BitField)
        requires
            len <= 64,
        ensures
            r.data == 0,
            r.spec_len() == len,
    {
        BitField { len, data: 0 }
    }

    /// A field built from raw parts.
    pub fn from_parts(data: u64, len: usize) -> (r: BitField)
        ensures
            r.data == data,
            r.spec_len() == len,
    {
        BitField { data, len }
    }

    /// A one-bit field holding `bit`.
    pub fn single(bit: u8) -> (r: BitField)
        requires
            bit == 0 || bit == 1,
        ensures
            r.data == bit as u64,
            r.spec_len() == 1,
    {
        BitField { len: 1, data: bit as u64 }
    }

    /// Number of meaningful bits.
    pub fn len(&self) -> (r: usize)
        ensures
            r == self.spec_len(),
    {
        self.len
    }

    /// Sets bit `pos` to `state`.
    pub fn set(&mut self, pos: usize, state: bool)
        requires
            pos < old(self).spec_len(),
            pos < 64,
        ensures
            final(self).data == with_bit(old(self).data, pos as nat, state),
            final(self).spec_len() == old(self).spec_len(),
    {
        let s: u64 = if state { 1 } else { 0 };
        self.data = (self.data & !(1u64 << pos as u64)) | (s << pos as u64);
    }

    /// The state of bit `pos`.
    pub fn get(&self, pos: usize) -> (r: bool)
        requires
            pos < self.spec_len(),
            pos < 64,
        ensures
            r == self.bit(pos as nat),
    {
        ((self.data >> pos as u64) & 1) == 1
    }

    /// Whether any bit of the field is on.
    pub fn any_on(&self) -> (r: bool)
        ensures
            r == (self.data != 0),
    {
        self.data != 0
    }

    /// The meaningful bits, lowest first.
    pub fn bits(self) -> (r: Vec<bool>)
        requires
            self.spec_len() <= 64,
        ensures
            r@.len() == self.spec_len(),
            forall|i: int| 0 <= i < r@.len() ==> r@[i] == self.bit(i as nat),
    {
        let mut bits: Vec<bool> = Vec::new();
        let mut i: usize = 0;
        while i < self.len
            invariant
                self.len <= 64,
                i <= self.len,
                bits@.len() == i,
                forall|j: int| 0 <= j < i ==> bits@[j] == self.bit(j as nat),
            decreases self.len - i,
        {
            bits.push(self.get(i));
            i = i + 1;
        }
        bits
    }

    /// A field whose bit `i` holds the value `bits[i]` (each entry is `0` or
    /// `1`; a larger entry spills into the next bits).
    pub fn from_bits(bits: &[u8]) -> (r: BitField)
        requires
            bits@.len() <= 32,
        ensures
            r.spec_len() == bits@.len(),
            r.data == or_shifted(bits@, bits@.len()),
            (forall|i: int| 0 <= i < bits@.len() ==> bits@[i] <= 1) ==> (forall|i: nat|
                i < 64 ==> (#[trigger] r.bit(i) <==> (i < bits@.len() && bits@[i as int] == 1))),
    {
        let mut data: u64 = 0;
        let mut i: usize = 0;
        while i < bits.len()
            invariant
                bits@.len() <= 32,
                i <= bits@.len(),
                data == or_shifted(bits@, i as nat),
            decreases bits@.len() - i,
        {
            data = data | ((bits[i] as u64) << i as u64);
            i = i + 1;
        }
        let r = BitField { len: bits.len(), data };
        proof {
            if forall|i: int| 0 <= i < bits@.len() ==> bits@[i] <= 1 {
                assert forall|k: nat| k < 64 implies (#[trigger] r.bit(k) <==> (k < bits@.len()
                    && bits@[k as int] == 1)) by {
                    lemma_or_shifted_bit(bits@, bits@.len(), k);
                }
            }
        }
        r
    }
}

} // verus!

verus! {

/// A combinational function: row `i` of `map` holds the outputs for the input
/// pattern `i`.
#[derive(Debug)]
pub struct TruthTable {
    pub num_inputs: usize,
    pub num_outputs: usize,
    pub map: Vec<u64>,
}

impl Clone for TruthTable {
    fn clone(&self) -> (r: Self)
        ensures
            r.num_inputs == self.num_inputs,
            r.num_outputs == self.num_outputs,
            r.map@ == self.map@,
    {
        let map = self.map.clone();
        assert(map@ =~= self.map@);
        TruthTable { num_inputs: self.num_inputs, num_outputs: self.num_outputs, map }
    }
}

/// Number of rows of a table with `n` inputs.
pub open spec fn rows(n: nat) -> nat {
    (1u64 << (n as u64)) as nat
}

/// A table always has at least one row.
pub proof fn lemma_rows_pos(n: nat)
    requires
        n < 64,
    ensures
        rows(n) > 0,
{
    let m = n as u64;
    assert(0u64 < (1u64 << m)) by (bit_vector)
        requires
            m < 64,
    ;
}

impl TruthTable {
    /// A table with one row per input pattern, and at most 64 outputs.
    pub open spec fn wf(&self) -> bool {
        &&& self.num_inputs < 64
        &&& self.num_outputs <= 64
        &&& self.map@.len() == rows(self.num_inputs as nat)
    }

    /// The outputs for the input pattern `input`.
    pub fn get(&self, input: usize) -> (r: BitField)
        requires
            input < self.map@.len(),
        ensures
            r.data == self.map@[input as int],
            r.spec_len() == self.num_outputs,
    {
        BitField { len: self.num_outputs, data: self.map[input] }
    }

    /// The table as text, one `input: "output"` entry per row with both
    /// patterns in binary, zero-padded to the number of inputs and outputs:
    /// `TruthTable { 0: "1", 1: "0" }`, or `TruthTable` with no rows.
    pub fn debug_string(&self) -> (r: String)
        ensures
            r@ == table_text(self.map@, self.num_inputs as nat, self.num_outputs as nat),
    {
        let mut s = String::new();
        s.append("TruthTable");
        if self.map.len() == 0 {
            return s;
        }
        s.append(" { ");
        let ghost head = s@;
        let mut k: usize = 0;
        while k < self.map.len()
            invariant
                1 <= self.map@.len(),
                k <= self.map@.len(),
                s@ == head + table_entries(self.map@.take(k as int), self.num_inputs as nat, self.num_outputs as nat),
            decreases self.map@.len() - k,
        {
            if k > 0 {
                s.append(", ");
            }
            let key = binary_padded(k as u64, self.num_inputs);
            let val = binary_padded(self.map[k], self.num_outputs);
            s.append(key.as_str());
            s.append(": \"");
            s.append(val.as_str());
            s.append("\"");
            proof {
                assert(self.map@.take(k + 1).drop_last() =~= self.map@.take(k as int));
                assert(self.map@.take(k + 1).last() == self.map@[k as int]);
            }
            k = k + 1;
        }
        s.append(" }");
        assert(self.map@.take(k as int) =~= self.map@);
        assert(s@ =~= table_text(self.map@, self.num_inputs as nat, self.num_outputs as nat));
        s
    }
}

/// The text of row `k` with outputs `out`.
pub open spec fn table_entry(k: nat, out: u64, ni: nat, no: nat) -> Seq<char> {
    zero_padded(digits(k, 2), ni) + ": \""@ + zero_padded(digits(out as nat, 2), no) + "\""@
}

/// The texts of the rows of `map`, separated by `, `.
pub open spec fn table_entries(map: Seq<u64>, ni: nat, no: nat) -> Seq<char>
    decreases map.len(),
{
    if map.len() == 0 {
        seq![]
    } else if map.len() == 1 {
        table_entry(0, map[0], ni, no)
    } else {
        table_entries(map.drop_last(), ni, no) + ", "@ + table_entry((map.len() - 1) as nat, map.last(), ni, no)
    }
}

/// The text of a table with rows `map`.
pub open spec fn table_text(map: Seq<u64>, ni: nat, no: nat) -> Seq<char> {
    if map.len() == 0 {
        "TruthTable"@
    } else {
        "TruthTable"@ + " { "@ + table_entries(map, ni, no) + " }"@
    }
}

/// The changes listed are exactly the bits from `from` up to `len` that
/// differ, each once, in increasing order, with its new state.
pub proof fn lemma_changes_exact(prev: u64, new: u64, from: nat, len: nat)
    requires
        len <= 64,
    ensures
        forall|p: usize, s: bool|
            #[trigger] changes_from(prev, new, from, len).contains((p, s)) <==> from <= p < len && bit_of(prev, p as nat)
                != bit_of(new, p as nat) && s == bit_of(new, p as nat),
        forall|a: int, b: int|
            0 <= a < b < changes_from(prev, new, from, len).len() ==> changes_from(prev, new, from, len)[a].0
                < changes_from(prev, new, from, len)[b].0,
    decreases len - from,
{
    lemma_changes_in_range(prev, new, from, len);
    if from < len {
        lemma_changes_exact(prev, new, from + 1, len);
        lemma_changes_in_range(prev, new, from + 1, len);
        let rest = changes_from(prev, new, from + 1, len);
        let all = changes_from(prev, new, from, len);
        assert forall|p: usize, s: bool| #[trigger] all.contains((p, s)) <==> from <= p < len && bit_of(prev, p as nat)
            != bit_of(new, p as nat) && s == bit_of(new, p as nat) by {
            if bit_of(prev, from) != bit_of(new, from) {
                assert(all == seq![(from as usize, bit_of(new, from))] + rest);
                if all.contains((p, s)) {
                    let j = choose|j: int| 0 <= j < all.len() && all[j] == (p, s);
                    if j > 0 {
                        assert(rest[j - 1] == (p, s));
                        assert(rest.contains((p, s)));
                    }
                }
                if from <= p < len && bit_of(prev, p as nat) != bit_of(new, p as nat) && s == bit_of(new, p as nat) {
                    if p == from {
                        assert(all[0] == (p, s));
                    } else {
                        assert(rest.contains((p, s)));
                        let j = choose|j: int| 0 <= j < rest.len() && rest[j] == (p, s);
                        assert(all[j + 1] == (p, s));
                    }
                }
            } else {
                if p == from && all.contains((p, s)) {
                    assert(rest.contains((p, s)));
                }
            }
        }
        assert forall|a: int, b: int| 0 <= a < b < all.len() implies all[a].0 < all[b].0 by {
            if bit_of(prev, from) != bit_of(new, from) {
                if a == 0 {
                    assert(all[b] == rest[b - 1]);
                } else {
                    assert(all[a] == rest[a - 1]);
                    assert(all[b] == rest[b - 1]);
                }
            }
        }
    }
}

/// The output bits that differ between `prev` and `new`, from position `from`
/// up to `len`, in increasing order, each with its new state.
pub open spec fn changes_from(prev: u64, new: u64, from: nat, len: nat) -> Seq<(usize, bool)>
    decreases len - from,
{
    if from >= len {
        Seq::empty()
    } else if bit_of(prev, from) != bit_of(new, from) {
        seq![(from as usize, bit_of(new, from))] + changes_from(prev, new, from + 1, len)
    } else {
        changes_from(prev, new, from + 1, len)
    }
}

/// Every change lies in `from..len`.
pub proof fn lemma_changes_in_range(prev: u64, new: u64, from: nat, len: nat)
    requires
        len <= 64,
    ensures
        forall|k: int|
            0 <= k < changes_from(prev, new, from, len).len() ==> from <= (#[trigger] changes_from(
                prev,
                new,
                from,
                len,
            )[k]).0 < len,
    decreases len - from,
{
    if from < len {
        lemma_changes_in_range(prev, new, from + 1, len);
        let rest = changes_from(prev, new, from + 1, len);
        if bit_of(prev, from) != bit_of(new, from) {
            let s = seq![(from as usize, bit_of(new, from))] + rest;
            assert forall|k: int| 0 <= k < s.len() implies from <= (#[trigger] s[k]).0 < len by {
                if k > 0 {
                    assert(s[k] == rest[k - 1]);
                }
            }
        }
    }
}

/// Walks over the outputs that changed between two states of a gate.
pub struct ChangedOutputs {
    prev_output: u64,
    new_output: u64,
    len: usize,
    index: usize,
}

impl ChangedOutputs {
    /// The changes not yet handed out, in order.
    pub closed spec fn remaining(&self) -> Seq<(usize, bool)> {
        changes_from(self.prev_output, self.new_output, self.index as nat, self.len as nat)
    }

    /// Well-formedness: positions stay below 64.
    pub closed spec fn wf(&self) -> bool {
        self.len <= 64
    }

    /// Every position still to come is below `self.bound()`.
    pub closed spec fn bound(&self) -> nat {
        self.len as nat
    }

    /// The positions still to come lie below the bound.
    pub proof fn lemma_remaining_bound(&self)
        requires
            self.wf(),
        ensures
            forall|k: int|
                0 <= k < self.remaining().len() ==> (#[trigger] self.remaining()[k]).0
                    < self.bound(),
    {
        lemma_changes_in_range(self.prev_output, self.new_output, self.index as nat, self.len as nat);
    }

    /// The changes from `prev` to `new`.
    pub fn new(prev: BitField, new: BitField) -> (r: ChangedOutputs)
        requires
            prev.spec_len() == new.spec_len(),
            prev.spec_len() <= 64,
        ensures
            r.wf(),
            r.bound() == prev.spec_len(),
            r.remaining() == changes_from(prev.data, new.data, 0, prev.spec_len()),
    {
        ChangedOutputs { prev_output: prev.data, new_output: new.data, len: prev.len, index: 0 }
    }

    /// No changes at all.
    pub fn none() -> (r: ChangedOutputs)
        ensures
            r.wf(),
            r.bound() == 0,
            r.remaining() == Seq::<(usize, bool)>::empty(),
    {
        ChangedOutputs { prev_output: 0, new_output: 0, len: 0, index: 0 }
    }

    /// The next changed output and its new state, if any is left.
    pub fn next(&mut self) -> (r: Option<(usize, bool)>)
        requires
            old(self).wf(),
        ensures
            final(self).wf(),
            final(self).bound() == old(self).bound(),
            old(self).remaining().len() == 0 ==> r is None && final(self).remaining().len() == 0,
            old(self).remaining().len() > 0 ==> r == Some(old(self).remaining()[0])
                && final(self).remaining() == old(self).remaining().drop_first(),
            next_step(old(self).remaining(), r, final(self).remaining()),
    {
        while self.index < self.len
            invariant
                self.wf(),
                self.remaining() == old(self).remaining(),
                self.prev_output == old(self).prev_output,
                self.new_output == old(self).new_output,
                self.len == old(self).len,
            decreases self.len - self.index,
        {
            let idx = self.index;
            let prev_bit = (self.prev_output >> idx as u64) & 1;
            let new_bit = (self.new_output >> idx as u64) & 1;
            self.index = self.index + 1;
            proof {
                let p = self.prev_output;
                let n = self.new_output;
                let i = idx as u64;
                assert((prev_bit != new_bit) == (((p >> i) & 1u64 == 1u64) != ((n >> i) & 1u64
                    == 1u64))) by (bit_vector)
                    requires
                        prev_bit == (p >> i) & 1u64,
                        new_bit == (n >> i) & 1u64,
                ;
            }
            if prev_bit != new_bit {
                return Some((idx, new_bit == 1));
            }
        }
        None
    }
}

/// What one call of `ChangedOutputs::next` does to the changes left
/// (`before`, then `after`) and what it returns (`r`).
pub open spec fn next_step(before: Seq<(usize, bool)>, r: Option<(usize, bool)>, after: Seq<(usize, bool)>) -> bool {
    if before.len() == 0 {
        r is None && after.len() == 0
    } else {
        r == Some(before[0]) && after =~= before.drop_first()
    }
}

/// Draining the changes between two states: when `rems[0]` holds the
/// changes from `prev` to `new` over `len` positions and each of the calls
/// of `next` that follow takes `rems[k]` to `rems[k + 1]` returning `rs[k]`,
/// the calls return, in order, each position whose bit differs (in
/// increasing order, each once, with its new state), and `None` from then
/// on.
pub proof fn lemma_drain(
    prev: u64,
    new: u64,
    len: nat,
    rems: Seq<Seq<(usize, bool)>>,
    rs: Seq<Option<(usize, bool)>>,
)
    requires
        len <= 64,
        rems.len() == rs.len() + 1,
        rems[0] == changes_from(prev, new, 0, len),
        forall|k: int| 0 <= k < rs.len() ==> next_step(#[trigger] rems[k], rs[k], rems[k + 1]),
    ensures
        forall|k: int|
            0 <= k < rs.len() ==> #[trigger] rs[k] == if k < changes_from(prev, new, 0, len).len() {
                Some(changes_from(prev, new, 0, len)[k])
            } else {
                None
            },
        forall|p: usize, s: bool|
            #[trigger] changes_from(prev, new, 0, len).contains((p, s)) <==> p < len && bit_of(prev, p as nat)
                != bit_of(new, p as nat) && s == bit_of(new, p as nat),
        forall|a: int, b: int|
            0 <= a < b < changes_from(prev, new, 0, len).len() ==> changes_from(prev, new, 0, len)[a].0
                < changes_from(prev, new, 0, len)[b].0,
{
    lemma_changes_exact(prev, new, 0, len);
    lemma_drain_list(changes_from(prev, new, 0, len), rems, rs);
}

/// Successive calls of `next` starting from the changes `c` return them in
/// order, then `None`.
proof fn lemma_drain_list(c: Seq<(usize, bool)>, rems: Seq<Seq<(usize, bool)>>, rs: Seq<Option<(usize, bool)>>)
    requires
        rems.len() == rs.len() + 1,
        rems[0] == c,
        forall|k: int| 0 <= k < rs.len() ==> next_step(#[trigger] rems[k], rs[k], rems[k + 1]),
    ensures
        forall|k: int| 0 <= k < rs.len() ==> #[trigger] rs[k] == if k < c.len() {
            Some(c[k])
        } else {
            None
        },
    decreases rs.len(),
{
    if rs.len() > 0 {
        assert(next_step(rems[0], rs[0], rems[1]));
        let c2 = rems[1];
        let rems2 = rems.drop_first();
        let rs2 = rs.drop_first();
        assert forall|k: int| 0 <= k < rs2.len() implies next_step(#[trigger] rems2[k], rs2[k], rems2[k + 1]) by {
            assert(next_step(rems[k + 1], rs[k + 1], rems[k + 2]));
        }
        lemma_drain_list(c2, rems2, rs2);
        assert forall|k: int| 0 <= k < rs.len() implies #[trigger] rs[k] == if k < c.len() {
            Some(c[k])
        } else {
            None
        } by {
            if k > 0 {
                assert(rs[k] == rs2[k - 1]);
                if c.len() > 0 {
                    assert(c2 == c.drop_first());
                }
            }
        }
    }
}

/// One output of a gate that took a new state.
pub struct ChangedOutput {
    pub output: usize,
    pub state: bool,
}

} // verus!
