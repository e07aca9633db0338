//! Combinational gates: a truth table with the current input and output.

use crate::bits::{changes_from, rows, with_bit, lemma_with_bit_bound, BitField, ChangedOutputs, TruthTable};
use vstd::prelude::*;

verus! {

/// The state of a gate, as values.
pub struct GateView {
    pub input: u64,
    pub input_len: nat,
    pub output: u64,
    pub output_len: nat,
    pub num_inputs: nat,
    pub num_outputs: nat,
    pub map: Seq<u64>,
}

impl GateView {
    /// Input and output agree with the table's shape, and the input pattern
    /// names a row of the table.
    pub open spec fn wf(self) -> bool {
        &&& self.num_inputs < 64
        &&& self.num_outputs <= 64
        &&& self.map.len() == rows(self.num_inputs)
        &&& self.input_len == self.num_inputs
        &&& self.output_len == self.num_outputs
        &&& self.input < (1u64 << (self.num_inputs as u64))
    }

    /// This gate after input `i` takes `state`: the output is the table's row
    /// for the new input pattern.
    pub open spec fn set_input(self, i: nat, state: bool) -> GateView {
        let input = with_bit(self.input, i, state);
        GateView { input, output: self.map[input as int], ..self }
    }

    /// The outputs that `set_input(i, state)` changes, with their new states.
    pub open spec fn set_input_changes(self, i: nat, state: bool) -> Seq<(usize, bool)> {
        changes_from(self.output, self.set_input(i, state).output, 0, self.num_outputs)
    }
}

/// A combinational gate: the current input pattern, the current output, and
/// the table that maps one to the other.
#[derive(Debug)]
pub struct CombGate {
    pub input: BitField,
    pub output: BitField,
    pub table: TruthTable,
}

impl View for CombGate {
    type V = GateView;

    open spec fn view(&self) -> GateView {
        GateView {
            input: self.input.data,
            input_len: self.input.spec_len(),
            output: self.output.data,
            output_len: self.output.spec_len(),
            num_inputs: self.table.num_inputs as nat,
            num_outputs: self.table.num_outputs as nat,
            map: self.table.map@,
        }
    }
}

impl Clone for CombGate {
    fn clone(&self) -> (r: Self)
        ensures
            r@ == self@,
    {
        CombGate { input: self.input, output: self.output, table: self.table.clone() }
    }
}

impl CombGate {
    /// A gate with every input off, showing the table's first row.
    pub fn new(table: TruthTable) -> (r: CombGate)
        requires
            table.num_inputs <= 64,
            table.map@.len() >= 1,
        ensures
            table.wf() ==> r@.wf(),
            r@.input == 0,
            r@.output == table.map@[0],
            r@.num_inputs == table.num_inputs,
            r@.num_outputs == table.num_outputs,
            r@.input_len == table.num_inputs,
            r@.output_len == table.num_outputs,
            r@.map == table.map@,
    {
        proof {
            if table.wf() {
                let n = table.num_inputs as u64;
                assert(0u64 < (1u64 << n)) by (bit_vector)
                    requires
                        n < 64,
                ;
            }
        }
        let input = BitField::from_parts(0, table.num_inputs);
        let output = table.get(0);
        CombGate { input, output, table }
    }

    /// Sets input `input` to `state`, recomputes the output and reports the
    /// outputs that changed.
    pub fn set_input(&mut self, input: usize, state: bool) -> (r: ChangedOutputs)
        requires
            old(self)@.wf(),
            input < old(self)@.num_inputs,
        ensures
            final(self)@ == old(self)@.set_input(input as nat, state),
            final(self)@.wf(),
            r.wf(),
            r.bound() == old(self)@.num_outputs,
            r.remaining() == old(self)@.set_input_changes(input as nat, state),
    {
        proof {
            lemma_with_bit_bound(self.input.data, input as nat, state, self.table.num_inputs as nat);
        }
        self.input.set(input, state);
        assert(self.input.data < self.table.map@.len());
        let rows_len = self.table.map.len();
        let row = self.input.data as usize;
        assert(row as u64 == self.input.data);
        let result = self.table.get(row);
        let prev_output = self.output;
        self.output = result;
        ChangedOutputs::new(prev_output, result)
    }
}

} // verus!
