//! A board packed into a chip: its gates flattened into one list, with links
//! by index.

use crate::bits::TruthTable;
use crate::{DeviceInput, LinkTarget};
use vstd::prelude::*;

verus! {

/// A gate inside a packed chip: its table and the links of each output.
#[derive(Debug)]
pub struct CombGate {
    pub table: TruthTable,
    pub links: Vec<Vec<LinkTarget<usize>>>,
}

/// A packed chip: pin names, where each chip input leads, and the gates.
#[derive(Debug)]
pub struct ChipPreset {
    pub inputs: Vec<String>,
    pub outputs: Vec<String>,
    pub input_links: Vec<Vec<DeviceInput<usize>>>,
    pub comb_gates: Vec<CombGate>,
}

impl ChipPreset {
    /// Pins fit in a bit field, every table is well formed with one link
    /// list per output, and every index names a gate input or a chip output.
    pub open spec fn wf(&self) -> bool {
        &&& self.inputs@.len() <= 64
        &&& self.outputs@.len() <= 64
        &&& self.input_links@.len() == self.inputs@.len()
        &&& forall|g: int|
            0 <= g < self.comb_gates@.len() ==> (#[trigger] self.comb_gates@[g]).table.wf()
                && self.comb_gates@[g].links@.len() == self.comb_gates@[g].table.num_outputs
        &&& forall|i: int, k: int|
            0 <= i < self.input_links@.len() && 0 <= k < self.input_links@[i]@.len()
                ==> self.valid_device_input(#[trigger] self.input_links@[i]@[k])
        &&& forall|g: int, o: int, k: int|
            0 <= g < self.comb_gates@.len() && 0 <= o < self.comb_gates@[g].links@.len() && 0
                <= k < self.comb_gates@[g].links@[o]@.len() ==> self.valid_target(
                #[trigger] self.comb_gates@[g].links@[o]@[k],
            )
    }

    /// A chip can be built from the preset without fault: its pins fit in
    /// bit fields, and every gate's table has a first row and fits its pins
    /// in bit fields, with a link list for each output that row turns on.
    pub open spec fn buildable(&self) -> bool {
        &&& self.inputs@.len() <= 64
        &&& self.outputs@.len() <= 64
        &&& forall|g: int|
            0 <= g < self.comb_gates@.len() ==> {
                let t = (#[trigger] self.comb_gates@[g]).table;
                &&& t.num_inputs <= 64
                &&& t.num_outputs <= 64
                &&& t.map@.len() >= 1
                &&& forall|i: nat|
                    i < t.num_outputs && crate::bits::bit_of(t.map@[0], i) ==> i
                        < self.comb_gates@[g].links@.len()
            }
    }

    /// `di` names an input of one of the gates.
    pub open spec fn valid_device_input(&self, di: DeviceInput<usize>) -> bool {
        di.0 < self.comb_gates@.len() && di.1 < self.comb_gates@[di.0 as int].table.num_inputs
    }

    /// `t` names an input of one of the gates or an output of the chip.
    pub open spec fn valid_target(&self, t: LinkTarget<usize>) -> bool {
        match t {
            LinkTarget::DeviceInput(d, i) => d < self.comb_gates@.len() && i
                < self.comb_gates@[d as int].table.num_inputs,
            LinkTarget::Output(o) => o < self.outputs@.len(),
        }
    }
}

} // verus!
