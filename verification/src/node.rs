//! The node model: a uniquely identified segment of WebAssembly code (a
//! function body, or a lifted block, loop, if-clause or else-clause)
//! together with its extracted flow and data metadata.

use vstd::prelude::*;
use crate::keyed_map::KeyedMap;
use crate::types::{AbstractExpression, ValType};

verus! {

broadcast use vstd::std_specs::vec::group_vec_axioms;

/// A segment of WebAssembly code and its flow and data metadata.
///
/// All keyed fields are maps kept in key order: `branches`, `calls` and
/// `blocks` are keyed by byte position in the module buffer; the variable
/// tables are keyed by variable id; the couplings are keyed by memory
/// offset, global slot or outer variable id; `operations` is keyed by the
/// walk-step ordinal. `children` associates callee ids with callee nodes
/// held by value.
pub struct Node {
    pub id: usize,
    pub instrs: Vec<u8>,
    pub branches: KeyedMap<usize>,
    pub calls: KeyedMap<usize>,
    pub start: usize,
    pub end: usize,
    pub children: Vec<(usize, Node)>,
    pub constants: KeyedMap<ValType>,
    pub internal_variables: KeyedMap<ValType>,
    pub input_variables: KeyedMap<ValType>,
    pub output_variables: KeyedMap<ValType>,
    pub global_input_data_couplings: KeyedMap<usize>,
    pub global_output_data_couplings: KeyedMap<usize>,
    pub flow_control_couplings: KeyedMap<usize>,
    pub input_data_couplings: KeyedMap<usize>,
    pub output_data_couplings: KeyedMap<usize>,
    pub blocks: KeyedMap<usize>,
    pub operations: KeyedMap<AbstractExpression>,
}

impl Node {
    /// All keyed fields of this node alone are well formed.
    pub open spec fn maps_wf(self) -> bool {
        &&& self.branches.wf()
        &&& self.calls.wf()
        &&& self.constants.wf()
        &&& self.internal_variables.wf()
        &&& self.input_variables.wf()
        &&& self.output_variables.wf()
        &&& self.global_input_data_couplings.wf()
        &&& self.global_output_data_couplings.wf()
        &&& self.flow_control_couplings.wf()
        &&& self.input_data_couplings.wf()
        &&& self.output_data_couplings.wf()
        &&& self.blocks.wf()
        &&& self.operations.wf()
    }

    /// The node and every node below it is well formed.
    pub open spec fn wf(self) -> bool
        decreases self,
    {
        &&& self.maps_wf()
        &&& forall|i: int|
            0 <= i < self.children.len() ==> (#[trigger] self.children[i]).1.wf()
    }

    /// The keys of the children, in storage order.
    pub open spec fn child_keys(self) -> Seq<usize> {
        self.children@.map_values(|p: (usize, Node)| p.0)
    }

    pub open spec fn has_child_key(self, k: usize) -> bool {
        exists|i: int| 0 <= i < self.children.len() && (#[trigger] self.children[i]).0 == k
    }

    /// The index of the child with key `k`, if one exists.
    pub closed spec fn child_index(self, k: usize) -> int {
        choose|i: int| 0 <= i < self.children.len() && (#[trigger] self.children[i]).0 == k
    }

    pub open spec fn child_at(self, k: usize) -> Node {
        self.children[self.child_index(k)].1
    }

    /// No two children share a key, at any depth.
    pub open spec fn deep_unique(self) -> bool
        decreases self,
    {
        &&& self.children_unique()
        &&& forall|i: int|
            0 <= i < self.children.len() ==> (#[trigger] self.children[i]).1.deep_unique()
    }

    /// No two children share a key.
    pub open spec fn children_unique(self) -> bool {
        forall|i: int, j: int|
            0 <= i < j < self.children.len() ==> (#[trigger] self.children[i]).0 != (
            #[trigger] self.children[j]).0
    }

    pub proof fn lemma_child_index(self, k: usize)
        requires
            self.has_child_key(k),
        ensures
            0 <= self.child_index(k) < self.children.len(),
            self.children[self.child_index(k)].0 == k,
    {
    }

    /// The number of registered variables of all kinds.
    pub open spec fn total_vars(self) -> int {
        self.input_variables.entries_seq().len() as int
            + self.internal_variables.entries_seq().len() as int
            + self.constants.entries_seq().len() as int
            + self.output_variables.entries_seq().len() as int
    }

    /// A fresh node: everything empty, all offsets zero.
    pub fn default() -> (r: Node)
        ensures
            r.wf(),
            r.maps_wf(),
            r.children_unique(),
            r.id == 0,
            r.start == 0,
            r.end == 0,
            r.instrs@ == Seq::<u8>::empty(),
            r.children@ == Seq::<(usize, Node)>::empty(),
            r.branches@ == Map::<usize, usize>::empty(),
            r.calls@ == Map::<usize, usize>::empty(),
            r.constants@ == Map::<usize, ValType>::empty(),
            r.internal_variables@ == Map::<usize, ValType>::empty(),
            r.input_variables@ == Map::<usize, ValType>::empty(),
            r.output_variables@ == Map::<usize, ValType>::empty(),
            r.global_input_data_couplings@ == Map::<usize, usize>::empty(),
            r.global_output_data_couplings@ == Map::<usize, usize>::empty(),
            r.flow_control_couplings@ == Map::<usize, usize>::empty(),
            r.input_data_couplings@ == Map::<usize, usize>::empty(),
            r.output_data_couplings@ == Map::<usize, usize>::empty(),
            r.blocks@ == Map::<usize, usize>::empty(),
            r.operations@ == Map::<usize, AbstractExpression>::empty(),
            r.input_variables.entries_seq().len() == 0,
            r.internal_variables.entries_seq().len() == 0,
            r.constants.entries_seq().len() == 0,
            r.output_variables.entries_seq().len() == 0,
            r.flow_control_couplings.entries_seq().len() == 0,
            r.calls.entries_seq().len() == 0,
            r.branches.entries_seq().len() == 0,
            r.blocks.entries_seq().len() == 0,
            r.operations.entries_seq().len() == 0,
            r.input_data_couplings.entries_seq().len() == 0,
            r.output_data_couplings.entries_seq().len() == 0,
            r.global_input_data_couplings.entries_seq().len() == 0,
            r.global_output_data_couplings.entries_seq().len() == 0,
    {
        Node {
            id: 0,
            instrs: Vec::new(),
            branches: KeyedMap::new(),
            calls: KeyedMap::new(),
            start: 0,
            end: 0,
            children: Vec::new(),
            constants: KeyedMap::new(),
            internal_variables: KeyedMap::new(),
            input_variables: KeyedMap::new(),
            output_variables: KeyedMap::new(),
            global_input_data_couplings: KeyedMap::new(),
            global_output_data_couplings: KeyedMap::new(),
            flow_control_couplings: KeyedMap::new(),
            input_data_couplings: KeyedMap::new(),
            output_data_couplings: KeyedMap::new(),
            blocks: KeyedMap::new(),
            operations: KeyedMap::new(),
        }
    }

    /// Sets the node id.
    pub fn set_id(&mut self, id: usize)
        ensures
            final(self).id == id,
            *final(self) == (Node { id, ..*old(self) }),
    {
        self.id = id;
    }

    /// Registers where the node's code starts in the module buffer.
    pub fn set_start(&mut self, start: usize)
        ensures
            final(self).start == start,
            *final(self) == (Node { start, ..*old(self) }),
    {
        self.start = start;
    }

    /// Registers where the node's code ends in the module buffer.
    pub fn set_end(&mut self, end: usize)
        ensures
            final(self).end == end,
            *final(self) == (Node { end, ..*old(self) }),
    {
        self.end = end;
    }

    pub fn get_start(&self) -> (r: usize)
        ensures
            r == self.start,
    {
        self.start
    }

    pub fn get_end(&self) -> (r: usize)
        ensures
            r == self.end,
    {
        self.end
    }

    /// Registers a branch at a byte position with its relative depth target.
    pub fn add_branch(&mut self, branch_index: usize, relative_depth: usize)
        requires
            old(self).branches.wf(),
        ensures
            final(self).branches.wf(),
            old(self).branches@.contains_key(branch_index) ==> final(self).branches.entries_seq().len() == old(
                self,
            ).branches.entries_seq().len(),
            !old(self).branches@.contains_key(branch_index) ==> final(self).branches.entries_seq().len() == old(
                self,
            ).branches.entries_seq().len() + 1,
            final(self).branches@ == old(self).branches@.insert(branch_index, relative_depth),
            *final(self) == (Node { branches: final(self).branches, ..*old(self) }),
    {
        self.branches.insert(branch_index, relative_depth);
    }

    /// Whether a branch is registered at the given position.
    pub fn has_branch(&self, branch_index: usize) -> (r: bool)
        requires
            self.branches.wf(),
        ensures
            r == self.branches@.contains_key(branch_index),
    {
        self.branches.contains_key(branch_index)
    }

    /// Registers a call at a byte position to the given callee id.
    pub fn add_call(&mut self, call_index: usize, function_index: usize)
        requires
            old(self).calls.wf(),
        ensures
            final(self).calls.wf(),
            old(self).calls@.contains_key(call_index) ==> final(self).calls.entries_seq().len() == old(
                self,
            ).calls.entries_seq().len(),
            !old(self).calls@.contains_key(call_index) ==> final(self).calls.entries_seq().len() == old(
                self,
            ).calls.entries_seq().len() + 1,
            final(self).calls@ == old(self).calls@.insert(call_index, function_index),
            *final(self) == (Node { calls: final(self).calls, ..*old(self) }),
    {
        self.calls.insert(call_index, function_index);
    }

    /// Whether a call is registered at the given position.
    pub fn has_call(&self, call_index: usize) -> (r: bool)
        requires
            self.calls.wf(),
        ensures
            r == self.calls@.contains_key(call_index),
    {
        self.calls.contains_key(call_index)
    }

    /// The registered calls, keyed by byte position.
    pub fn get_calls(&self) -> (r: &KeyedMap<usize>)
        ensures
            r == &self.calls,
    {
        &self.calls
    }

    /// Registers the position of an inline block with its registry index.
    pub fn add_block(&mut self, start_index: usize, block_index: usize)
        requires
            old(self).blocks.wf(),
        ensures
            final(self).blocks.wf(),
            old(self).blocks@.contains_key(start_index) ==> final(self).blocks.entries_seq().len() == old(
                self,
            ).blocks.entries_seq().len(),
            !old(self).blocks@.contains_key(start_index) ==> final(self).blocks.entries_seq().len() == old(
                self,
            ).blocks.entries_seq().len() + 1,
            final(self).blocks@ == old(self).blocks@.insert(start_index, block_index),
            *final(self) == (Node { blocks: final(self).blocks, ..*old(self) }),
    {
        self.blocks.insert(start_index, block_index);
    }

    /// The registered blocks, keyed by byte position.
    pub fn get_blocks(&self) -> (r: &KeyedMap<usize>)
        ensures
            r == &self.blocks,
    {
        &self.blocks
    }

    /// Registers an internal variable under the given id.
    pub fn add_internal_variable(&mut self, i: usize, ty: ValType) -> (r: usize)
        requires
            old(self).internal_variables.wf(),
        ensures
            r == i,
            final(self).internal_variables.wf(),
            final(self).internal_variables@ == old(self).internal_variables@.insert(i, ty),
            old(self).internal_variables@.contains_key(i)
                ==> final(self).internal_variables.entries_seq().len() == old(
                self,
            ).internal_variables.entries_seq().len(),
            !old(self).internal_variables@.contains_key(i)
                ==> final(self).internal_variables.entries_seq().len() == old(
                self,
            ).internal_variables.entries_seq().len() + 1,
            *final(self) == (Node { internal_variables: final(self).internal_variables, ..*old(self) }),
    {
        self.internal_variables.insert(i, ty);
        i
    }

    /// Registers an input variable under a fresh id and returns the id.
    pub fn add_input_variable(&mut self, ty: ValType) -> (r: usize)
        requires
            old(self).input_variables.wf(),
            old(self).id + old(self).total_vars() <= usize::MAX,
        ensures
            r == old(self).id + old(self).total_vars(),
            final(self).input_variables.wf(),
            final(self).input_variables@ == old(self).input_variables@.insert(r, ty),
            final(self).input_variables@.contains_key(r),
            old(self).input_variables@.contains_key(r)
                ==> final(self).input_variables.entries_seq().len() == old(
                self,
            ).input_variables.entries_seq().len(),
            !old(self).input_variables@.contains_key(r)
                ==> final(self).input_variables.entries_seq().len() == old(
                self,
            ).input_variables.entries_seq().len() + 1,
            *final(self) == (Node { input_variables: final(self).input_variables, ..*old(self) }),
    {
        let var_id = self.fresh_var_id();
        self.input_variables.insert(var_id, ty);
        var_id
    }

    /// Registers an output variable under a fresh id and returns the id.
    pub fn add_output_variable(&mut self, ty: ValType) -> (r: usize)
        requires
            old(self).output_variables.wf(),
            old(self).id + old(self).total_vars() <= usize::MAX,
        ensures
            r == old(self).id + old(self).total_vars(),
            final(self).output_variables.wf(),
            final(self).output_variables@ == old(self).output_variables@.insert(r, ty),
            old(self).output_variables@.contains_key(r)
                ==> final(self).output_variables.entries_seq().len() == old(
                self,
            ).output_variables.entries_seq().len(),
            !old(self).output_variables@.contains_key(r)
                ==> final(self).output_variables.entries_seq().len() == old(
                self,
            ).output_variables.entries_seq().len() + 1,
            *final(self) == (Node { output_variables: final(self).output_variables, ..*old(self) }),
    {
        let var_id = self.fresh_var_id();
        self.output_variables.insert(var_id, ty);
        var_id
    }

    /// Registers a locally scoped constant under a fresh id and returns the
    /// id.
    pub fn add_constant(&mut self, ty: ValType) -> (r: usize)
        requires
            old(self).constants.wf(),
            old(self).id + old(self).total_vars() <= usize::MAX,
        ensures
            r == old(self).id + old(self).total_vars(),
            final(self).constants.wf(),
            final(self).constants@ == old(self).constants@.insert(r, ty),
            old(self).constants@.contains_key(r) ==> final(self).constants.entries_seq().len()
                == old(self).constants.entries_seq().len(),
            !old(self).constants@.contains_key(r) ==> final(self).constants.entries_seq().len()
                == old(self).constants.entries_seq().len() + 1,
            *final(self) == (Node { constants: final(self).constants, ..*old(self) }),
    {
        let var_id = self.fresh_var_id();
        self.constants.insert(var_id, ty);
        var_id
    }

    /// The next unused variable id: the node id plus the number of
    /// variables of all kinds registered so far.
    pub(crate) fn fresh_var_id(&self) -> (r: usize)
        requires
            self.id + self.total_vars() <= usize::MAX,
        ensures
            r == self.id + self.total_vars(),
    {
        self.id + (self.input_variables.len() + self.internal_variables.len()
            + self.constants.len() + self.output_variables.len())
    }

    /// Registers a simulatable operation under the walk-step ordinal.
    pub fn add_operation(&mut self, i: usize, op: AbstractExpression)
        requires
            old(self).operations.wf(),
        ensures
            final(self).operations.wf(),
            old(self).operations@.contains_key(i) ==> final(self).operations.entries_seq().len() == old(
                self,
            ).operations.entries_seq().len(),
            !old(self).operations@.contains_key(i) ==> final(self).operations.entries_seq().len() == old(
                self,
            ).operations.entries_seq().len() + 1,
            final(self).operations@ == old(self).operations@.insert(i, op),
            *final(self) == (Node { operations: final(self).operations, ..*old(self) }),
    {
        self.operations.insert(i, op);
    }

    /// Registers a flow-control coupling from an outer-scope variable id to
    /// an inner-scope variable id.
    pub fn add_flow_control_coupling(&mut self, i: usize, var_id: usize)
        requires
            old(self).flow_control_couplings.wf(),
        ensures
            final(self).flow_control_couplings.wf(),
            old(self).flow_control_couplings@.contains_key(i) ==> final(self).flow_control_couplings.entries_seq().len() == old(
                self,
            ).flow_control_couplings.entries_seq().len(),
            !old(self).flow_control_couplings@.contains_key(i) ==> final(self).flow_control_couplings.entries_seq().len() == old(
                self,
            ).flow_control_couplings.entries_seq().len() + 1,
            final(self).flow_control_couplings@ == old(self).flow_control_couplings@.insert(
                i,
                var_id,
            ),
            *final(self) == (Node {
                flow_control_couplings: final(self).flow_control_couplings,
                ..*old(self)
            }),
    {
        self.flow_control_couplings.insert(i, var_id);
    }

    /// Registers a memory input data dependency.
    pub fn add_input_data_coupling(&mut self, memarg: usize, var_id: usize)
        requires
            old(self).input_data_couplings.wf(),
        ensures
            final(self).input_data_couplings.wf(),
            old(self).input_data_couplings@.contains_key(memarg) ==> final(self).input_data_couplings.entries_seq().len() == old(
                self,
            ).input_data_couplings.entries_seq().len(),
            !old(self).input_data_couplings@.contains_key(memarg) ==> final(self).input_data_couplings.entries_seq().len() == old(
                self,
            ).input_data_couplings.entries_seq().len() + 1,
            final(self).input_data_couplings@ == old(self).input_data_couplings@.insert(
                memarg,
                var_id,
            ),
            *final(self) == (Node {
                input_data_couplings: final(self).input_data_couplings,
                ..*old(self)
            }),
    {
        self.input_data_couplings.insert(memarg, var_id);
    }

    /// Registers a memory output data dependency.
    pub fn add_output_data_coupling(&mut self, memarg: usize, var_id: usize)
        requires
            old(self).output_data_couplings.wf(),
        ensures
            final(self).output_data_couplings.wf(),
            old(self).output_data_couplings@.contains_key(memarg) ==> final(self).output_data_couplings.entries_seq().len() == old(
                self,
            ).output_data_couplings.entries_seq().len(),
            !old(self).output_data_couplings@.contains_key(memarg) ==> final(self).output_data_couplings.entries_seq().len() == old(
                self,
            ).output_data_couplings.entries_seq().len() + 1,
            final(self).output_data_couplings@ == old(self).output_data_couplings@.insert(
                memarg,
                var_id,
            ),
            *final(self) == (Node {
                output_data_couplings: final(self).output_data_couplings,
                ..*old(self)
            }),
    {
        self.output_data_couplings.insert(memarg, var_id);
    }

    /// Registers a global input data dependency.
    pub fn add_global_input_data_coupling(&mut self, memarg: usize, var_id: usize)
        requires
            old(self).global_input_data_couplings.wf(),
        ensures
            final(self).global_input_data_couplings.wf(),
            old(self).global_input_data_couplings@.contains_key(memarg) ==> final(self).global_input_data_couplings.entries_seq().len() == old(
                self,
            ).global_input_data_couplings.entries_seq().len(),
            !old(self).global_input_data_couplings@.contains_key(memarg) ==> final(self).global_input_data_couplings.entries_seq().len() == old(
                self,
            ).global_input_data_couplings.entries_seq().len() + 1,
            final(self).global_input_data_couplings@ == old(
                self,
            ).global_input_data_couplings@.insert(memarg, var_id),
            *final(self) == (Node {
                global_input_data_couplings: final(self).global_input_data_couplings,
                ..*old(self)
            }),
    {
        self.global_input_data_couplings.insert(memarg, var_id);
    }

    /// Registers a global output data dependency.
    pub fn add_global_output_data_coupling(&mut self, memarg: usize, var_id: usize)
        requires
            old(self).global_output_data_couplings.wf(),
        ensures
            final(self).global_output_data_couplings.wf(),
            old(self).global_output_data_couplings@.contains_key(memarg) ==> final(self).global_output_data_couplings.entries_seq().len() == old(
                self,
            ).global_output_data_couplings.entries_seq().len(),
            !old(self).global_output_data_couplings@.contains_key(memarg) ==> final(self).global_output_data_couplings.entries_seq().len() == old(
                self,
            ).global_output_data_couplings.entries_seq().len() + 1,
            final(self).global_output_data_couplings@ == old(
                self,
            ).global_output_data_couplings@.insert(memarg, var_id),
            *final(self) == (Node {
                global_output_data_couplings: final(self).global_output_data_couplings,
                ..*old(self)
            }),
    {
        self.global_output_data_couplings.insert(memarg, var_id);
    }

    /// The registered constants, keyed by variable id.
    pub fn get_constants(&self) -> (r: &KeyedMap<ValType>)
        ensures
            r == &self.constants,
    {
        &self.constants
    }

    /// The registered internal variables, keyed by variable id.
    pub fn get_internal_variables(&self) -> (r: &KeyedMap<ValType>)
        ensures
            r == &self.internal_variables,
    {
        &self.internal_variables
    }

    /// The registered input variables, keyed by variable id.
    pub fn get_input_variables(&self) -> (r: &KeyedMap<ValType>)
        ensures
            r == &self.input_variables,
    {
        &self.input_variables
    }

    /// The registered flow-control couplings.
    pub fn get_flow_control_couplings(&self) -> (r: &KeyedMap<usize>)
        ensures
            r == &self.flow_control_couplings,
    {
        &self.flow_control_couplings
    }

    /// The type of the input variable with the least id, or `Ref` when no
    /// input variable is registered.
    pub fn get_first_input_variable(&self) -> (r: ValType)
        requires
            self.input_variables.wf(),
        ensures
            self.input_variables.entries_seq().len() > 0 ==> r == self.input_variables@[
                self.input_variables.spec_keys()[0]
            ],
            self.input_variables.entries_seq().len() == 0 ==> r == ValType::Ref,
    {
        match self.input_variables.min_key() {
            Some(k) => {
                proof {
                    self.input_variables.lemma_dom(k);
                }
                match self.input_variables.get(k) {
                    Some(t) => t,
                    None => {
                        proof {
                            assert(false);
                        }
                        ValType::Ref
                    },
                }
            },
            None => ValType::Ref,
        }
    }

    /// The inner variable id of the flow-control coupling with the least
    /// outer id, or 0 when no coupling is registered.
    pub fn get_first_flow_control_coupling(&self) -> (r: usize)
        requires
            self.flow_control_couplings.wf(),
        ensures
            self.flow_control_couplings.entries_seq().len() > 0 ==> r
                == self.flow_control_couplings@[self.flow_control_couplings.spec_keys()[0]],
            self.flow_control_couplings.entries_seq().len() == 0 ==> r == 0,
    {
        match self.flow_control_couplings.min_key() {
            Some(k) => {
                proof {
                    self.flow_control_couplings.lemma_dom(k);
                }
                match self.flow_control_couplings.get(k) {
                    Some(v) => v,
                    None => {
                        proof {
                            assert(false);
                        }
                        0
                    },
                }
            },
            None => 0,
        }
    }

    /// Whether the input variable with the given id is a parameter: true
    /// when it is coupled to no global slot and no memory offset.
    pub fn input_variable_is_param(&self, var_id: usize) -> (r: bool)
        requires
            self.global_input_data_couplings.wf(),
            self.input_data_couplings.wf(),
        ensures
            r == !(crate::node::map_has_value(self.global_input_data_couplings, var_id)
                || crate::node::map_has_value(self.input_data_couplings, var_id)),
    {
        let g = keyed_map_has_value(&self.global_input_data_couplings, var_id);
        let m = keyed_map_has_value(&self.input_data_couplings, var_id);
        !(g || m)
    }

    /// Replaces the node's instruction bytes.
    pub fn set_instrs(&mut self, instrs: Vec<u8>)
        ensures
            final(self).instrs == instrs,
            *final(self) == (Node { instrs: final(self).instrs, ..*old(self) }),
    {
        self.instrs = instrs;
    }

    /// The node's instruction bytes.
    pub fn get_instrs(&self) -> (r: &Vec<u8>)
        ensures
            r == &self.instrs,
    {
        &self.instrs
    }

    /// Drops the byte range `[start, end)` from the node's instruction
    /// bytes, keeping the prefix and the suffix.
    #[verifier::loop_isolation(false)]
    pub fn remove_instrs(&mut self, start: usize, end: usize)
        requires
            start <= end,
            start <= old(self).instrs.len(),
        ensures
            final(self).instrs@ == old(self).instrs@.subrange(0, start as int) + old(
                self,
            ).instrs@.subrange(
                if end <= old(self).instrs.len() {
                    end as int
                } else {
                    old(self).instrs.len() as int
                },
                old(self).instrs.len() as int,
            ),
            *final(self) == (Node { instrs: final(self).instrs, ..*old(self) }),
    {
        let ghost cut = if end <= old(self).instrs.len() {
            end as int
        } else {
            old(self).instrs.len() as int
        };
        let old_len = self.instrs.len();
        let mut new_instrs: Vec<u8> = Vec::new();
        let mut i: usize = 0;
        while i < start
            invariant
                *self == *old(self),
                i <= start <= self.instrs.len(),
                new_instrs@ == self.instrs@.subrange(0, i as int),
            decreases start - i,
        {
            new_instrs.push(self.instrs[i]);
            proof {
                assert(new_instrs@ =~= self.instrs@.subrange(0, i + 1));
            }
            i = i + 1;
        }
        i = end;
        if end > old_len {
            i = old_len;
        }
        proof {
            assert(new_instrs@ =~= self.instrs@.subrange(0, start as int) + self.instrs@.subrange(
                cut,
                i as int,
            ));
        }
        while i < old_len
            invariant
                *self == *old(self),
                old_len == self.instrs.len(),
                cut <= i <= old_len,
                start <= self.instrs.len(),
                new_instrs@ == self.instrs@.subrange(0, start as int) + self.instrs@.subrange(
                    cut,
                    i as int,
                ),
            decreases old_len - i,
        {
            new_instrs.push(self.instrs[i]);
            proof {
                assert(self.instrs@.subrange(cut, i + 1) =~= self.instrs@.subrange(
                    cut,
                    i as int,
                ).push(self.instrs@[i as int]));
                assert(new_instrs@ =~= self.instrs@.subrange(0, start as int)
                    + self.instrs@.subrange(cut, i + 1));
            }
            i = i + 1;
        }
        proof {
            assert(new_instrs@ =~= self.instrs@.subrange(0, start as int) + self.instrs@.subrange(
                cut,
                old_len as int,
            ));
        }
        self.instrs = new_instrs;
    }
}

/// Every variable key of the node lies below the next fresh id, so a
/// fresh registration never replaces an entry.
pub open spec fn vars_below(n: Node) -> bool {
    &&& forall|e: int|
        0 <= e < n.input_variables.entries_seq().len() ==> (
        #[trigger] n.input_variables.entries_seq()[e]).0 < n.id + n.total_vars()
    &&& forall|e: int|
        0 <= e < n.internal_variables.entries_seq().len() ==> (
        #[trigger] n.internal_variables.entries_seq()[e]).0 < n.id + n.total_vars()
    &&& forall|e: int|
        0 <= e < n.constants.entries_seq().len() ==> (
        #[trigger] n.constants.entries_seq()[e]).0 < n.id + n.total_vars()
    &&& forall|e: int|
        0 <= e < n.output_variables.entries_seq().len() ==> (
        #[trigger] n.output_variables.entries_seq()[e]).0 < n.id + n.total_vars()
}

/// A key at or above every entry key is absent from the map.
pub proof fn lemma_keys_below_not_contains<V>(m: KeyedMap<V>, k: usize)
    requires
        forall|e: int|
            0 <= e < m.entries_seq().len() ==> (#[trigger] m.entries_seq()[e]).0 < k,
    ensures
        !m@.contains_key(k),
{
    m.lemma_dom(k);
    if m.has_key(k) {
        let e = choose|e: int|
            0 <= e < m.entries_seq().len() && (#[trigger] m.entries_seq()[e]).0 == k;
        assert(m.entries_seq()[e].0 < k);
    }
}

/// Inserting a key below a bound keeps every entry key below the bound.
pub proof fn lemma_entries_below_after_insert<V>(
    pre: KeyedMap<V>,
    post: KeyedMap<V>,
    k: usize,
    v: V,
    bound: int,
)
    requires
        pre.wf(),
        post.wf(),
        post@ == pre@.insert(k, v),
        k < bound,
        forall|e: int|
            0 <= e < pre.entries_seq().len() ==> (#[trigger] pre.entries_seq()[e]).0 < bound,
    ensures
        forall|e: int|
            0 <= e < post.entries_seq().len() ==> (#[trigger] post.entries_seq()[e]).0 < bound,
{
    assert forall|e: int|
        0 <= e < post.entries_seq().len() implies (#[trigger] post.entries_seq()[e]).0 < bound by {
        post.lemma_entry_view(e);
        let key = post.entries_seq()[e].0;
        assert(post@.contains_key(key));
        if key != k {
            assert(pre@.contains_key(key));
            pre.lemma_dom(key);
            let e2 = choose|e2: int|
                0 <= e2 < pre.entries_seq().len() && (#[trigger] pre.entries_seq()[e2]).0 == key;
            assert(pre.entries_seq()[e2].0 < bound);
        }
    }
}

/// Whether some entry of `m` carries the value `v`.
pub open spec fn map_has_value(m: KeyedMap<usize>, v: usize) -> bool {
    exists|i: int| 0 <= i < m.entries_seq().len() && (#[trigger] m.entries_seq()[i]).1 == v
}

/// Scans the entries of `m` for the value `v`.
fn keyed_map_has_value(m: &KeyedMap<usize>, v: usize) -> (r: bool)
    requires
        m.wf(),
    ensures
        r == map_has_value(*m, v),
{
    let n = m.len();
    let mut i: usize = 0;
    while i < n
        invariant
            m.wf(),
            n == m.entries_seq().len(),
            0 <= i <= n,
            forall|j: int| 0 <= j < i ==> (#[trigger] m.entries_seq()[j]).1 != v,
        decreases n - i,
    {
        if m.val_at(i) == v {
            proof {
                assert(map_has_value(*m, v));
            }
            return true;
        }
        i = i + 1;
    }
    proof {
        assert(!map_has_value(*m, v));
    }
    false
}

/// Whether some pair of `s` carries the key `k`.
pub open spec fn seq_has_key(s: Seq<(usize, Node)>, k: usize) -> bool {
    exists|i: int| 0 <= i < s.len() && (#[trigger] s[i]).0 == k
}

/// The index of a pair of `s` carrying the key `k`, if one exists.
pub closed spec fn seq_key_index(s: Seq<(usize, Node)>, k: usize) -> int {
    choose|i: int| 0 <= i < s.len() && (#[trigger] s[i]).0 == k
}

/// The node that `s` associates with the key `k`.
pub open spec fn seq_child_at(s: Seq<(usize, Node)>, k: usize) -> Node {
    s[seq_key_index(s, k)].1
}

pub proof fn lemma_seq_key_index(s: Seq<(usize, Node)>, k: usize)
    requires
        seq_has_key(s, k),
    ensures
        0 <= seq_key_index(s, k) < s.len(),
        s[seq_key_index(s, k)].0 == k,
{
}

/// Two nodes agree on every field, with children compared the same way.
pub open spec fn node_equiv(a: Node, b: Node) -> bool
    decreases a,
{
    &&& b.id == a.id
    &&& b.start == a.start
    &&& b.end == a.end
    &&& b.instrs@ == a.instrs@
    &&& b.branches.entries_seq() == a.branches.entries_seq()
    &&& b.calls.entries_seq() == a.calls.entries_seq()
    &&& b.constants.entries_seq() == a.constants.entries_seq()
    &&& b.internal_variables.entries_seq() == a.internal_variables.entries_seq()
    &&& b.input_variables.entries_seq() == a.input_variables.entries_seq()
    &&& b.output_variables.entries_seq() == a.output_variables.entries_seq()
    &&& b.global_input_data_couplings.entries_seq() == a.global_input_data_couplings.entries_seq()
    &&& b.global_output_data_couplings.entries_seq() == a.global_output_data_couplings.entries_seq()
    &&& b.flow_control_couplings.entries_seq() == a.flow_control_couplings.entries_seq()
    &&& b.input_data_couplings.entries_seq() == a.input_data_couplings.entries_seq()
    &&& b.output_data_couplings.entries_seq() == a.output_data_couplings.entries_seq()
    &&& b.blocks.entries_seq() == a.blocks.entries_seq()
    &&& b.operations.entries_seq() == a.operations.entries_seq()
    &&& b.children.len() == a.children.len()
    &&& forall|i: int|
        0 <= i < a.children.len() ==> (#[trigger] b.children[i]).0 == a.children[i].0
            && node_equiv(a.children[i].1, b.children[i].1)
}

/// Two nodes agree on everything expansion does not touch: the same id
/// and byte offsets, and entry-for-entry equal variable tables, couplings,
/// branches and operations.
pub open spec fn node_core_eq(a: Node, b: Node) -> bool {
    &&& b.id == a.id
    &&& b.start == a.start
    &&& b.end == a.end
    &&& b.branches.entries_seq() == a.branches.entries_seq()
    &&& b.constants.entries_seq() == a.constants.entries_seq()
    &&& b.internal_variables.entries_seq() == a.internal_variables.entries_seq()
    &&& b.input_variables.entries_seq() == a.input_variables.entries_seq()
    &&& b.output_variables.entries_seq() == a.output_variables.entries_seq()
    &&& b.global_input_data_couplings.entries_seq() == a.global_input_data_couplings.entries_seq()
    &&& b.global_output_data_couplings.entries_seq() == a.global_output_data_couplings.entries_seq()
    &&& b.flow_control_couplings.entries_seq() == a.flow_control_couplings.entries_seq()
    &&& b.input_data_couplings.entries_seq() == a.input_data_couplings.entries_seq()
    &&& b.output_data_couplings.entries_seq() == a.output_data_couplings.entries_seq()
    &&& b.operations.entries_seq() == a.operations.entries_seq()
}

/// Equivalent nodes have equal keyed views and equal well-formedness.
pub proof fn lemma_equiv_wf(a: Node, b: Node)
    requires
        node_equiv(a, b),
    ensures
        b.wf() == a.wf(),
        b.maps_wf() == a.maps_wf(),
        b.branches@ == a.branches@,
        b.calls@ == a.calls@,
        b.blocks@ == a.blocks@,
        b.constants@ == a.constants@,
        b.internal_variables@ == a.internal_variables@,
        b.input_variables@ == a.input_variables@,
        b.output_variables@ == a.output_variables@,
        b.flow_control_couplings@ == a.flow_control_couplings@,
        b.input_data_couplings@ == a.input_data_couplings@,
        b.output_data_couplings@ == a.output_data_couplings@,
        b.global_input_data_couplings@ == a.global_input_data_couplings@,
        b.global_output_data_couplings@ == a.global_output_data_couplings@,
    decreases a,
{
    a.branches.lemma_view_from_entries(b.branches);
    a.calls.lemma_view_from_entries(b.calls);
    a.blocks.lemma_view_from_entries(b.blocks);
    a.constants.lemma_view_from_entries(b.constants);
    a.internal_variables.lemma_view_from_entries(b.internal_variables);
    a.input_variables.lemma_view_from_entries(b.input_variables);
    a.output_variables.lemma_view_from_entries(b.output_variables);
    a.flow_control_couplings.lemma_view_from_entries(b.flow_control_couplings);
    a.input_data_couplings.lemma_view_from_entries(b.input_data_couplings);
    a.output_data_couplings.lemma_view_from_entries(b.output_data_couplings);
    a.global_input_data_couplings.lemma_view_from_entries(b.global_input_data_couplings);
    a.global_output_data_couplings.lemma_view_from_entries(b.global_output_data_couplings);
    assert forall|i: int| 0 <= i < a.children.len() implies (#[trigger] b.children[i]).1.wf()
        == a.children[i].1.wf() by {
        lemma_equiv_wf(a.children[i].1, b.children[i].1);
    }
    if a.wf() {
        assert forall|i: int| 0 <= i < b.children.len() implies (#[trigger] b.children[i]).1.wf() by {
            assert(a.children[i].1.wf());
        }
        assert(b.wf());
    }
    if b.wf() {
        assert forall|i: int| 0 <= i < a.children.len() implies (#[trigger] a.children[i]).1.wf() by {
            assert(b.children[i].1.wf());
        }
        assert(a.wf());
    }
}

/// Copies a byte vector.
pub(crate) fn copy_bytes(v: &Vec<u8>) -> (r: Vec<u8>)
    ensures
        r@ == v@,
{
    let n = v.len();
    let mut out: Vec<u8> = Vec::new();
    let mut i: usize = 0;
    while i < n
        invariant
            n == v@.len(),
            0 <= i <= n,
            out@ == v@.subrange(0, i as int),
        decreases n - i,
    {
        out.push(v[i]);
        proof {
            assert(out@ =~= v@.subrange(0, i + 1));
        }
        i = i + 1;
    }
    proof {
        assert(out@ =~= v@);
    }
    out
}

impl Node {
    /// Replaces the node's children.
    pub fn set_children(&mut self, children: Vec<(usize, Node)>)
        ensures
            final(self).children == children,
            *final(self) == (Node { children: final(self).children, ..*old(self) }),
    {
        self.children = children;
    }

    /// Registers `child` under the key `index`, replacing any child already
    /// held under that key.
    #[verifier::loop_isolation(false)]
    pub fn add_child(&mut self, index: usize, child: Node)
        requires
            old(self).children_unique(),
        ensures
            final(self).children_unique(),
            final(self).has_child_key(index),
            *final(self) == (Node { children: final(self).children, ..*old(self) }),
            !old(self).has_child_key(index) ==> final(self).children@ == old(
                self,
            ).children@.push((index, child)),
            old(self).has_child_key(index) ==> final(self).children@ == old(
                self,
            ).children@.update(old(self).child_index(index), (index, child)),
    {
        let n = self.children.len();
        let mut i: usize = 0;
        while i < n
            invariant
                *self == *old(self),
                n == self.children.len(),
                0 <= i <= n,
                forall|j: int| 0 <= j < i ==> (#[trigger] self.children[j]).0 != index,
            decreases n - i,
        {
            if self.children[i].0 == index {
                proof {
                    assert(old(self).has_child_key(index));
                    old(self).lemma_child_index(index);
                    assert(old(self).child_index(index) == i as int) by {
                        let j = old(self).child_index(index);
                        if j < i {
                            assert(old(self).children[j].0 != old(self).children[i as int].0);
                        } else if j > i {
                            assert(old(self).children[i as int].0 != old(self).children[j].0);
                        }
                    }
                }
                self.children.set(i, (index, child));
                proof {
                    assert forall|a: int, b: int|
                        0 <= a < b < self.children.len() implies (#[trigger] self.children[a]).0
                        != (#[trigger] self.children[b]).0 by {
                        assert(old(self).children[a].0 != old(self).children[b].0);
                    }
                    assert(self.children@[i as int].0 == index);
                    assert(self.has_child_key(index));
                }
                return ;
            }
            i = i + 1;
        }
        proof {
            assert(!old(self).has_child_key(index));
        }
        self.children.push((index, child));
        proof {
            assert forall|a: int, b: int|
                0 <= a < b < self.children.len() implies (#[trigger] self.children[a]).0 != (
            #[trigger] self.children[b]).0 by {
                if b < self.children.len() - 1 {
                    assert(old(self).children[a].0 != old(self).children[b].0);
                } else {
                    assert(self.children[b].0 == index);
                    assert(old(self).children[a].0 != index);
                }
            }
            assert(self.children[self.children.len() - 1].0 == index);
        }
    }

    /// Registers every pair of `children`, replacing children already held
    /// under the same keys.
    #[verifier::loop_isolation(false)]
    pub fn add_children(&mut self, children: Vec<(usize, Node)>)
        requires
            old(self).children_unique(),
            forall|i: int, j: int|
                0 <= i < j < children.len() ==> (#[trigger] children[i]).0 != (
                #[trigger] children[j]).0,
        ensures
            final(self).children_unique(),
            *final(self) == (Node { children: final(self).children, ..*old(self) }),
            forall|k: usize|
                #[trigger] final(self).has_child_key(k) <==> (old(self).has_child_key(k)
                    || seq_has_key(children@, k)),
            forall|k: usize|
                seq_has_key(children@, k) ==> #[trigger] final(self).child_at(k) == seq_child_at(
                    children@,
                    k,
                ),
            forall|k: usize|
                !seq_has_key(children@, k) && old(self).has_child_key(k)
                    ==> #[trigger] final(self).child_at(k) == old(self).child_at(k),
    {
        let ghost all = children@;
        let mut rest = children;
        while rest.len() > 0
            invariant
                self.children_unique(),
                rest@ == all.subrange(0, rest.len() as int),
                rest.len() <= all.len(),
                *self == (Node { children: self.children, ..*old(self) }),
                forall|i: int, j: int|
                    0 <= i < j < all.len() ==> (#[trigger] all[i]).0 != (#[trigger] all[j]).0,
                forall|k: usize|
                    #[trigger] self.has_child_key(k) <==> (old(self).has_child_key(k)
                        || seq_has_key(all.subrange(rest.len() as int, all.len() as int), k)),
                forall|k: usize|
                    seq_has_key(all.subrange(rest.len() as int, all.len() as int), k)
                        ==> #[trigger] self.child_at(k) == seq_child_at(all, k),
                forall|k: usize|
                    !seq_has_key(all.subrange(rest.len() as int, all.len() as int), k) && old(
                        self,
                    ).has_child_key(k) ==> #[trigger] self.child_at(k) == old(self).child_at(k),
            decreases rest.len(),
        {
            let ghost prev = *self;
            let ghost r0 = rest@;
            let p = rest.pop().unwrap();
            let ghost key = p.0;
            let ghost val = p.1;
            self.add_child(p.0, p.1);
            proof {
                let m = rest.len() as int;
                let done_prev = all.subrange(m + 1, all.len() as int);
                let done = all.subrange(m, all.len() as int);
                assert(r0[r0.len() - 1] == all[m]);
                assert(key == all[m].0 && val == all[m].1);
                assert(rest@ =~= all.subrange(0, m));
                // the processed suffix grows by the popped pair at its front
                assert forall|k: usize| #[trigger] seq_has_key(done, k) implies (k == key
                    || seq_has_key(done_prev, k)) by {
                    let i = choose|i: int| 0 <= i < done.len() && (#[trigger] done[i]).0 == k;
                    if i > 0 {
                        assert(done_prev[i - 1] == done[i]);
                    }
                }
                assert forall|k: usize| seq_has_key(done_prev, k) implies #[trigger] seq_has_key(
                    done,
                    k,
                ) by {
                    let i = choose|i: int|
                        0 <= i < done_prev.len() && (#[trigger] done_prev[i]).0 == k;
                    assert(done[i + 1] == done_prev[i]);
                }
                assert(seq_has_key(done, key)) by {
                    assert(done[0].0 == key);
                }
                // a key of the whole list occurs at exactly one index
                assert forall|k: usize| seq_has_key(done, k) implies #[trigger] self.child_at(k)
                    == seq_child_at(all, k) by {
                    if k == key && !seq_has_key(done_prev, k) {
                        // freshly added by this step
                        assert(self.has_child_key(key));
                        self.lemma_child_index(key);
                        lemma_seq_key_index(all, k);
                        let ai = seq_key_index(all, k);
                        assert(ai == m) by {
                            if ai != m {
                                assert(all[ai].0 == all[m].0);
                            }
                        }
                        if prev.has_child_key(key) {
                            assert(self.children@ == prev.children@.update(
                                prev.child_index(key),
                                (key, val),
                            ));
                            let ci = self.child_index(key);
                            let pi = prev.child_index(key);
                            prev.lemma_child_index(key);
                            assert(self.children[pi].0 == key);
                            assert(ci == pi) by {
                                if ci != pi {
                                    assert(self.children[ci].0 == self.children[pi].0);
                                }
                            }
                            assert(self.child_at(key) == val);
                        } else {
                            let ci = self.child_index(key);
                            let last = self.children.len() - 1;
                            assert(self.children[last].0 == key);
                            assert(ci == last) by {
                                if ci != last {
                                    assert(self.children[ci].0 == self.children[last].0);
                                }
                            }
                            assert(self.child_at(key) == val);
                        }
                    } else {
                        // carried over from the previous iteration
                        assert(seq_has_key(done_prev, k));
                        if k == key {
                            lemma_seq_key_index(done_prev, k);
                            let i = seq_key_index(done_prev, k);
                            assert(done_prev[i] == all[m + 1 + i]);
                            assert(all[m + 1 + i].0 == all[m].0);
                            assert(false);
                        }
                        assert(prev.child_at(k) == seq_child_at(all, k));
                        assert(prev.has_child_key(k));
                        prev.lemma_child_index(k);
                        let pi = prev.child_index(k);
                        assert(self.children[pi].0 == k && self.children[pi].1 == prev.child_at(
                            k,
                        )) by {
                            if prev.has_child_key(key) {
                                assert(pi != prev.child_index(key));
                            }
                        }
                        assert(self.has_child_key(k));
                        self.lemma_child_index(k);
                        let ci = self.child_index(k);
                        assert(ci == pi) by {
                            if ci != pi {
                                assert(self.children[ci].0 == self.children[pi].0);
                            }
                        }
                    }
                }
                assert forall|k: usize| !seq_has_key(done, k) && old(self).has_child_key(
                    k,
                ) implies #[trigger] self.child_at(k) == old(self).child_at(k) by {
                    assert(k != key);
                    assert(!seq_has_key(done_prev, k));
                    assert(prev.child_at(k) == old(self).child_at(k));
                    assert(prev.has_child_key(k));
                    prev.lemma_child_index(k);
                    let pi = prev.child_index(k);
                    assert(self.children[pi].0 == k && self.children[pi].1 == prev.child_at(k)) by {
                        if prev.has_child_key(key) {
                            assert(pi != prev.child_index(key));
                        }
                    }
                    assert(self.has_child_key(k));
                    self.lemma_child_index(k);
                    let ci = self.child_index(k);
                    assert(ci == pi) by {
                        if ci != pi {
                            assert(self.children[ci].0 == self.children[pi].0);
                        }
                    }
                }
                assert forall|k: usize| #[trigger] self.has_child_key(k) implies (old(
                    self,
                ).has_child_key(k) || seq_has_key(done, k)) by {
                    if k != key {
                        self.lemma_child_index(k);
                        let ci = self.child_index(k);
                        assert(prev.children[ci].0 == k);
                        assert(prev.has_child_key(k));
                    }
                }
                assert forall|k: usize| (old(self).has_child_key(k) || seq_has_key(
                    done,
                    k,
                )) implies #[trigger] self.has_child_key(k) by {
                    if old(self).has_child_key(k) && !prev.has_child_key(k) {
                        assert(false);
                    }
                    if prev.has_child_key(k) {
                        prev.lemma_child_index(k);
                        let pi = prev.child_index(k);
                        assert(self.children[pi].0 == k || (prev.has_child_key(key)
                            && pi == prev.child_index(key)));
                        if prev.has_child_key(key) && pi == prev.child_index(key) {
                            assert(k == key);
                            assert(self.has_child_key(key));
                        }
                    }
                    if seq_has_key(done, k) && !seq_has_key(done_prev, k) {
                        assert(self.has_child_key(key));
                        lemma_seq_key_index(done, k);
                        let i = seq_key_index(done, k);
                        if i > 0 {
                            assert(done_prev[i - 1] == done[i]);
                            assert(false);
                        }
                        assert(k == key);
                    }
                }
            }
        }
        proof {
            assert(all.subrange(0, all.len() as int) =~= all);
        }
    }

    /// How many children the node holds.
    pub fn children_count(&self) -> (r: usize)
        ensures
            r == self.children@.len(),
    {
        self.children.len()
    }

    /// Whether a child is held under the given key.
    pub fn has_child(&self, key: usize) -> (r: bool)
        ensures
            r == self.has_child_key(key),
    {
        let n = self.children.len();
        let mut i: usize = 0;
        while i < n
            invariant
                n == self.children.len(),
                0 <= i <= n,
                forall|j: int| 0 <= j < i ==> (#[trigger] self.children[j]).0 != key,
            decreases n - i,
        {
            if self.children[i].0 == key {
                proof {
                    assert(self.has_child_key(key));
                }
                return true;
            }
            i = i + 1;
        }
        proof {
            assert(!self.has_child_key(key));
        }
        false
    }

    /// The child held under the given key, if any.
    pub fn get_child(&self, key: usize) -> (r: Option<&Node>)
        ensures
            match r {
                Some(c) => {
                    &&& self.has_child_key(key)
                    &&& exists|i: int|
                        0 <= i < self.children.len() && (#[trigger] self.children[i]).0 == key
                            && self.children[i].1 == *c
                    &&& self.children_unique() ==> *c == self.child_at(key)
                },
                None => !self.has_child_key(key),
            },
    {
        let n = self.children.len();
        let mut i: usize = 0;
        while i < n
            invariant
                n == self.children.len(),
                0 <= i <= n,
                forall|j: int| 0 <= j < i ==> (#[trigger] self.children[j]).0 != key,
            decreases n - i,
        {
            if self.children[i].0 == key {
                proof {
                    assert(self.has_child_key(key));
                    if self.children_unique() {
                        self.lemma_child_index(key);
                        let ci = self.child_index(key);
                        assert(ci == i as int) by {
                            if ci != i {
                                assert(self.children[ci].0 == self.children[i as int].0);
                            }
                        }
                    }
                }
                return Some(&self.children[i].1);
            }
            i = i + 1;
        }
        proof {
            assert(!self.has_child_key(key));
        }
        None
    }

    /// Removes the call entries at the given positions.
    #[verifier::loop_isolation(false)]
    pub(crate) fn remove_calls(&mut self, calls: &Vec<usize>)
        requires
            old(self).calls.wf(),
        ensures
            final(self).calls.wf(),
            final(self).calls@ == old(self).calls@.remove_keys(calls@.to_set()),
            *final(self) == (Node { calls: final(self).calls, ..*old(self) }),
    {
        let n = calls.len();
        let mut i: usize = 0;
        while i < n
            invariant
                self.calls.wf(),
                n == calls@.len(),
                0 <= i <= n,
                *self == (Node { calls: self.calls, ..*old(self) }),
                self.calls@ == old(self).calls@.remove_keys(calls@.subrange(0, i as int).to_set()),
            decreases n - i,
        {
            self.calls.remove(calls[i]);
            proof {
                assert(calls@.subrange(0, i + 1).to_set() =~= calls@.subrange(
                    0,
                    i as int,
                ).to_set().insert(calls@[i as int])) by {
                    let s0 = calls@.subrange(0, i as int);
                    let s1 = calls@.subrange(0, i + 1);
                    assert forall|x: usize| s1.to_set().contains(x) implies s0.to_set().insert(
                        calls@[i as int],
                    ).contains(x) by {
                        let j = choose|j: int| 0 <= j < s1.len() && s1[j] == x;
                        if j < i {
                            assert(s0[j] == x);
                            assert(s0.contains(x));
                        }
                    }
                    assert forall|x: usize| s0.to_set().insert(calls@[i as int]).contains(
                        x,
                    ) implies s1.to_set().contains(x) by {
                        if s0.to_set().contains(x) {
                            let j = choose|j: int| 0 <= j < s0.len() && s0[j] == x;
                            assert(s1[j] == x);
                            assert(s1.contains(x));
                        } else {
                            assert(s1[i as int] == x);
                            assert(s1.contains(x));
                        }
                    }
                }
                assert(self.calls@ =~= old(self).calls@.remove_keys(calls@.subrange(
                    0,
                    i + 1,
                ).to_set()));
            }
            i = i + 1;
        }
        proof {
            assert(calls@.subrange(0, n as int) =~= calls@);
        }
    }

    /// Removes the children held under the given keys.
    #[verifier::loop_isolation(false)]
    pub(crate) fn remove_children(&mut self, children: &Vec<usize>)
        requires
            old(self).children_unique(),
        ensures
            final(self).children_unique(),
            *final(self) == (Node { children: final(self).children, ..*old(self) }),
            forall|k: usize|
                #[trigger] final(self).has_child_key(k) <==> (old(self).has_child_key(k)
                    && !children@.contains(k)),
            forall|k: usize|
                final(self).has_child_key(k) ==> #[trigger] final(self).child_at(k) == old(
                    self,
                ).child_at(k),
    {
        let n = children.len();
        let mut i: usize = 0;
        while i < n
            invariant
                self.children_unique(),
                n == children@.len(),
                0 <= i <= n,
                *self == (Node { children: self.children, ..*old(self) }),
                forall|k: usize|
                    #[trigger] self.has_child_key(k) <==> (old(self).has_child_key(k)
                        && !children@.subrange(0, i as int).contains(k)),
                forall|k: usize|
                    self.has_child_key(k) ==> #[trigger] self.child_at(k) == old(self).child_at(k),
            decreases n - i,
        {
            self.remove_child_key(children[i]);
            proof {
                let s0 = children@.subrange(0, i as int);
                let s1 = children@.subrange(0, i + 1);
                assert forall|k: usize| s1.contains(k) implies (s0.contains(k) || k
                    == children@[i as int]) by {
                    let j = choose|j: int| 0 <= j < s1.len() && s1[j] == k;
                    if j < i {
                        assert(s0[j] == k);
                    }
                }
                assert forall|k: usize| (s0.contains(k) || k == children@[i as int]) implies s1.contains(
                    k,
                ) by {
                    if s0.contains(k) {
                        let j = choose|j: int| 0 <= j < s0.len() && s0[j] == k;
                        assert(s1[j] == k);
                    } else {
                        assert(s1[i as int] == k);
                    }
                }
            }
            i = i + 1;
        }
        proof {
            assert(children@.subrange(0, n as int) =~= children@);
        }
    }

    /// Removes the child under `key`, if one is held.
    #[verifier::loop_isolation(false)]
    fn remove_child_key(&mut self, key: usize)
        requires
            old(self).children_unique(),
        ensures
            final(self).children_unique(),
            *final(self) == (Node { children: final(self).children, ..*old(self) }),
            forall|k: usize|
                #[trigger] final(self).has_child_key(k) <==> (old(self).has_child_key(k) && k
                    != key),
            forall|k: usize|
                final(self).has_child_key(k) ==> #[trigger] final(self).child_at(k) == old(
                    self,
                ).child_at(k),
    {
        let n = self.children.len();
        let mut i: usize = 0;
        while i < n
            invariant
                self.children_unique(),
                *self == *old(self),
                n == self.children.len(),
                0 <= i <= n,
                forall|j: int| 0 <= j < i ==> (#[trigger] self.children[j]).0 != key,
            decreases n - i,
        {
            if self.children[i].0 == key {
                let ghost prev = *self;
                self.children.remove(i);
                proof {
                    assert forall|a: int, b: int|
                        0 <= a < b < self.children.len() implies (#[trigger] self.children[a]).0
                        != (#[trigger] self.children[b]).0 by {
                        let pa: int = if a < i { a } else { a + 1 };
                        let pb: int = if b < i { b } else { b + 1 };
                        assert(prev.children[pa] == self.children[a]);
                        assert(prev.children[pb] == self.children[b]);
                    }
                    assert forall|k: usize| #[trigger] self.has_child_key(k) implies (
                    prev.has_child_key(k) && k != key) by {
                        let j = self.child_index(k);
                        self.lemma_child_index(k);
                        let pj: int = if j < i { j } else { j + 1 };
                        assert(prev.children[pj] == self.children[j]);
                        assert(prev.has_child_key(k));
                        if k == key {
                            assert(prev.children[pj].0 == prev.children[i as int].0);
                            assert(pj == i);
                            assert(false);
                        }
                    }
                    assert forall|k: usize| (prev.has_child_key(k) && k != key) implies #[trigger] self.has_child_key(
                        k,
                    ) by {
                        prev.lemma_child_index(k);
                        let pj = prev.child_index(k);
                        assert(pj != i) by {
                            if pj == i {
                                assert(prev.children[pj].0 == key);
                            }
                        }
                        let j: int = if pj < i { pj } else { pj - 1 };
                        assert(self.children[j] == prev.children[pj]);
                    }
                    assert forall|k: usize| self.has_child_key(k) implies #[trigger] self.child_at(
                        k,
                    ) == prev.child_at(k) by {
                        self.lemma_child_index(k);
                        let j = self.child_index(k);
                        let pj: int = if j < i { j } else { j + 1 };
                        assert(prev.children[pj] == self.children[j]);
                        prev.lemma_child_index(k);
                        let qj = prev.child_index(k);
                        assert(qj == pj) by {
                            if qj != pj {
                                assert(prev.children[qj].0 == prev.children[pj].0);
                            }
                        }
                    }
                }
                return ;
            }
            i = i + 1;
        }
        proof {
            assert(!old(self).has_child_key(key));
        }
    }

    /// A field-for-field copy of the node and of everything below it.
    #[verifier::loop_isolation(false)]
    pub fn duplicate(&self) -> (r: Node)
        ensures
            node_equiv(*self, r),
        decreases *self,
    {
        let n = self.children.len();
        let mut kids: Vec<(usize, Node)> = Vec::new();
        let mut i: usize = 0;
        while i < n
            invariant
                n == self.children.len(),
                0 <= i <= n,
                kids.len() == i,
                forall|j: int|
                    0 <= j < i ==> (#[trigger] kids[j]).0 == self.children[j].0 && node_equiv(
                        self.children[j].1,
                        kids[j].1,
                    ),
            decreases n - i,
        {
            let c = &self.children[i];
            let copied = c.1.duplicate();
            kids.push((c.0, copied));
            i = i + 1;
        }
        Node {
            id: self.id,
            instrs: copy_bytes(&self.instrs),
            branches: self.branches.duplicate(),
            calls: self.calls.duplicate(),
            start: self.start,
            end: self.end,
            children: kids,
            constants: self.constants.duplicate(),
            internal_variables: self.internal_variables.duplicate(),
            input_variables: self.input_variables.duplicate(),
            output_variables: self.output_variables.duplicate(),
            global_input_data_couplings: self.global_input_data_couplings.duplicate(),
            global_output_data_couplings: self.global_output_data_couplings.duplicate(),
            flow_control_couplings: self.flow_control_couplings.duplicate(),
            input_data_couplings: self.input_data_couplings.duplicate(),
            output_data_couplings: self.output_data_couplings.duplicate(),
            blocks: self.blocks.duplicate(),
            operations: self.operations.duplicate(),
        }
    }
}

} // verus!
