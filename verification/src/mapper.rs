//! The mapper: owner of the node and block registries, driver of the walk
//! over each function body, and host of the tree expansion passes.

use vstd::prelude::*;
use crate::node::Node;
use crate::types::{Event, MapError, Op, ValType};

verus! {

broadcast use vstd::std_specs::vec::group_vec_axioms;

/// A function type: parameter list and result list.
pub struct FuncType {
    pub params: Vec<ValType>,
    pub results: Vec<ValType>,
}

/// One decoded function body: its index, its byte range in the module
/// buffer, and its operator events in stream order.
pub struct FuncBody {
    pub func_index: usize,
    pub start: usize,
    pub end: usize,
    pub events: Vec<Event>,
}

/// Everything the mapper consumes from the module decoder: the type table,
/// the global types, the type reference of each defined function in
/// encounter order, and the decoded function bodies.
pub struct ModuleInfo {
    pub types: Vec<FuncType>,
    pub globals: Vec<ValType>,
    pub func_types: Vec<usize>,
    pub functions: Vec<FuncBody>,
}

/// The mapper owns the registered code segments: ambiguous inline blocks
/// in `blocks` (a block's id is its index there) and uniquely addressed
/// nodes in `nodes`.
pub struct Mapper {
    pub blocks: Vec<Node>,
    pub nodes: Vec<Node>,
}

/// The ids of the nodes of `s`, in order.
pub open spec fn ids_of(s: Seq<Node>) -> Seq<usize> {
    s.map_values(|n: Node| n.id)
}

/// What the walker guarantees of every entry it registers in the block
/// registry: the block is well formed, holds no children yet, carries the
/// byte slice `[start, end)` of the module buffer, and references only
/// blocks registered before it.
pub open spec fn block_entry_ok(b: Node, j: int, buf: Seq<u8>) -> bool {
    &&& b.wf()
    &&& b.children_unique()
    &&& b.children@.len() == 0
    &&& b.start <= b.end <= buf.len()
    &&& b.instrs@ == buf.subrange(b.start as int, b.end as int)
    &&& forall|e: int|
        0 <= e < b.blocks.entries_seq().len() ==> (#[trigger] b.blocks.entries_seq()[e]).1 < j
}

impl Mapper {
    /// Every block registry entry satisfies `block_entry_ok` at its index.
    pub open spec fn blocks_ok(self, buf: Seq<u8>) -> bool {
        forall|j: int|
            0 <= j < self.blocks.len() ==> block_entry_ok(#[trigger] self.blocks[j], j, buf)
    }

    fn default() -> (r: Mapper)
        ensures
            r.blocks@ == Seq::<Node>::empty(),
            r.nodes@ == Seq::<Node>::empty(),
    {
        Mapper { blocks: Vec::new(), nodes: Vec::new() }
    }

    /// An id greater than the id of every registered node, so a block can
    /// be introduced as a first-class node without a collision.
    #[verifier::loop_isolation(false)]
    pub fn unique_block_id(&self) -> (r: usize)
        requires
            forall|i: int| 0 <= i < self.nodes.len() ==> (#[trigger] self.nodes[i]).id < usize::MAX,
        ensures
            forall|i: int| 0 <= i < self.nodes.len() ==> (#[trigger] self.nodes[i]).id < r,
            self.nodes.len() == 0 ==> r == 1,
            // exactly one above the greatest registered id
            self.nodes.len() > 0 ==> exists|i: int|
                0 <= i < self.nodes.len() && (#[trigger] self.nodes[i]).id == r - 1,
    {
        let n = self.nodes.len();
        let mut true_max: usize = 0;
        let mut i: usize = 0;
        while i < n
            invariant
                n == self.nodes.len(),
                0 <= i <= n,
                true_max < usize::MAX,
                i == 0 ==> true_max == 0,
                i > 0 ==> exists|j: int|
                    0 <= j < i && (#[trigger] self.nodes[j]).id == true_max,
                forall|j: int| 0 <= j < i ==> (#[trigger] self.nodes[j]).id <= true_max,
                forall|j: int| 0 <= j < self.nodes.len() ==> (#[trigger] self.nodes[j]).id
                    < usize::MAX,
            decreases n - i,
        {
            if self.nodes[i].id > true_max {
                true_max = self.nodes[i].id;
            }
            i = i + 1;
        }
        true_max + 1
    }

    /// Registers a block and returns its registry index.
    pub(crate) fn add_block(&mut self, block: Node) -> (r: usize)
        ensures
            r == old(self).blocks.len(),
            final(self).blocks@ == old(self).blocks@.push(block),
            *final(self) == (Mapper { blocks: final(self).blocks, ..*old(self) }),
    {
        let index = self.blocks.len();
        self.blocks.push(block);
        index
    }

    /// The registered nodes.
    pub(crate) fn get_nodes(&self) -> (r: &Vec<Node>)
        ensures
            r == &self.nodes,
    {
        &self.nodes
    }

    /// The registered blocks.
    pub(crate) fn get_blocks(&self) -> (r: &Vec<Node>)
        ensures
            r == &self.blocks,
    {
        &self.blocks
    }

    /// The registered block at the given registry index.
    pub(crate) fn get_block(&self, index: usize) -> (r: &Node)
        requires
            index < self.blocks.len(),
        ensures
            r == &self.blocks[index as int],
    {
        &self.blocks[index]
    }

    /// The node indices of a flat tree of nodes.
    fn get_indices(&self, tree: &Vec<Node>) -> (r: Vec<usize>)
        ensures
            r@ == ids_of(tree@),
    {
        let n = tree.len();
        let mut indices: Vec<usize> = Vec::new();
        let mut i: usize = 0;
        while i < n
            invariant
                n == tree.len(),
                0 <= i <= n,
                indices@ == ids_of(tree@.subrange(0, i as int)),
            decreases n - i,
        {
            indices.push(tree[i].id);
            proof {
                assert(indices@ =~= ids_of(tree@.subrange(0, i + 1)));
            }
            i = i + 1;
        }
        proof {
            assert(tree@.subrange(0, n as int) =~= tree@);
        }
        indices
    }

    /// Renders a flat tree of nodes as connected lines of text, one line
    /// per node index.
    pub fn print_tree(&self, nodes: &Vec<Node>) -> (r: String)
        requires
            forall|i: int| 0 <= i < nodes.len() ==> (#[trigger] nodes[i]).id < 0x7fff_ffff,
        ensures
            r@ == flat_tree_text(ids_of(nodes@)),
    {
        let indices = self.get_indices(nodes);
        proof {
            assert forall|i: int| 0 <= i < indices@.len() implies (#[trigger] indices@[i])
                < 0x7fff_ffff by {
                assert(indices@[i] == nodes[i].id);
            }
        }
        flat_tree_fmt(&indices)
    }

    /// Attaches a function's type signature to its node: the parameters
    /// are registered as input variables in order, then the results as
    /// output variables in order, so parameter `j` gets the variable id
    /// `node.id + j`. A type reference that the type table does not hold
    /// leaves the node without parameters and results.
    #[verifier::loop_isolation(false)]
    pub(crate) fn attach_signature(
        &self,
        node: &mut Node,
        func_count: usize,
        func_types: &Vec<usize>,
        types: &Vec<FuncType>,
    )
        requires
            old(node).maps_wf(),
            old(node).total_vars() == 0,
            1 <= func_count <= func_types.len(),
            old(node).id + sig_len(func_types@, types@, func_count as int) <= usize::MAX,
        ensures
            final(node).maps_wf(),
            final(node).input_variables.entries_seq().len() == sig_params(
                func_types@,
                types@,
                func_count as int,
            ).len(),
            final(node).output_variables.entries_seq().len() == sig_results(
                func_types@,
                types@,
                func_count as int,
            ).len(),
            final(node).total_vars() == sig_len(func_types@, types@, func_count as int),
            *final(node) == (Node {
                input_variables: final(node).input_variables,
                output_variables: final(node).output_variables,
                ..*old(node)
            }),
            forall|k: usize|
                old(node).id <= k < old(node).id + sig_params(
                    func_types@,
                    types@,
                    func_count as int,
                ).len() ==> #[trigger] final(node).input_variables@.contains_key(k),
            forall|k: usize|
                old(node).id <= k < old(node).id + sig_params(
                    func_types@,
                    types@,
                    func_count as int,
                ).len() ==> #[trigger] final(node).input_variables@[k] == sig_params(
                    func_types@,
                    types@,
                    func_count as int,
                )[k - old(node).id],
            // result j is registered under id + params + j with its type
            forall|k: usize|
                old(node).id + sig_params(func_types@, types@, func_count as int).len() <= k < old(
                    node,
                ).id + sig_len(func_types@, types@, func_count as int)
                    ==> #[trigger] final(node).output_variables@.contains_key(k),
            forall|k: usize|
                old(node).id + sig_params(func_types@, types@, func_count as int).len() <= k < old(
                    node,
                ).id + sig_len(func_types@, types@, func_count as int)
                    ==> #[trigger] final(node).output_variables@[k] == sig_results(
                    func_types@,
                    types@,
                    func_count as int,
                )[k - old(node).id - sig_params(func_types@, types@, func_count as int).len()],
            crate::node::vars_below(*final(node)),
    {
        proof {
            // with no variables registered, every key bound is vacuous
            assert(old(node).input_variables.entries_seq().len() == 0);
            assert(old(node).output_variables.entries_seq().len() == 0);
            assert(old(node).internal_variables.entries_seq().len() == 0);
            assert(old(node).constants.entries_seq().len() == 0);
        }
        let ti = func_types[func_count - 1];
        if ti >= types.len() {
            // unknown function type: no parameters, no results
            return ;
        }
        let ghost params = sig_params(func_types@, types@, func_count as int);
        let ghost results = sig_results(func_types@, types@, func_count as int);
        proof {
            old(node).input_variables.lemma_empty();
            old(node).output_variables.lemma_empty();
        }
        let np = types[ti].params.len();
        let nr = types[ti].results.len();
        let mut param: usize = 0;
        while param < np
            invariant
                node.maps_wf(),
                np == params.len(),
                nr == results.len(),
                ti < types.len(),
                params == types[ti as int].params@,
                results == types[ti as int].results@,
                0 <= param <= np,
                node.id == old(node).id,
                node.total_vars() == param,
                node.input_variables.entries_seq().len() == param,
                node.output_variables.entries_seq().len() == 0,
                old(node).id + np + nr <= usize::MAX,
                *node == (Node { input_variables: node.input_variables, ..*old(node) }),
                forall|k: usize|
                    old(node).id <= k < old(node).id + param
                        ==> #[trigger] node.input_variables@.contains_key(k),
                forall|k: usize|
                    old(node).id <= k < old(node).id + param
                        ==> #[trigger] node.input_variables@[k] == params[k - old(node).id],
                forall|k: usize|
                    #[trigger] node.input_variables@.contains_key(k) ==> old(node).id <= k < old(
                        node,
                    ).id + param,
            decreases np - param,
        {
            let ghost pre = *node;
            let var_id = node.add_input_variable(types[ti].params[param]);
            proof {
                assert(var_id == old(node).id + param);
                assert(!pre.input_variables@.contains_key(var_id));
                assert forall|k: usize|
                    old(node).id <= k < old(node).id + param + 1 implies #[trigger] node.input_variables@.contains_key(
                    k,
                ) by {
                    if k < old(node).id + param {
                        assert(pre.input_variables@.contains_key(k));
                    }
                }
                assert forall|k: usize|
                    old(node).id <= k < old(node).id + param + 1 implies #[trigger] node.input_variables@[k]
                    == params[k - old(node).id] by {
                    if k < old(node).id + param {
                        assert(pre.input_variables@.contains_key(k));
                        assert(pre.input_variables@[k] == params[k - old(node).id]);
                    }
                }
            }
            param = param + 1;
        }
        proof {
            node.output_variables.lemma_empty();
        }
        let mut ret: usize = 0;
        while ret < nr
            invariant
                node.maps_wf(),
                np == params.len(),
                nr == results.len(),
                ti < types.len(),
                params == types[ti as int].params@,
                results == types[ti as int].results@,
                0 <= ret <= nr,
                node.id == old(node).id,
                node.total_vars() == np + ret,
                node.input_variables.entries_seq().len() == np,
                node.output_variables.entries_seq().len() == ret,
                old(node).id + np + nr <= usize::MAX,
                *node == (Node {
                    input_variables: node.input_variables,
                    output_variables: node.output_variables,
                    ..*old(node)
                }),
                forall|k: usize|
                    old(node).id <= k < old(node).id + np
                        ==> #[trigger] node.input_variables@.contains_key(k),
                forall|k: usize|
                    old(node).id <= k < old(node).id + np
                        ==> #[trigger] node.input_variables@[k] == params[k - old(node).id],
                forall|k: usize|
                    #[trigger] node.input_variables@.contains_key(k) ==> old(node).id <= k < old(
                        node,
                    ).id + np,
                forall|k: usize|
                    #[trigger] node.output_variables@.contains_key(k) ==> old(node).id + np <= k
                        < old(node).id + np + ret,
                forall|k: usize|
                    old(node).id + np <= k < old(node).id + np + ret
                        ==> #[trigger] node.output_variables@.contains_key(k),
                forall|k: usize|
                    old(node).id + np <= k < old(node).id + np + ret
                        ==> #[trigger] node.output_variables@[k] == results[k - old(node).id - np],
            decreases nr - ret,
        {
            let ghost pre = *node;
            let var_id = node.add_output_variable(types[ti].results[ret]);
            proof {
                assert(var_id == old(node).id + np + ret);
                assert(!pre.output_variables@.contains_key(var_id));
                assert forall|k: usize|
                    old(node).id + np <= k < old(node).id + np + ret + 1 implies #[trigger] node.output_variables@.contains_key(
                    k,
                ) by {
                    if k < old(node).id + np + ret {
                        assert(pre.output_variables@.contains_key(k));
                    }
                }
                assert forall|k: usize|
                    old(node).id + np <= k < old(node).id + np + ret + 1 implies #[trigger] node.output_variables@[k]
                    == results[k - old(node).id - np] by {
                    if k < old(node).id + np + ret {
                        assert(pre.output_variables@.contains_key(k));
                        assert(pre.output_variables@[k] == results[k - old(node).id - np]);
                    }
                }
            }
            ret = ret + 1;
        }
        proof {
            assert(crate::node::vars_below(*node)) by {
                assert forall|e: int|
                    0 <= e < node.input_variables.entries_seq().len() implies (
                #[trigger] node.input_variables.entries_seq()[e]).0 < node.id + node.total_vars() by {
                    node.input_variables.lemma_entry_view(e);
                }
                assert forall|e: int|
                    0 <= e < node.output_variables.entries_seq().len() implies (
                #[trigger] node.output_variables.entries_seq()[e]).0 < node.id
                    + node.total_vars() by {
                    node.output_variables.lemma_entry_view(e);
                }
            }
            assert forall|k: usize|
                old(node).id <= k < old(node).id + sig_params(
                    func_types@,
                    types@,
                    func_count as int,
                ).len() implies #[trigger] node.input_variables@.contains_key(k) by {
                assert(old(node).id <= k < old(node).id + np);
            }
            assert forall|k: usize|
                old(node).id <= k < old(node).id + sig_params(
                    func_types@,
                    types@,
                    func_count as int,
                ).len() implies #[trigger] node.input_variables@[k] == sig_params(
                func_types@,
                types@,
                func_count as int,
            )[k - old(node).id] by {
                assert(old(node).id <= k < old(node).id + np);
                assert(node.input_variables@[k] == params[k - old(node).id]);
            }
        }
    }
}

/// The parameter list that the signature tables give to function number
/// `func_count` (counting from 1), or the empty list when the type
/// reference is out of range.
pub open spec fn sig_params(func_types: Seq<usize>, types: Seq<FuncType>, func_count: int) -> Seq<
    ValType,
> {
    let ti = func_types[func_count - 1];
    if ti < types.len() {
        types[ti as int].params@
    } else {
        Seq::empty()
    }
}

/// The result list that the signature tables give to function number
/// `func_count`, or the empty list when the type reference is out of range.
pub open spec fn sig_results(func_types: Seq<usize>, types: Seq<FuncType>, func_count: int) -> Seq<
    ValType,
> {
    let ti = func_types[func_count - 1];
    if ti < types.len() {
        types[ti as int].results@
    } else {
        Seq::empty()
    }
}

/// How many variables attaching the signature registers.
pub open spec fn sig_len(func_types: Seq<usize>, types: Seq<FuncType>, func_count: int) -> int {
    sig_params(func_types, types, func_count).len() as int + sig_results(
        func_types,
        types,
        func_count,
    ).len() as int
}

/// Initializes a node mapper.
pub fn new_mapper() -> (r: Mapper)
    ensures
        r.blocks@ == Seq::<Node>::empty(),
        r.nodes@ == Seq::<Node>::empty(),
{
    Mapper::default()
}

/// Whether the bytes form a valid WebAssembly module. The verdict is
/// `wasmparser`'s, under its default feature set.
pub fn module_is_valid(buf: &Vec<u8>) -> (r: bool)
    ensures
        r == wasm_valid(buf@),
{
    validate_call(buf)
}

/// The verdict that `wasmparser::validate` returns on a byte buffer. It
/// depends on the bytes alone.
pub uninterp spec fn wasm_valid(bytes: Seq<u8>) -> bool;

/// Relies on wasmparser::validate: parses and validates a whole module
/// under the default feature set; the verdict depends on the bytes alone.
#[verifier::external_body]
fn validate_call(bytes: &Vec<u8>) -> (r: bool)
    ensures
        r == wasm_valid(bytes@),
{
    wasmparser::validate(bytes).is_ok()
}

/// The text that `print_flat_tree::fmt` renders for a list of node
/// indices. It depends on the indices alone.
pub uninterp spec fn flat_tree_text(indices: Seq<usize>) -> Seq<char>;

/// Relies on print_flat_tree::fmt: renders a flat tree of indices as
/// connected lines of text; the result depends on the indices alone.
/// Indices are kept below `i32::MAX` because the renderer walks them with
/// 32-bit steps. Besides the returned string, the renderer prints one
/// debug line of its own to standard output.
#[verifier::external_body]
fn flat_tree_fmt(indices: &Vec<usize>) -> (r: String)
    requires
        forall|i: int| 0 <= i < indices@.len() ==> indices@[i] < 0x7fff_ffff,
    ensures
        r@ == flat_tree_text(indices@),
{
    print_flat_tree::fmt(indices)
}

/// How many variables the signature tables assign to function number
/// `c + 1`, or none when the function has no recorded type reference.
pub open spec fn spec_sig(m: ModuleInfo, c: int) -> int {
    if c + 1 <= m.func_types@.len() {
        sig_len(m.func_types@, m.types@, c + 1)
    } else {
        0
    }
}

/// One decoded function body is coherent with the module buffer: its
/// events lie inside the buffer at strictly increasing positions at or
/// after the body start, its byte range lies inside the buffer, and the
/// id arithmetic of the walk cannot overflow.
pub open spec fn func_body_ok(fb: FuncBody, m: ModuleInfo, buf: Seq<u8>, c: int) -> bool {
    &&& crate::walker::events_ok(fb.events@, buf)
    &&& forall|j: int| 0 <= j < fb.events@.len() ==> fb.start <= (#[trigger] fb.events@[j]).pos
    &&& fb.start <= buf.len()
    &&& fb.end <= buf.len()
    &&& (fb.end != 0 ==> fb.start <= fb.end)
    &&& fb.func_index + spec_sig(m, c) + fb.events@.len() <= usize::MAX
    &&& 2 * fb.events@.len() + 2 <= usize::MAX
}

/// The whole decoded module is coherent with the module buffer.
pub open spec fn module_ok(m: ModuleInfo, buf: Seq<u8>) -> bool {
    forall|c: int|
        0 <= c < m.functions@.len() ==> func_body_ok(#[trigger] m.functions@[c], m, buf, c)
}

/// The ids that the decoded module assigns to its functions.
pub open spec fn module_id_set(m: ModuleInfo) -> Set<usize> {
    m.functions@.map_values(|fb: FuncBody| fb.func_index).to_set()
}

/// Every decoded function body is flatly closed: its terminator comes
/// before any nested region opens.
pub open spec fn module_flat(m: ModuleInfo) -> bool {
    forall|c: int|
        0 <= c < m.functions@.len() ==> crate::walker::flat_closed(
            (#[trigger] m.functions@[c]).events@,
            0,
        )
}

/// How many parameters the signature tables give function number `c + 1`.
pub open spec fn spec_sig_params_len(m: ModuleInfo, c: int) -> int {
    if c + 1 <= m.func_types@.len() {
        sig_params(m.func_types@, m.types@, c + 1).len() as int
    } else {
        0
    }
}

/// How many results the signature tables give function number `c + 1`.
pub open spec fn spec_sig_results_len(m: ModuleInfo, c: int) -> int {
    if c + 1 <= m.func_types@.len() {
        sig_results(m.func_types@, m.types@, c + 1).len() as int
    } else {
        0
    }
}

/// What the mapper leaves for a flatly closed function body: the node
/// carries no blocks and no internal variables, exactly the constants and
/// the memory- and global-coupled variables its operators register on top
/// of its signature, every call and branch entry its operators demand,
/// only call entries that stem from call operators, and the preset body
/// end.
pub open spec fn flat_mapped(fb: FuncBody, m: ModuleInfo, c: int, n: Node, buf: Seq<u8>) -> bool {
    let t1 = crate::walker::flat_term_idx(fb.events@, 0) + 1;
    &&& n.blocks.entries_seq().len() == 0
    &&& n.start == fb.start
    &&& n.start <= n.end <= buf.len()
    &&& n.instrs@ == buf.subrange(n.start as int, n.end as int)
    &&& n.constants.entries_seq().len() == crate::walker::const_count(fb.events@, 0, t1)
    &&& n.input_variables.entries_seq().len() == spec_sig_params_len(m, c)
        + crate::walker::input_count(fb.events@, 0, t1, m.globals@.len() as int)
    &&& n.output_variables.entries_seq().len() == spec_sig_results_len(m, c)
        + crate::walker::output_count(fb.events@, 0, t1, m.globals@.len() as int)
    &&& n.internal_variables.entries_seq().len() == 0
    &&& crate::walker::effects_recorded(fb.events@, 0, t1, n)
    &&& forall|k: usize|
        #[trigger] n.calls@.contains_key(k) ==> exists|j: int|
            0 <= j < t1 && (#[trigger] fb.events@[j]).pos == k && match fb.events@[j].op {
                Op::Call { func } => n.calls@[k] == func,
                Op::CallIndirect { table } => n.calls@[k] == table,
                _ => false,
            }
    &&& (fb.end != 0 ==> n.end == fb.end)
    &&& forall|k: usize|
        fb.func_index <= k < fb.func_index + spec_sig_params_len(m, c)
            ==> #[trigger] n.input_variables@.contains_key(k) && n.input_variables@[k]
            == sig_params(m.func_types@, m.types@, c + 1)[k - fb.func_index]
    &&& forall|k: usize|
        fb.func_index + spec_sig_params_len(m, c) <= k < fb.func_index + spec_sig_params_len(
            m,
            c,
        ) + spec_sig_results_len(m, c) ==> #[trigger] n.output_variables@.contains_key(k)
            && n.output_variables@[k] == sig_results(m.func_types@, m.types@, c + 1)[k
            - fb.func_index - spec_sig_params_len(m, c)]
    &&& crate::walker::data_effects_recorded(
        fb.events@,
        0,
        t1,
        n,
        fb.func_index + spec_sig(m, c),
        m.globals@,
        fb.func_index,
        spec_sig_params_len(m, c),
    )
    &&& forall|k: usize|
        #[trigger] n.branches@.contains_key(k) ==> exists|j: int|
            0 <= j < t1 && (#[trigger] fb.events@[j]).pos == k && match fb.events@[j].op {
                Op::Br { depth } => n.branches@[k] == depth,
                Op::BrIf { depth } => n.branches@[k] == depth,
                Op::BrTable { targets } => crate::walker::brtable_pick(targets@) == Some(
                    n.branches@[k],
                ),
                _ => false,
            }
    &&& forall|k: usize|
        #[trigger] n.operations@.contains_key(k) ==> exists|j: int|
            #![trigger fb.events@[j]]
            0 <= j < t1 && (j + 1) as usize == k && match fb.events@[j].op {
                Op::LocalGet { index } => (index as int) < spec_sig_params_len(m, c)
                    && n.operations@[k] == (crate::types::AbstractExpression::Spin {
                    id: (fb.func_index + index) as usize,
                }),
                Op::Add { ty } => n.operations@[k] == (crate::types::AbstractExpression::Add {
                    ty,
                }),
                Op::Mul { ty } => n.operations@[k] == (crate::types::AbstractExpression::Mul {
                    ty,
                }),
                _ => false,
            }
}

/// Two nodes that agree on their flow tables are mapped alike.
proof fn lemma_flat_mapped_transfer(fb: FuncBody, m: ModuleInfo, c: int, a: Node, b: Node, buf: Seq<u8>)
    requires
        flat_mapped(fb, m, c, a, buf),
        b.start == a.start,
        b.instrs@ == a.instrs@,
        b.calls@ == a.calls@,
        b.branches@ == a.branches@,
        b.input_variables@ == a.input_variables@,
        b.output_variables@ == a.output_variables@,
        b.constants@ == a.constants@,
        b.operations@ == a.operations@,
        b.input_data_couplings@ == a.input_data_couplings@,
        b.output_data_couplings@ == a.output_data_couplings@,
        b.global_input_data_couplings@ == a.global_input_data_couplings@,
        b.global_output_data_couplings@ == a.global_output_data_couplings@,
        b.blocks.entries_seq().len() == a.blocks.entries_seq().len(),
        b.constants.entries_seq().len() == a.constants.entries_seq().len(),
        b.input_variables.entries_seq().len() == a.input_variables.entries_seq().len(),
        b.output_variables.entries_seq().len() == a.output_variables.entries_seq().len(),
        b.internal_variables.entries_seq().len() == a.internal_variables.entries_seq().len(),
        b.end == a.end,
    ensures
        flat_mapped(fb, m, c, b, buf),
{
    let t1 = crate::walker::flat_term_idx(fb.events@, 0) + 1;
    assert forall|j: int| 0 <= j < t1 implies #[trigger] crate::walker::event_recorded(
        fb.events@,
        j,
        b,
    ) by {
        assert(crate::walker::event_recorded(fb.events@, j, a));
    }
    assert forall|j: int| 0 <= j < t1 implies #[trigger] crate::walker::data_recorded(
        fb.events@,
        0,
        t1,
        j,
        b,
        fb.func_index + spec_sig(m, c),
        m.globals@,
        fb.func_index,
        spec_sig_params_len(m, c),
    ) by {
        assert(crate::walker::data_recorded(
            fb.events@,
            0,
            t1,
            j,
            a,
            fb.func_index + spec_sig(m, c),
            m.globals@,
            fb.func_index,
            spec_sig_params_len(m, c),
        ));
    }
}

/// Decides `module_ok` at run time.
#[verifier::loop_isolation(false)]
fn module_input_ok(module: &ModuleInfo, buf: &Vec<u8>) -> (r: bool)
    ensures
        r == module_ok(*module, buf@),
{
    let nf = module.functions.len();
    let mut c: usize = 0;
    while c < nf
        invariant
            0 <= c <= nf,
            nf == module.functions@.len(),
            forall|c2: int|
                0 <= c2 < c ==> func_body_ok(#[trigger] module.functions@[c2], *module, buf@, c2),
        decreases nf - c,
    {
        let fb = &module.functions[c];
        if fb.start > buf.len() || fb.end > buf.len() {
            return false;
        }
        if fb.end != 0 && fb.start > fb.end {
            return false;
        }
        let ne = fb.events.len();
        if ne > (usize::MAX - 2) / 2 {
            return false;
        }
        // the id arithmetic of the walk must fit
        let mut sig: usize = 0;
        if c < module.func_types.len() {
            let ti = module.func_types[c];
            if ti < module.types.len() {
                let np = module.types[ti].params.len();
                let nr = module.types[ti].results.len();
                if np > usize::MAX - nr {
                    // the signature alone exhausts the id space
                    proof {
                        assert(spec_sig(*module, c as int) > usize::MAX);
                        assert(!func_body_ok(module.functions@[c as int], *module, buf@, c as int));
                    }
                    return false;
                }
                sig = np + nr;
            }
        }
        proof {
            assert(sig == spec_sig(*module, c as int));
        }
        if fb.func_index > usize::MAX - sig {
            return false;
        }
        if ne > usize::MAX - sig - fb.func_index {
            return false;
        }
        let mut j: usize = 0;
        while j < ne
            invariant
                0 <= j <= ne,
                ne == fb.events@.len(),
                fb.start <= buf@.len(),
                forall|a: int| 0 <= a < j ==> (#[trigger] fb.events@[a]).pos < buf@.len(),
                forall|a: int| 0 <= a < j ==> fb.start <= (#[trigger] fb.events@[a]).pos,
                forall|a: int, b: int|
                    0 <= a < b < j ==> (#[trigger] fb.events@[a]).pos < (
                    #[trigger] fb.events@[b]).pos,
            decreases ne - j,
        {
            if fb.events[j].pos >= buf.len() || fb.events[j].pos < fb.start {
                return false;
            }
            if j > 0 && fb.events[j - 1].pos >= fb.events[j].pos {
                return false;
            }
            proof {
                assert forall|a: int, b: int|
                    0 <= a < b < j + 1 implies (#[trigger] fb.events@[a]).pos < (
                #[trigger] fb.events@[b]).pos by {
                    if b == j && a < j - 1 {
                        assert(fb.events@[a].pos < fb.events@[j - 1].pos);
                    }
                }
            }
            j = j + 1;
        }
        c = c + 1;
    }
    true
}

impl Mapper {
    /// Entry point to the mapping functionality: walks every decoded
    /// function body into a node, attaches its signature, registers it,
    /// and expands the resulting tree into feed-forward form.
    ///
    /// The mapper must be fresh for this buffer: its registries were
    /// built over the same buffer or are empty. A decoded module that is
    /// not coherent with the buffer is rejected as bad WebAssembly; a
    /// walk that runs off the operator stream fails the same way.
    #[verifier::loop_isolation(false)]
    pub fn map(&mut self, buf: &Vec<u8>, module: &ModuleInfo) -> (r: Result<Vec<Node>, MapError>)
        requires
            old(self).blocks_ok(buf@),
            old(self).nodes@.len() == 0,
        ensures
            final(self).blocks_ok(buf@),
            !module_ok(*module, buf@) ==> r is Err,
            r matches Err(MapError::IdOverflow) ==> crate::expand::id_space_full(*final(self)),
            module_ok(*module, buf@) && module_flat(*module) ==> r is Ok,
            match r {
                Ok(out) => {
                    &&& out@.len() == module.functions@.len()
                    &&& (module.functions@.len() == 0 ==> final(self).nodes@ == old(self).nodes@)
                    &&& final(self).nodes@.len() >= module.functions@.len()
                    &&& forall|c: int|
                        0 <= c < out@.len() ==> (#[trigger] out@[c]).id == module.functions@[
                            c
                        ].func_index
                    // the registry keeps each function exactly as walked:
                    // offsets from the body range, bytes from the buffer
                    &&& forall|c: int|
                        0 <= c < module.functions@.len() ==> {
                            let w = #[trigger] final(self).nodes@[c];
                            &&& w.id == module.functions@[c].func_index
                            &&& w.start == module.functions@[c].start
                            &&& w.start <= w.end <= buf@.len()
                            &&& w.instrs@ == buf@.subrange(w.start as int, w.end as int)
                            &&& w.instrs@.len() == w.end - w.start
                        }
                    &&& forall|c: int|
                        0 <= c < out@.len() ==> crate::node::node_core_eq(
                            final(self).nodes@[c],
                            #[trigger] out@[c],
                        )
                    // the expanded tree is feed-forward
                    &&& forall|c: int| 0 <= c < out@.len() ==> (#[trigger] out@[c]).wf()
                    // on a flatly closed module every node's flow tables
                    // are pinned exactly by its operator events
                    &&& (module_flat(*module) ==> forall|c: int|
                        0 <= c < out@.len() ==> flat_mapped(
                            #[trigger] module.functions@[c],
                            *module,
                            c,
                            out@[c],
                            buf@,
                        ))
                    &&& (module_flat(*module) ==> forall|c: int, i2: int|
                        0 <= c < out@.len() && 0 <= i2 < (#[trigger] out@[c]).children.len()
                            ==> crate::node::map_has_value(
                            out@[c].calls,
                            (#[trigger] out@[c].children[i2]).0,
                        ))
                    &&& forall|c: int|
                        0 <= c < out@.len() ==> crate::expand::feed_forward(
                            #[trigger] out@[c],
                            Set::<usize>::empty(),
                            module_id_set(*module),
                        )
                },
                Err(_) => true,
            },
    {
        if !module_input_ok(module, buf) {
            return Err(MapError::BadWasm);
        }
        let ghost m0 = *old(self);
        let mut walked: Vec<Node> = Vec::new();
        let nf = module.functions.len();
        let mut c: usize = 0;
        while c < nf
            invariant
                0 <= c <= nf,
                nf == module.functions@.len(),
                module_ok(*module, buf@),
                walked@.len() == c,
                self.blocks_ok(buf@),
                self.nodes@.len() == c,
                forall|i: int|
                    0 <= i < c ==> {
                        let w = #[trigger] self.nodes@[i];
                        &&& w.id == module.functions@[i].func_index
                        &&& w.start == module.functions@[i].start
                        &&& w.start <= w.end <= buf@.len()
                        &&& w.instrs@ == buf@.subrange(w.start as int, w.end as int)
                    },
                forall|i: int|
                    0 <= i < c ==> {
                        let w = #[trigger] walked@[i];
                        &&& w.id == module.functions@[i].func_index
                        &&& w.maps_wf()
                        &&& w.children_unique()
                        &&& w.children@.len() == 0
                        &&& crate::node::node_equiv(w, self.nodes@[i])
                    },
                module_flat(*module) ==> forall|i: int|
                    0 <= i < c ==> flat_mapped(
                        #[trigger] module.functions@[i],
                        *module,
                        i,
                        walked@[i],
                        buf@,
                    ),
            decreases nf - c,
        {
            let fb = &module.functions[c];
            let mut node = Node::default();
            node.set_id(fb.func_index);
            node.set_end(fb.end);
            if c < module.func_types.len() {
                self.attach_signature(&mut node, c + 1, &module.func_types, &module.types);
            }
            let n_params = node.get_input_variables().len();
            let ghost attach_node = node;
            let ghost pre_nodes = self.nodes@;
            match self.map_helper(
                &fb.events,
                buf,
                &module.globals,
                fb.func_index,
                n_params,
                0,
                fb.start,
                fb.func_index,
                node,
            ) {
                Ok(pair) => {
                    let (walked_node, _cur) = pair;
                    let registered = walked_node.duplicate();
                    proof {
                        crate::node::lemma_equiv_wf(walked_node, registered);
                        if module_flat(*module) {
                            assert(crate::walker::flat_closed(
                                module.functions@[c as int].events@,
                                0,
                            ));
                            let fb = module.functions@[c as int];
                            assert forall|k: usize|
                                fb.func_index <= k < fb.func_index + spec_sig_params_len(
                                    *module,
                                    c as int,
                                ) implies #[trigger] walked_node.input_variables@.contains_key(k)
                                && walked_node.input_variables@[k] == sig_params(
                                module.func_types@,
                                module.types@,
                                c + 1,
                            )[k - fb.func_index] by {
                                assert(attach_node.input_variables@.contains_key(k));
                            }
                            assert forall|k: usize|
                                fb.func_index + spec_sig_params_len(*module, c as int) <= k
                                    < fb.func_index + spec_sig_params_len(*module, c as int)
                                    + spec_sig_results_len(
                                    *module,
                                    c as int,
                                ) implies #[trigger] walked_node.output_variables@.contains_key(k)
                                && walked_node.output_variables@[k] == sig_results(
                                module.func_types@,
                                module.types@,
                                c + 1,
                            )[k - fb.func_index - spec_sig_params_len(*module, c as int)] by {
                                assert(attach_node.output_variables@.contains_key(k));
                            }
                            assert(flat_mapped(
                                module.functions@[c as int],
                                *module,
                                c as int,
                                walked_node,
                                buf@,
                            ));
                        }
                    }
                    self.nodes.push(registered);
                    walked.push(walked_node);
                    proof {
                        assert(self.nodes@[c as int].instrs@ == buf@.subrange(
                            self.nodes@[c as int].start as int,
                            self.nodes@[c as int].end as int,
                        ));
                    }
                },
                Err(e) => {
                    proof {
                        if module_flat(*module) {
                            assert(crate::walker::flat_closed(
                                module.functions@[c as int].events@,
                                0,
                            ));
                        }
                    }
                    return Err(e);
                },
            }
            c = c + 1;
        }
        let ghost walked_snap = walked@;
        proof {
            assert(crate::expand::tree_walked(walked@));
            assert(crate::expand::tree_wf(walked@));
            assert(self.blocks_nested()) by {
                assert forall|j: int, e: int|
                    0 <= j < self.blocks@.len() && 0 <= e < (
                #[trigger] self.blocks@[j]).blocks.entries_seq().len() implies (
                #[trigger] self.blocks@[j].blocks.entries_seq()[e]).1 < j by {
                    assert(crate::mapper::block_entry_ok(self.blocks@[j], j, buf@));
                }
            }
            assert(crate::expand::blocks_walked(*self)) by {
                assert forall|j: int| 0 <= j < self.blocks@.len() implies (
                #[trigger] self.blocks@[j]).maps_wf() && self.blocks@[j].children_unique()
                    && self.blocks@[j].children@.len() == 0 by {
                    assert(crate::mapper::block_entry_ok(self.blocks@[j], j, buf@));
                }
            }
            assert(crate::expand::tree_ids_registered(walked@, *self)) by {
                assert forall|c2: int| 0 <= c2 < walked@.len() implies crate::expand::id_registered(
                    *self,
                    (#[trigger] walked@[c2]).id,
                ) by {
                    assert(0 <= c2 < self.nodes@.len());
                    assert(crate::node::node_equiv(walked@[c2], self.nodes@[c2]));
                    assert(self.nodes@[c2].id == walked@[c2].id);
                }
            }
        }
        let ghost mid = *self;
        match self.expand_tree(walked) {
            Ok(out) => {
                proof {
                    assert(self.nodes@.subrange(0, mid.nodes@.len() as int) == mid.nodes@);
                    assert forall|c2: int| 0 <= c2 < nf implies {
                        let w = #[trigger] self.nodes@[c2];
                        &&& w.id == module.functions@[c2].func_index
                        &&& w.start == module.functions@[c2].start
                        &&& w.start <= w.end <= buf@.len()
                        &&& w.instrs@ == buf@.subrange(w.start as int, w.end as int)
                        &&& w.instrs@.len() == w.end - w.start
                    } by {
                        assert(self.nodes@[c2] == mid.nodes@[c2]);
                    }
                    assert forall|c2: int| 0 <= c2 < out@.len() implies crate::node::node_core_eq(
                        self.nodes@[c2],
                        #[trigger] out@[c2],
                    ) by {
                        assert(self.nodes@[c2] == mid.nodes@[c2]);
                        assert(crate::node::node_equiv(walked_snap[c2], mid.nodes@[c2]));
                        assert(crate::node::node_core_eq(walked_snap[c2], out@[c2]));
                    }
                    assert forall|c2: int| 0 <= c2 < out@.len() implies crate::expand::feed_forward(
                        #[trigger] out@[c2],
                        Set::<usize>::empty(),
                        module_id_set(*module),
                    ) by {
                        assert(crate::expand::feed_forward(
                            out@[c2],
                            Set::<usize>::empty(),
                            crate::expand::id_set(walked_snap),
                        ));
                        assert(ids_of(walked_snap) =~= module.functions@.map_values(
                            |fb: FuncBody| fb.func_index,
                        )) by {
                            assert forall|i: int| 0 <= i < walked_snap.len() implies ids_of(
                                walked_snap,
                            )[i] == module.functions@.map_values(|fb: FuncBody| fb.func_index)[i]
                                by {
                                assert(ids_of(walked_snap)[i] == walked_snap[i].id);
                            }
                        }
                    }
                }
                proof {
                    if module_flat(*module) {
                        assert forall|c2: int| 0 <= c2 < out@.len() implies flat_mapped(
                            #[trigger] module.functions@[c2],
                            *module,
                            c2,
                            out@[c2],
                            buf@,
                        ) by {
                            assert(walked_snap[c2].blocks.entries_seq().len() == 0);
                            out@[c2].calls.lemma_view_from_entries(walked_snap[c2].calls);
                            out@[c2].branches.lemma_view_from_entries(walked_snap[c2].branches);
                            out@[c2].input_variables.lemma_view_from_entries(
                                walked_snap[c2].input_variables,
                            );
                            out@[c2].output_variables.lemma_view_from_entries(
                                walked_snap[c2].output_variables,
                            );
                            out@[c2].constants.lemma_view_from_entries(walked_snap[c2].constants);
                            out@[c2].operations.lemma_view_from_entries(
                                walked_snap[c2].operations,
                            );
                            out@[c2].input_data_couplings.lemma_view_from_entries(
                                walked_snap[c2].input_data_couplings,
                            );
                            out@[c2].output_data_couplings.lemma_view_from_entries(
                                walked_snap[c2].output_data_couplings,
                            );
                            out@[c2].global_input_data_couplings.lemma_view_from_entries(
                                walked_snap[c2].global_input_data_couplings,
                            );
                            out@[c2].global_output_data_couplings.lemma_view_from_entries(
                                walked_snap[c2].global_output_data_couplings,
                            );
                            lemma_flat_mapped_transfer(
                                module.functions@[c2],
                                *module,
                                c2,
                                walked_snap[c2],
                                out@[c2],
                                buf@,
                            );
                        }
                        assert forall|c2: int, i2: int|
                            0 <= c2 < out@.len() && 0 <= i2 < (
                        #[trigger] out@[c2]).children.len() implies crate::node::map_has_value(
                            out@[c2].calls,
                            (#[trigger] out@[c2].children[i2]).0,
                        ) by {
                            assert(walked_snap[c2].children@.len() == 0);
                            assert(walked_snap[c2].blocks.entries_seq().len() == 0);
                        }
                    }
                }
                Ok(out)
            },
            Err(e) => {
                Err(e)
            },
        }
    }
}

} // verus!
