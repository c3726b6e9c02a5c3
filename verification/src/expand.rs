//! The tree expander: lifts inline blocks into first-class child nodes
//! with explicit call edges, and resolves call edges into children by
//! value, pruning self references, reference loops and duplicates, so the
//! expanded tree is feed-forward.

use vstd::prelude::*;
use crate::keyed_map::KeyedMap;
use crate::mapper::{ids_of, Mapper};
use crate::node::Node;
use crate::types::MapError;

verus! {

broadcast use vstd::std_specs::vec::group_vec_axioms, vstd::seq_lib::seq_to_set_is_finite, vstd::set::group_set_axioms, vstd::seq::group_seq_axioms;

/// The ids of the nodes of a tree, as a set.
pub open spec fn id_set(tree: Seq<Node>) -> Set<usize> {
    ids_of(tree).to_set()
}

/// No tree node holds an inline block, so expansion never needs a fresh
/// id.
pub open spec fn tree_no_blocks(tree: Seq<Node>) -> bool {
    forall|c: int| 0 <= c < tree.len() ==> (#[trigger] tree[c]).blocks.entries_seq().len() == 0
}

/// Every tree node is well formed at every depth, with distinct child
/// keys at the top.
pub open spec fn tree_wf(tree: Seq<Node>) -> bool {
    forall|c: int|
        0 <= c < tree.len() ==> (#[trigger] tree[c]).wf() && tree[c].children_unique()
}

/// Some registered node already carries the greatest representable id, so
/// no fresh id is left for a lifted block.
pub open spec fn id_space_full(m: Mapper) -> bool {
    exists|i: int| 0 <= i < m.nodes@.len() && (#[trigger] m.nodes@[i]).id == usize::MAX
}

/// The id `x` is the id of some registered node of `m`.
pub open spec fn id_registered(m: Mapper, x: usize) -> bool {
    exists|i: int| 0 <= i < m.nodes@.len() && (#[trigger] m.nodes@[i]).id == x
}

/// Every id of `tree` is the id of some registered node of `m`.
pub open spec fn tree_ids_registered(tree: Seq<Node>, m: Mapper) -> bool {
    forall|c: int| 0 <= c < tree.len() ==> id_registered(m, (#[trigger] tree[c]).id)
}

/// Every id of `path` is the id of some registered node of `m`.
pub open spec fn path_ids_registered(path: Seq<usize>, m: Mapper) -> bool {
    forall|c: int| 0 <= c < path.len() ==> id_registered(m, #[trigger] path[c])
}

/// An expanded node is feed-forward: its inline blocks are gone, its id
/// does not occur among its ancestors, every call edge leads to itself, to
/// an ancestor, to a present child, or out of the tree, and every child
/// hangs under its own id and is feed-forward in turn.
pub open spec fn feed_forward(n: Node, path: Set<usize>, tree_ids: Set<usize>) -> bool
    decreases n,
{
    &&& n.blocks.entries_seq().len() == 0
    &&& n.children_unique()
    &&& !path.contains(n.id)
    &&& forall|k: usize|
        #[trigger] n.calls@.contains_key(k) ==> (n.calls@[k] == n.id || path.contains(n.calls@[k])
            || n.has_child_key(n.calls@[k]) || !tree_ids.contains(n.calls@[k]))
    &&& forall|i: int|
        0 <= i < n.children.len() ==> (#[trigger] n.children[i]).0 == n.children[i].1.id
            && feed_forward(n.children[i].1, path.insert(n.id), tree_ids)
}

/// Appending to a sequence inserts into its set of values.
proof fn lemma_push_to_set(s: Seq<usize>, x: usize)
    ensures
        s.push(x).to_set() == s.to_set().insert(x),
{
    assert forall|y: usize| #[trigger] s.push(x).to_set().contains(y) implies s.to_set().insert(
        x,
    ).contains(y) by {
        let idx = choose|i: int| 0 <= i < s.push(x).len() && s.push(x)[i] == y;
        if idx < s.len() {
            assert(s[idx] == y);
            assert(s.contains(y));
        }
    }
    assert forall|y: usize| s.to_set().insert(x).contains(y) implies #[trigger] s.push(
        x,
    ).to_set().contains(y) by {
        if s.contains(y) {
            let idx = choose|i: int| 0 <= i < s.len() && s[i] == y;
            assert(s.push(x)[idx] == y);
            assert(s.push(x).contains(y));
        } else {
            assert(y == x);
            assert(s.push(x)[s.len() as int] == y);
            assert(s.push(x).contains(y));
        }
    }
    assert(s.push(x).to_set() =~= s.to_set().insert(x));
}

/// A registered id stays registered as the registry grows at the end.
proof fn lemma_id_registered_monotone(pre: Mapper, post: Mapper, x: usize)
    requires
        id_registered(pre, x),
        post.nodes@.len() >= pre.nodes@.len(),
        post.nodes@.subrange(0, pre.nodes@.len() as int) == pre.nodes@,
    ensures
        id_registered(post, x),
{
    let i = choose|i: int| 0 <= i < pre.nodes@.len() && (#[trigger] pre.nodes@[i]).id == x;
    assert(post.nodes@[i] == pre.nodes@[i]);
}

/// Adding a child under a key keeps every key already present.
proof fn lemma_child_key_monotone(pre: Node, post: Node, key: usize, c: Node)
    requires
        post.children@ == pre.children@.push((key, c)) || (pre.has_child_key(key)
            && post.children@ == pre.children@.update(pre.child_index(key), (key, c))),
    ensures
        forall|x: usize| pre.has_child_key(x) ==> #[trigger] post.has_child_key(x),
        post.has_child_key(key),
{
    if post.children@ == pre.children@.push((key, c)) {
        assert forall|x: usize| pre.has_child_key(x) implies #[trigger] post.has_child_key(x) by {
            let i = choose|i: int|
                0 <= i < pre.children.len() && (#[trigger] pre.children[i]).0 == x;
            assert(post.children[i].0 == x);
        }
        assert(post.children[post.children.len() - 1].0 == key);
    } else {
        pre.lemma_child_index(key);
        let ix = pre.child_index(key);
        assert forall|x: usize| pre.has_child_key(x) implies #[trigger] post.has_child_key(x) by {
            let i = choose|i: int|
                0 <= i < pre.children.len() && (#[trigger] pre.children[i]).0 == x;
            if i == ix {
                assert(x == key);
                assert(post.children[i].0 == key);
            } else {
                assert(post.children[i].0 == x);
            }
        }
        assert(post.children[ix].0 == key);
    }
}

/// Adding a well-formed child keeps the node well formed.
proof fn lemma_wf_after_add(pre: Node, post: Node, key: usize, c: Node)
    requires
        pre.wf(),
        c.wf(),
        post.maps_wf(),
        post.children@ == pre.children@.push((key, c)) || (pre.has_child_key(key)
            && post.children@ == pre.children@.update(pre.child_index(key), (key, c))),
    ensures
        post.wf(),
{
    if post.children@ == pre.children@.push((key, c)) {
        assert forall|i: int| 0 <= i < post.children.len() implies (
        #[trigger] post.children[i]).1.wf() by {
            if i < pre.children.len() {
                assert(post.children[i] == pre.children[i]);
                assert(pre.children[i].1.wf());
            } else {
                assert(post.children[i] == (key, c));
            }
        }
    } else {
        pre.lemma_child_index(key);
        let ix = pre.child_index(key);
        assert forall|i: int| 0 <= i < post.children.len() implies (
        #[trigger] post.children[i]).1.wf() by {
            if i == ix {
                assert(post.children[i] == (key, c));
            } else {
                assert(post.children[i] == pre.children[i]);
                assert(pre.children[i].1.wf());
            }
        }
    }
}

/// Adding a feed-forward child keeps every child feed-forward.
proof fn lemma_children_ff_after_add(
    pre: Node,
    post: Node,
    key: usize,
    c: Node,
    pins: Set<usize>,
    tids: Set<usize>,
)
    requires
        c.id == key,
        feed_forward(c, pins, tids),
        forall|i: int|
            0 <= i < pre.children.len() ==> (#[trigger] pre.children[i]).0 == pre.children[i].1.id
                && feed_forward(pre.children[i].1, pins, tids),
        post.children@ == pre.children@.push((key, c)) || (pre.has_child_key(key)
            && post.children@ == pre.children@.update(pre.child_index(key), (key, c))),
    ensures
        forall|i: int|
            0 <= i < post.children.len() ==> (#[trigger] post.children[i]).0
                == post.children[i].1.id && feed_forward(post.children[i].1, pins, tids),
{
    if post.children@ == pre.children@.push((key, c)) {
        assert forall|i: int| 0 <= i < post.children.len() implies (#[trigger] post.children[i]).0
            == post.children[i].1.id && feed_forward(post.children[i].1, pins, tids) by {
            if i < pre.children.len() {
                assert(post.children[i] == pre.children[i]);
            } else {
                assert(post.children[i] == (key, c));
            }
        }
    } else {
        pre.lemma_child_index(key);
        let ix = pre.child_index(key);
        assert forall|i: int| 0 <= i < post.children.len() implies (#[trigger] post.children[i]).0
            == post.children[i].1.id && feed_forward(post.children[i].1, pins, tids) by {
            if i == ix {
                assert(post.children[i] == (key, c));
            } else {
                assert(post.children[i] == pre.children[i]);
            }
        }
    }
}

/// Whether `v` holds the value `x`.
fn vec_holds(v: &Vec<usize>, x: usize) -> (r: bool)
    ensures
        r == v@.contains(x),
{
    let n = v.len();
    let mut i: usize = 0;
    while i < n
        invariant
            n == v@.len(),
            0 <= i <= n,
            forall|j: int| 0 <= j < i ==> v@[j] != x,
        decreases n - i,
    {
        if v[i] == x {
            return true;
        }
        i = i + 1;
    }
    false
}

/// A copy of `v` with `x` appended.
fn copied_push(v: &Vec<usize>, x: usize) -> (r: Vec<usize>)
    ensures
        r@ == v@.push(x),
{
    let n = v.len();
    let mut out: Vec<usize> = Vec::new();
    let mut i: usize = 0;
    while i < n
        invariant
            n == v@.len(),
            0 <= i <= n,
            out@ == v@.subrange(0, i as int),
        decreases n - i,
    {
        out.push(v[i]);
        proof {
            assert(out@ =~= v@.subrange(0, i + 1));
        }
        i = i + 1;
    }
    out.push(x);
    proof {
        assert(out@ =~= v@.push(x));
    }
    out
}

/// The position of the node with the given id in the tree, if present.
fn find_node(tree: &Vec<Node>, id: usize) -> (r: Option<usize>)
    ensures
        match r {
            Some(ix) => ix < tree@.len() && tree@[ix as int].id == id,
            None => !id_set(tree@).contains(id),
        },
{
    let n = tree.len();
    let mut i: usize = 0;
    while i < n
        invariant
            n == tree@.len(),
            0 <= i <= n,
            forall|j: int| 0 <= j < i ==> (#[trigger] tree@[j]).id != id,
        decreases n - i,
    {
        if tree[i].id == id {
            return Some(i);
        }
        i = i + 1;
    }
    proof {
        assert forall|j: int| 0 <= j < ids_of(tree@).len() implies ids_of(tree@)[j] != id by {
            assert(ids_of(tree@)[j] == tree@[j].id);
        }
        assert(!ids_of(tree@).contains(id));
    }
    None
}

impl Mapper {
    /// Every registered block references only blocks registered before it.
    pub open spec fn blocks_nested(self) -> bool {
        forall|j: int, e: int|
            0 <= j < self.blocks@.len() && 0 <= e < (
            #[trigger] self.blocks@[j]).blocks.entries_seq().len() ==> (
            #[trigger] self.blocks@[j].blocks.entries_seq()[e]).1 < j
    }

    /// An id greater than every registered node's id, or nothing when the
    /// id space is used up.
    #[verifier::loop_isolation(false)]
    fn try_unique_block_id(&self) -> (r: Option<usize>)
        ensures
            match r {
                Some(v) => forall|i: int|
                    0 <= i < self.nodes@.len() ==> (#[trigger] self.nodes@[i]).id < v,
                None => id_space_full(*self),
            },
    {
        let n = self.nodes.len();
        let mut true_max: usize = 0;
        let mut i: usize = 0;
        while i < n
            invariant
                n == self.nodes@.len(),
                0 <= i <= n,
                forall|j: int| 0 <= j < i ==> (#[trigger] self.nodes@[j]).id <= true_max,
                true_max == 0 || exists|j: int|
                    0 <= j < i && (#[trigger] self.nodes@[j]).id == true_max,
            decreases n - i,
        {
            if self.nodes[i].id > true_max {
                true_max = self.nodes[i].id;
            }
            i = i + 1;
        }
        if true_max == usize::MAX {
            proof {
                let j = choose|j: int|
                    0 <= j < n && (#[trigger] self.nodes@[j]).id == true_max;
                assert(self.nodes@[j].id == usize::MAX);
            }
            None
        } else {
            Some(true_max + 1)
        }
    }
}

/// One call edge of `n` is covered: it leads to the node itself, to an
/// ancestor on `path`, to a present child, or out of the tree.
pub open spec fn call_covered(n: Node, node_id: usize, path: Set<usize>, tree_ids: Set<usize>, k: usize) -> bool {
    ||| n.calls@[k] == node_id
    ||| path.contains(n.calls@[k])
    ||| n.has_child_key(n.calls@[k])
    ||| !tree_ids.contains(n.calls@[k])
}

/// Every tree node is a walked function: well formed, without children.
pub open spec fn tree_walked(tree: Seq<Node>) -> bool {
    forall|c: int|
        0 <= c < tree.len() ==> (#[trigger] tree[c]).maps_wf() && tree[c].children_unique()
            && tree[c].children@.len() == 0
}

/// Every registered block is a walked region: well formed, without
/// children, referencing only blocks registered before it.
pub open spec fn blocks_walked(m: Mapper) -> bool {
    forall|j: int|
        0 <= j < m.blocks@.len() ==> (#[trigger] m.blocks@[j]).maps_wf()
            && m.blocks@[j].children_unique() && m.blocks@[j].children@.len() == 0
}

impl Mapper {
    /// Recursively discovers and normalizes structure in the given
    /// function node.
    ///
    /// Inline blocks are lifted out, later byte positions first: each
    /// becomes a first-class node under a fresh id, its bytes leave the
    /// function's byte image, a call edge to it is recorded at its
    /// position, and it is expanded and attached as a child. Call edges
    /// are then resolved: a self reference, a reference loop through
    /// `path`, an already attached callee and a callee outside the tree
    /// are skipped (the edge stays); any other callee is expanded
    /// recursively and attached as a child by value.
    #[verifier::loop_isolation(false)]
    pub(crate) fn expand_func_tree_helper(
        &mut self,
        func: Node,
        node_id: usize,
        tree: &Vec<Node>,
        path: &Vec<usize>,
    ) -> (r: Result<Node, MapError>)
        requires
            func.wf(),
            func.children_unique(),
            func.id == node_id,
            !path@.to_set().contains(node_id),
            tree_wf(tree@),
            old(self).blocks_nested(),
            blocks_walked(*old(self)),
            tree_ids_registered(tree@, *old(self)),
            path_ids_registered(path@, *old(self)),
            id_registered(*old(self), node_id),
        ensures
            final(self).blocks == old(self).blocks,
            final(self).nodes@.len() >= old(self).nodes@.len(),
            final(self).nodes@.subrange(0, old(self).nodes@.len() as int) == old(self).nodes@,
            r is Err ==> id_space_full(*final(self)),
            func.blocks.entries_seq().len() == 0 && tree_no_blocks(tree@) ==> r is Ok,
            match r {
                Ok(out) => {
                    &&& out.wf()
                    &&& out.maps_wf()
                    &&& out.children_unique()
                    &&& out.id == node_id
                    &&& out.blocks.entries_seq().len() == 0
                    &&& out == (Node {
                        instrs: out.instrs,
                        calls: out.calls,
                        blocks: out.blocks,
                        children: out.children,
                        ..func
                    })
                    &&& forall|k: usize|
                        #[trigger] out.calls@.contains_key(k) ==> call_covered(
                            out,
                            node_id,
                            path@.to_set(),
                            id_set(tree@),
                            k,
                        )
                    &&& (func.blocks.entries_seq().len() == 0 ==> out.calls == func.calls
                        && out.instrs == func.instrs)
                    &&& forall|k: usize|
                        #[trigger] func.calls@.contains_key(k) ==> out.calls@.contains_key(k)
                    &&& forall|k: usize|
                        func.calls@.contains_key(k) && !func.blocks@.contains_key(k)
                            ==> #[trigger] out.calls@[k] == func.calls@[k]
                    &&& (func.children@.len() == 0 && func.blocks.entries_seq().len() == 0
                        ==> forall|i: int|
                        0 <= i < out.children.len() ==> crate::node::map_has_value(
                            out.calls,
                            (#[trigger] out.children[i]).0,
                        ))
                    // each lifted block: a call edge at its byte position
                    // to a fresh first-class id, registered and attached
                    &&& forall|e: int|
                        0 <= e < func.blocks.entries_seq().len() && (
                        #[trigger] func.blocks.entries_seq()[e]).1 < old(self).blocks@.len() ==> {
                            &&& out.calls@.contains_key(func.blocks.entries_seq()[e].0)
                            &&& out.has_child_key(out.calls@[func.blocks.entries_seq()[e].0])
                            &&& id_registered(
                                *final(self),
                                out.calls@[func.blocks.entries_seq()[e].0],
                            )
                            &&& forall|i: int|
                                0 <= i < old(self).nodes@.len() ==> (
                                #[trigger] old(self).nodes@[i]).id < out.calls@[
                                    func.blocks.entries_seq()[e].0
                                ]
                        }
                    &&& (func.children@.len() == 0 && tree_walked(tree@) ==> feed_forward(
                        out,
                        path@.to_set(),
                        id_set(tree@),
                    ))
                    &&& (feed_forward(func, path@.to_set(), id_set(tree@)) ==> out == func
                        && *final(self) == *old(self))
                },
                Err(_) => true,
            },
        decreases
                id_set(tree@).difference(path@.to_set().insert(node_id)).len(),
                1int,
                0int,
    {
        let ghost ps = path@.to_set();
        let ghost tids = id_set(tree@);
        let ghost f0 = func;
        let ghost m0 = *old(self);
        let mut func = func;

        // lift inline blocks into first-class nodes, later positions first
        let nb = func.get_blocks().len();
        let mut bi: usize = nb;
        while bi > 0
            invariant
                0 <= bi <= nb,
                func.wf(),
                func.maps_wf(),
                func.children_unique(),
                func.id == node_id,
                func.blocks == f0.blocks,
                nb == func.blocks.entries_seq().len(),
                func == (Node {
                    instrs: func.instrs,
                    calls: func.calls,
                    children: func.children,
                    ..f0
                }),
                self.blocks == m0.blocks,
                self.blocks_nested(),
                blocks_walked(*self),
                tree_ids_registered(tree@, *self),
                path_ids_registered(path@, *self),
                id_registered(*self, node_id),
                self.nodes@.len() >= m0.nodes@.len(),
                self.nodes@.subrange(0, m0.nodes@.len() as int) == m0.nodes@,
                f0.children@.len() == 0 && tree_walked(tree@) ==> forall|i: int|
                    0 <= i < func.children.len() ==> (#[trigger] func.children[i]).0
                        == func.children[i].1.id && feed_forward(
                        func.children[i].1,
                        ps.insert(node_id),
                        tids,
                    ),
                forall|k: usize|
                    #[trigger] func.calls@.contains_key(k) ==> (f0.calls@.contains_key(k)
                        && func.calls@[k] == f0.calls@[k]) || call_covered(
                        func,
                        node_id,
                        ps,
                        tids,
                        k,
                    ),
                f0.blocks.entries_seq().len() == 0 ==> func.calls == f0.calls && func.instrs
                    == f0.instrs && func.children == f0.children,
                forall|e: int|
                    bi <= e < nb && (#[trigger] f0.blocks.entries_seq()[e]).1
                        < m0.blocks@.len() ==> {
                        &&& func.calls@.contains_key(f0.blocks.entries_seq()[e].0)
                        &&& func.has_child_key(func.calls@[f0.blocks.entries_seq()[e].0])
                        &&& id_registered(*self, func.calls@[f0.blocks.entries_seq()[e].0])
                        &&& forall|i: int|
                            0 <= i < m0.nodes@.len() ==> (#[trigger] m0.nodes@[i]).id
                                < func.calls@[f0.blocks.entries_seq()[e].0]
                    },
                forall|k: usize|
                    #[trigger] f0.calls@.contains_key(k) ==> func.calls@.contains_key(k),
                forall|k: usize|
                    f0.calls@.contains_key(k) && !f0.blocks@.contains_key(k)
                        ==> #[trigger] func.calls@[k] == f0.calls@[k],
                feed_forward(f0, ps, tids) ==> func == f0 && *self == m0,
            decreases bi,
        {
            bi = bi - 1;
            let ghost prev_func = func;
            let ghost prev_self = *self;
            let pos = func.get_blocks().key_at(bi);
            let reg_ix = func.get_blocks().val_at(bi);
            if reg_ix < self.get_blocks().len() {
                let mut block = self.get_block(reg_ix).duplicate();
                proof {
                    crate::node::lemma_equiv_wf(prev_self.blocks@[reg_ix as int], block);
                }
                match self.try_unique_block_id() {
                    Some(block_id) => {
                        block.set_id(block_id);
                        // split the block's bytes out of this node's image
                        let inner_end = block.get_end();
                        let fstart = func.get_start();
                        if pos >= fstart && inner_end >= pos {
                            let rel_start = pos - fstart;
                            let rel_end = inner_end - fstart;
                            if rel_start <= func.get_instrs().len() {
                                func.remove_instrs(rel_start, rel_end);
                            }
                        }
                        // register a call edge to the lifted block
                        func.add_call(pos, block_id);
                        // register the block as a first-class node
                        let registered = block.duplicate();
                        proof {
                            crate::node::lemma_equiv_wf(block, registered);
                            assert(!tids.contains(block_id)) by {
                                if tids.contains(block_id) {
                                    assert(ids_of(tree@).contains(block_id));
                                    let c = choose|c: int|
                                        0 <= c < ids_of(tree@).len() && #[trigger] ids_of(tree@)[c]
                                            == block_id;
                                    assert(ids_of(tree@).len() == tree@.len());
                                    assert(ids_of(tree@)[c] == tree@[c].id);
                                    assert(tree@[c].id == block_id);
                                    let i = choose|i: int|
                                        0 <= i < self.nodes@.len() && (#[trigger] self.nodes@[i]).id
                                            == tree@[c].id;
                                    assert(self.nodes@[i].id < block_id);
                                }
                            }
                            assert(!ps.contains(block_id)) by {
                                if ps.contains(block_id) {
                                    let c = choose|c: int|
                                        0 <= c < path@.len() && path@[c] == block_id;
                                    let i = choose|i: int|
                                        0 <= i < self.nodes@.len() && (#[trigger] self.nodes@[i]).id
                                            == path@[c];
                                }
                            }
                        }
                        self.nodes.push(registered);
                        proof {
                            assert(self.nodes@.subrange(0, m0.nodes@.len() as int)
                                =~= m0.nodes@);
                            assert forall|c: int| 0 <= c < tree@.len() implies id_registered(
                                *self,
                                (#[trigger] tree@[c]).id,
                            ) by {
                                let i = choose|i: int|
                                    0 <= i < prev_self.nodes@.len() && (
                                    #[trigger] prev_self.nodes@[i]).id == tree@[c].id;
                                assert(self.nodes@[i].id == tree@[c].id);
                            }
                            assert forall|c: int| 0 <= c < path@.len() implies id_registered(
                                *self,
                                #[trigger] path@[c],
                            ) by {
                                let i = choose|i: int|
                                    0 <= i < prev_self.nodes@.len() && (
                                    #[trigger] prev_self.nodes@[i]).id == path@[c];
                                assert(self.nodes@[i].id == path@[c]);
                            }
                        }
                        let path2 = copied_push(path, node_id);
                        proof {
                            lemma_push_to_set(path@, node_id);
                            assert(path2@.to_set() == ps.insert(node_id));
                            assert(id_set(tree@).difference(path2@.to_set().insert(block_id))
                                =~= id_set(tree@).difference(path@.to_set().insert(node_id)));
                            assert forall|c: int| 0 <= c < path2@.len() implies id_registered(
                                *self,
                                #[trigger] path2@[c],
                            ) by {
                                if c < path@.len() {
                                    assert(id_registered(*self, path@[c]));
                                } else {
                                    let i = choose|i: int|
                                        0 <= i < m0.nodes@.len() && (#[trigger] m0.nodes@[i]).id
                                            == node_id;
                                    assert(self.nodes@[i].id == node_id);
                                }
                            }
                        }
                        let ghost mid_self = *self;
                        proof {
                            assert(self.nodes@[self.nodes@.len() - 1].id == block_id);
                            assert forall|e: int|
                                0 <= e < block.blocks.entries_seq().len() implies (
                            #[trigger] block.blocks.entries_seq()[e]).1 < reg_ix as int by {
                                assert(block.blocks.entries_seq()
                                    == prev_self.blocks@[reg_ix as int].blocks.entries_seq());
                            }
                            assert(block.children@.len() == 0);
                        }
                        match self.expand_block_tree_helper(
                            block,
                            block_id,
                            tree,
                            &path2,
                            Ghost(reg_ix as int),
                        ) {
                            Ok(expanded) => {
                                let ghost before_child = func;
                                func.add_child(block_id, expanded);
                                proof {
                                    lemma_child_key_monotone(
                                        before_child,
                                        func,
                                        block_id,
                                        expanded,
                                    );
                                    lemma_wf_after_add(before_child, func, block_id, expanded);
                                    if f0.children@.len() == 0 && tree_walked(tree@) {
                                        lemma_children_ff_after_add(
                                            before_child,
                                            func,
                                            block_id,
                                            expanded,
                                            ps.insert(node_id),
                                            tids,
                                        );
                                    }
                                    // the lift just performed, and the
                                    // lifts already recorded
                                    assert(self.nodes@.subrange(
                                        0,
                                        prev_self.nodes@.len() as int,
                                    ) =~= prev_self.nodes@) by {
                                        assert(self.nodes@.subrange(
                                            0,
                                            mid_self.nodes@.len() as int,
                                        ) == mid_self.nodes@);
                                    }
                                    assert(id_registered(*self, block_id)) by {
                                        assert(mid_self.nodes@[mid_self.nodes@.len() - 1].id
                                            == block_id);
                                        lemma_id_registered_monotone(mid_self, *self, block_id);
                                    }
                                    assert forall|e: int|
                                        bi <= e < nb && (
                                    #[trigger] f0.blocks.entries_seq()[e]).1
                                        < m0.blocks@.len() implies {
                                        &&& func.calls@.contains_key(
                                            f0.blocks.entries_seq()[e].0,
                                        )
                                        &&& func.has_child_key(
                                            func.calls@[f0.blocks.entries_seq()[e].0],
                                        )
                                        &&& id_registered(
                                            *self,
                                            func.calls@[f0.blocks.entries_seq()[e].0],
                                        )
                                        &&& forall|i: int|
                                            0 <= i < m0.nodes@.len() ==> (
                                            #[trigger] m0.nodes@[i]).id < func.calls@[
                                                f0.blocks.entries_seq()[e].0
                                            ]
                                    } by {
                                        if e == bi {
                                            assert(func.calls@[pos] == block_id);
                                            assert forall|i: int|
                                                0 <= i < m0.nodes@.len() implies (
                                            #[trigger] m0.nodes@[i]).id < block_id by {
                                                assert(prev_self.nodes@[i].id < block_id);
                                                assert(prev_self.nodes@[i] == m0.nodes@[i]);
                                            }
                                        } else {
                                            let p2 = f0.blocks.entries_seq()[e].0;
                                            assert(p2 != pos);
                                            assert(prev_func.calls@.contains_key(p2));
                                            assert(func.calls@[p2] == prev_func.calls@[p2]);
                                            lemma_id_registered_monotone(
                                                prev_self,
                                                *self,
                                                prev_func.calls@[p2],
                                            );
                                        }
                                    }
                                    assert forall|k: usize| #[trigger] func.calls@.contains_key(
                                        k,
                                    ) implies ((f0.calls@.contains_key(k) && func.calls@[k]
                                        == f0.calls@[k]) || call_covered(
                                        func,
                                        node_id,
                                        ps,
                                        tids,
                                        k,
                                    )) by {
                                        if k == pos {
                                            assert(func.calls@[k] == block_id);
                                            assert(func.has_child_key(block_id));
                                        } else {
                                            assert(prev_func.calls@.contains_key(k) ==> (
                                            f0.calls@.contains_key(k) && prev_func.calls@[k]
                                                == f0.calls@[k]) || call_covered(
                                                prev_func,
                                                node_id,
                                                ps,
                                                tids,
                                                k,
                                            ));
                                        }
                                    }
                                }
                            },
                            Err(e) => {
                                proof {
                                    assert(f0.blocks.entries_seq().len() > 0);
                                }
                                return Err(e);
                            },
                        }
                    },
                    None => {
                        proof {
                            assert(f0.blocks.entries_seq().len() > 0);
                        }
                        return Err(MapError::IdOverflow);
                    },
                }
            }
            proof {
                assert(self.nodes@.subrange(0, m0.nodes@.len() as int) =~= m0.nodes@);
                assert(feed_forward(f0, ps, tids) ==> false) by {
                    if feed_forward(f0, ps, tids) {
                        assert(f0.blocks.entries_seq().len() == 0);
                    }
                }
            }
        }
        // the blocks are normalized away
        if func.get_blocks().len() > 0 {
            func.blocks = KeyedMap::new();
        }

        // traverse calls searching for feed-forward execution paths
        let nc = func.get_calls().len();
        let ghost calls_snap = func.calls;
        let mut ci: usize = 0;
        while ci < nc
            invariant
                0 <= ci <= nc,
                func.wf(),
                func.maps_wf(),
                func.children_unique(),
                func.id == node_id,
                func.calls == calls_snap,
                nc == func.calls.entries_seq().len(),
                func.blocks.entries_seq().len() == 0,
                func == (Node {
                    instrs: func.instrs,
                    calls: func.calls,
                    blocks: func.blocks,
                    children: func.children,
                    ..f0
                }),
                self.blocks == m0.blocks,
                self.blocks_nested(),
                blocks_walked(*self),
                tree_ids_registered(tree@, *self),
                path_ids_registered(path@, *self),
                id_registered(*self, node_id),
                self.nodes@.len() >= m0.nodes@.len(),
                self.nodes@.subrange(0, m0.nodes@.len() as int) == m0.nodes@,
                f0.children@.len() == 0 && tree_walked(tree@) ==> forall|i: int|
                    0 <= i < func.children.len() ==> (#[trigger] func.children[i]).0
                        == func.children[i].1.id && feed_forward(
                        func.children[i].1,
                        ps.insert(node_id),
                        tids,
                    ),
                forall|e: int|
                    0 <= e < ci ==> call_covered(
                        func,
                        node_id,
                        ps,
                        tids,
                        (#[trigger] func.calls.entries_seq()[e]).0,
                    ),
                f0.blocks.entries_seq().len() == 0 ==> func.calls == f0.calls && func.instrs
                    == f0.instrs,
                forall|e: int|
                    0 <= e < f0.blocks.entries_seq().len() as int && (#[trigger] f0.blocks.entries_seq()[e]).1
                        < m0.blocks@.len() ==> {
                        &&& func.calls@.contains_key(f0.blocks.entries_seq()[e].0)
                        &&& func.has_child_key(func.calls@[f0.blocks.entries_seq()[e].0])
                        &&& id_registered(*self, func.calls@[f0.blocks.entries_seq()[e].0])
                        &&& forall|i: int|
                            0 <= i < m0.nodes@.len() ==> (#[trigger] m0.nodes@[i]).id
                                < func.calls@[f0.blocks.entries_seq()[e].0]
                    },
                forall|k: usize|
                    #[trigger] f0.calls@.contains_key(k) ==> func.calls@.contains_key(k),
                forall|k: usize|
                    f0.calls@.contains_key(k) && !f0.blocks@.contains_key(k)
                        ==> #[trigger] func.calls@[k] == f0.calls@[k],
                f0.children@.len() == 0 && f0.blocks.entries_seq().len() == 0 ==> forall|
                    i: int,
                |
                    0 <= i < func.children.len() ==> crate::node::map_has_value(
                        func.calls,
                        (#[trigger] func.children[i]).0,
                    ),
                forall|k: usize|
                    #[trigger] func.calls@.contains_key(k) ==> (f0.calls@.contains_key(k)
                        && func.calls@[k] == f0.calls@[k]) || call_covered(
                        func,
                        node_id,
                        ps,
                        tids,
                        k,
                    ),
                feed_forward(f0, ps, tids) ==> func == f0 && *self == m0,
            decreases nc - ci,
        {
            let ghost prev_func = func;
            let ghost prev_self = *self;
            let site = func.get_calls().key_at(ci);
            let callee = func.get_calls().val_at(ci);
            proof {
                func.calls.lemma_entry_view(ci as int);
            }
            if callee == node_id {
                // a self reference cannot be unrolled at compile time
            } else if vec_holds(path, callee) {
                // a reference loop cannot be unrolled at compile time
            } else if func.has_child(callee) {
                // an already attached callee is only referenced again
            } else {
                match find_node(tree, callee) {
                    Some(ix) => {
                        let target = tree[ix].duplicate();
                        proof {
                            crate::node::lemma_equiv_wf(tree@[ix as int], target);
                            assert(tids.contains(callee)) by {
                                assert(ids_of(tree@)[ix as int] == tree@[ix as int].id);
                                assert(ids_of(tree@).contains(callee));
                            }
                            assert(id_set(tree@).difference(
                                path@.push(node_id).to_set().insert(callee),
                            ).len() < id_set(tree@).difference(ps.insert(node_id)).len()) by {
                                lemma_push_to_set(path@, node_id);
                                id_set(tree@).lemma_set_insert_diff_decreases(
                                    ps.insert(node_id),
                                    callee,
                                );
                            }
                        }
                        let path2 = copied_push(path, node_id);
                        proof {
                            lemma_push_to_set(path@, node_id);
                            assert(path2@.to_set() == ps.insert(node_id));
                            assert forall|c: int| 0 <= c < path2@.len() implies id_registered(
                                *self,
                                #[trigger] path2@[c],
                            ) by {
                                if c < path@.len() {
                                    assert(id_registered(*self, path@[c]));
                                } else {
                                    let i = choose|i: int|
                                        0 <= i < m0.nodes@.len() && (#[trigger] m0.nodes@[i]).id
                                            == node_id;
                                    assert(self.nodes@[i].id == node_id);
                                }
                            }
                        }
                        match self.expand_func_tree_helper(target, callee, tree, &path2) {
                            Ok(child) => {
                                let ghost before_child = func;
                                func.add_child(callee, child);
                                proof {
                                    lemma_child_key_monotone(before_child, func, callee, child);
                                    lemma_wf_after_add(before_child, func, callee, child);
                                    assert forall|e: int|
                                        0 <= e < f0.blocks.entries_seq().len() && (
                                    #[trigger] f0.blocks.entries_seq()[e]).1
                                        < m0.blocks@.len() implies id_registered(
                                        *self,
                                        func.calls@[f0.blocks.entries_seq()[e].0],
                                    ) by {
                                        lemma_id_registered_monotone(
                                            prev_self,
                                            *self,
                                            func.calls@[f0.blocks.entries_seq()[e].0],
                                        );
                                    }
                                    if f0.children@.len() == 0 && f0.blocks.entries_seq().len()
                                        == 0 {
                                        func.calls.lemma_value_witness(site, callee);
                                        assert forall|i2: int|
                                            0 <= i2 < func.children.len() implies crate::node::map_has_value(
                                            func.calls,
                                            (#[trigger] func.children[i2]).0,
                                        ) by {
                                            if func.children[i2] != (callee, child) {
                                                if func.children@
                                                    != before_child.children@.push(
                                                    (callee, child),
                                                ) {
                                                    before_child.lemma_child_index(callee);
                                                    assert(i2 != before_child.child_index(
                                                        callee,
                                                    ));
                                                }
                                                assert(func.children@[i2]
                                                    == before_child.children@[i2]);
                                                assert(crate::node::map_has_value(
                                                    func.calls,
                                                    before_child.children[i2].0,
                                                ));
                                            }
                                        }
                                    }
                                    if f0.children@.len() == 0 && tree_walked(tree@) {
                                        lemma_children_ff_after_add(
                                            before_child,
                                            func,
                                            callee,
                                            child,
                                            ps.insert(node_id),
                                            tids,
                                        );
                                    }
                                }
                            },
                            Err(e) => {
                                proof {
                                    if f0.blocks.entries_seq().len() == 0 && tree_no_blocks(
                                        tree@,
                                    ) {
                                        assert(target.blocks.entries_seq().len()
                                            == tree@[ix as int].blocks.entries_seq().len());
                                        assert(false);
                                    }
                                }
                                return Err(e);
                            },
                        }
                    },
                    None => {
                        // the callee is not in the tree: the edge stays
                    },
                }
            }
            proof {
                assert(self.nodes@.subrange(0, m0.nodes@.len() as int) =~= m0.nodes@);
            }
            ci = ci + 1;
        }
        proof {
            assert forall|k: usize| #[trigger] func.calls@.contains_key(k) implies call_covered(
                func,
                node_id,
                ps,
                tids,
                k,
            ) by {
                func.calls.lemma_dom(k);
                let e = choose|e: int|
                    0 <= e < func.calls.entries_seq().len() && (
                    #[trigger] func.calls.entries_seq()[e]).0 == k;
                assert(call_covered(func, node_id, ps, tids, func.calls.entries_seq()[e].0));
            }
            if f0.children@.len() == 0 && tree_walked(tree@) {
                assert(feed_forward(func, ps, tids));
            }
        }
        Ok(func)
    }
}


impl Mapper {
    /// Recursively discovers and normalizes structure in the given
    /// lifted block, exactly as in a function node: inner blocks are
    /// lifted out first, then call edges are resolved.
    #[verifier::loop_isolation(false)]
    pub(crate) fn expand_block_tree_helper(
        &mut self,
        func: Node,
        node_id: usize,
        tree: &Vec<Node>,
        path: &Vec<usize>,
        Ghost(bound): Ghost<int>,
    ) -> (r: Result<Node, MapError>)
        requires
            func.wf(),
            func.children_unique(),
            func.id == node_id,
            !path@.to_set().contains(node_id),
            !id_set(tree@).contains(node_id),
            bound <= old(self).blocks@.len(),
            forall|e: int|
                0 <= e < func.blocks.entries_seq().len() ==> (
                #[trigger] func.blocks.entries_seq()[e]).1 < bound,
            tree_wf(tree@),
            old(self).blocks_nested(),
            blocks_walked(*old(self)),
            tree_ids_registered(tree@, *old(self)),
            path_ids_registered(path@, *old(self)),
            id_registered(*old(self), node_id),
        ensures
            final(self).blocks == old(self).blocks,
            final(self).nodes@.len() >= old(self).nodes@.len(),
            final(self).nodes@.subrange(0, old(self).nodes@.len() as int) == old(self).nodes@,
            r is Err ==> id_space_full(*final(self)),
            func.blocks.entries_seq().len() == 0 && tree_no_blocks(tree@) ==> r is Ok,
            match r {
                Ok(out) => {
                    &&& out.wf()
                    &&& out.maps_wf()
                    &&& out.children_unique()
                    &&& out.id == node_id
                    &&& out.blocks.entries_seq().len() == 0
                    &&& out == (Node {
                        instrs: out.instrs,
                        calls: out.calls,
                        blocks: out.blocks,
                        children: out.children,
                        ..func
                    })
                    &&& forall|k: usize|
                        #[trigger] out.calls@.contains_key(k) ==> call_covered(
                            out,
                            node_id,
                            path@.to_set(),
                            id_set(tree@),
                            k,
                        )
                    &&& (func.blocks.entries_seq().len() == 0 ==> out.calls == func.calls
                        && out.instrs == func.instrs)
                    &&& forall|k: usize|
                        #[trigger] func.calls@.contains_key(k) ==> out.calls@.contains_key(k)
                    &&& forall|k: usize|
                        func.calls@.contains_key(k) && !func.blocks@.contains_key(k)
                            ==> #[trigger] out.calls@[k] == func.calls@[k]
                    &&& (func.children@.len() == 0 && func.blocks.entries_seq().len() == 0
                        ==> forall|i: int|
                        0 <= i < out.children.len() ==> crate::node::map_has_value(
                            out.calls,
                            (#[trigger] out.children[i]).0,
                        ))
                    // each lifted block: a call edge at its byte position
                    // to a fresh first-class id, registered and attached
                    &&& forall|e: int|
                        0 <= e < func.blocks.entries_seq().len() && (
                        #[trigger] func.blocks.entries_seq()[e]).1 < old(self).blocks@.len() ==> {
                            &&& out.calls@.contains_key(func.blocks.entries_seq()[e].0)
                            &&& out.has_child_key(out.calls@[func.blocks.entries_seq()[e].0])
                            &&& id_registered(
                                *final(self),
                                out.calls@[func.blocks.entries_seq()[e].0],
                            )
                            &&& forall|i: int|
                                0 <= i < old(self).nodes@.len() ==> (
                                #[trigger] old(self).nodes@[i]).id < out.calls@[
                                    func.blocks.entries_seq()[e].0
                                ]
                        }
                    &&& (func.children@.len() == 0 && tree_walked(tree@) ==> feed_forward(
                        out,
                        path@.to_set(),
                        id_set(tree@),
                    ))
                    &&& (feed_forward(func, path@.to_set(), id_set(tree@)) ==> out == func
                        && *final(self) == *old(self))
                },
                Err(_) => true,
            },
        decreases
                id_set(tree@).difference(path@.to_set().insert(node_id)).len(),
                0int,
                bound,
    {
        let ghost ps = path@.to_set();
        let ghost tids = id_set(tree@);
        let ghost f0 = func;
        let ghost m0 = *old(self);
        let mut func = func;

        // lift inline blocks into first-class nodes, later positions first
        let nb = func.get_blocks().len();
        let mut bi: usize = nb;
        while bi > 0
            invariant
                0 <= bi <= nb,
                func.wf(),
                func.maps_wf(),
                func.children_unique(),
                func.id == node_id,
                func.blocks == f0.blocks,
                nb == func.blocks.entries_seq().len(),
                func == (Node {
                    instrs: func.instrs,
                    calls: func.calls,
                    children: func.children,
                    ..f0
                }),
                self.blocks == m0.blocks,
                self.blocks_nested(),
                blocks_walked(*self),
                tree_ids_registered(tree@, *self),
                path_ids_registered(path@, *self),
                id_registered(*self, node_id),
                self.nodes@.len() >= m0.nodes@.len(),
                self.nodes@.subrange(0, m0.nodes@.len() as int) == m0.nodes@,
                f0.children@.len() == 0 && tree_walked(tree@) ==> forall|i: int|
                    0 <= i < func.children.len() ==> (#[trigger] func.children[i]).0
                        == func.children[i].1.id && feed_forward(
                        func.children[i].1,
                        ps.insert(node_id),
                        tids,
                    ),
                forall|k: usize|
                    #[trigger] func.calls@.contains_key(k) ==> (f0.calls@.contains_key(k)
                        && func.calls@[k] == f0.calls@[k]) || call_covered(
                        func,
                        node_id,
                        ps,
                        tids,
                        k,
                    ),
                f0.blocks.entries_seq().len() == 0 ==> func.calls == f0.calls && func.instrs
                    == f0.instrs && func.children == f0.children,
                forall|e: int|
                    bi <= e < nb && (#[trigger] f0.blocks.entries_seq()[e]).1
                        < m0.blocks@.len() ==> {
                        &&& func.calls@.contains_key(f0.blocks.entries_seq()[e].0)
                        &&& func.has_child_key(func.calls@[f0.blocks.entries_seq()[e].0])
                        &&& id_registered(*self, func.calls@[f0.blocks.entries_seq()[e].0])
                        &&& forall|i: int|
                            0 <= i < m0.nodes@.len() ==> (#[trigger] m0.nodes@[i]).id
                                < func.calls@[f0.blocks.entries_seq()[e].0]
                    },
                forall|k: usize|
                    #[trigger] f0.calls@.contains_key(k) ==> func.calls@.contains_key(k),
                forall|k: usize|
                    f0.calls@.contains_key(k) && !f0.blocks@.contains_key(k)
                        ==> #[trigger] func.calls@[k] == f0.calls@[k],
                feed_forward(f0, ps, tids) ==> func == f0 && *self == m0,
            decreases bi,
        {
            bi = bi - 1;
            let ghost prev_func = func;
            let ghost prev_self = *self;
            let pos = func.get_blocks().key_at(bi);
            let reg_ix = func.get_blocks().val_at(bi);
            if reg_ix < self.get_blocks().len() {
                let mut block = self.get_block(reg_ix).duplicate();
                proof {
                    crate::node::lemma_equiv_wf(prev_self.blocks@[reg_ix as int], block);
                }
                match self.try_unique_block_id() {
                    Some(block_id) => {
                        block.set_id(block_id);
                        // split the block's bytes out of this node's image
                        let inner_end = block.get_end();
                        let fstart = func.get_start();
                        if pos >= fstart && inner_end >= pos {
                            let rel_start = pos - fstart;
                            let rel_end = inner_end - fstart;
                            if rel_start <= func.get_instrs().len() {
                                func.remove_instrs(rel_start, rel_end);
                            }
                        }
                        // register a call edge to the lifted block
                        func.add_call(pos, block_id);
                        // register the block as a first-class node
                        let registered = block.duplicate();
                        proof {
                            crate::node::lemma_equiv_wf(block, registered);
                            assert(!tids.contains(block_id)) by {
                                if tids.contains(block_id) {
                                    assert(ids_of(tree@).contains(block_id));
                                    let c = choose|c: int|
                                        0 <= c < ids_of(tree@).len() && #[trigger] ids_of(tree@)[c]
                                            == block_id;
                                    assert(ids_of(tree@).len() == tree@.len());
                                    assert(ids_of(tree@)[c] == tree@[c].id);
                                    assert(tree@[c].id == block_id);
                                    let i = choose|i: int|
                                        0 <= i < self.nodes@.len() && (#[trigger] self.nodes@[i]).id
                                            == tree@[c].id;
                                    assert(self.nodes@[i].id < block_id);
                                }
                            }
                            assert(!ps.contains(block_id)) by {
                                if ps.contains(block_id) {
                                    let c = choose|c: int|
                                        0 <= c < path@.len() && path@[c] == block_id;
                                    let i = choose|i: int|
                                        0 <= i < self.nodes@.len() && (#[trigger] self.nodes@[i]).id
                                            == path@[c];
                                }
                            }
                        }
                        self.nodes.push(registered);
                        proof {
                            assert(self.nodes@.subrange(0, m0.nodes@.len() as int)
                                =~= m0.nodes@);
                            assert forall|c: int| 0 <= c < tree@.len() implies id_registered(
                                *self,
                                (#[trigger] tree@[c]).id,
                            ) by {
                                let i = choose|i: int|
                                    0 <= i < prev_self.nodes@.len() && (
                                    #[trigger] prev_self.nodes@[i]).id == tree@[c].id;
                                assert(self.nodes@[i].id == tree@[c].id);
                            }
                            assert forall|c: int| 0 <= c < path@.len() implies id_registered(
                                *self,
                                #[trigger] path@[c],
                            ) by {
                                let i = choose|i: int|
                                    0 <= i < prev_self.nodes@.len() && (
                                    #[trigger] prev_self.nodes@[i]).id == path@[c];
                                assert(self.nodes@[i].id == path@[c]);
                            }
                        }
                        let path2 = copied_push(path, node_id);
                        proof {
                            lemma_push_to_set(path@, node_id);
                            assert(path2@.to_set() == ps.insert(node_id));
                            assert(id_set(tree@).difference(path2@.to_set().insert(block_id))
                                =~= id_set(tree@).difference(path@.to_set().insert(node_id)));
                            assert forall|c: int| 0 <= c < path2@.len() implies id_registered(
                                *self,
                                #[trigger] path2@[c],
                            ) by {
                                if c < path@.len() {
                                    assert(id_registered(*self, path@[c]));
                                } else {
                                    let i = choose|i: int|
                                        0 <= i < m0.nodes@.len() && (#[trigger] m0.nodes@[i]).id
                                            == node_id;
                                    assert(self.nodes@[i].id == node_id);
                                }
                            }
                        }
                        let ghost mid_self = *self;
                        proof {
                            assert(func.blocks.entries_seq()[bi as int].1 < bound);
                            assert(self.nodes@[self.nodes@.len() - 1].id == block_id);
                            assert forall|e: int|
                                0 <= e < block.blocks.entries_seq().len() implies (
                            #[trigger] block.blocks.entries_seq()[e]).1 < reg_ix as int by {
                                assert(block.blocks.entries_seq()
                                    == prev_self.blocks@[reg_ix as int].blocks.entries_seq());
                            }
                            assert(block.children@.len() == 0);
                        }
                        match self.expand_block_tree_helper(
                            block,
                            block_id,
                            tree,
                            &path2,
                            Ghost(reg_ix as int),
                        ) {
                            Ok(expanded) => {
                                let ghost before_child = func;
                                func.add_child(block_id, expanded);
                                proof {
                                    lemma_child_key_monotone(
                                        before_child,
                                        func,
                                        block_id,
                                        expanded,
                                    );
                                    lemma_wf_after_add(before_child, func, block_id, expanded);
                                    if f0.children@.len() == 0 && tree_walked(tree@) {
                                        lemma_children_ff_after_add(
                                            before_child,
                                            func,
                                            block_id,
                                            expanded,
                                            ps.insert(node_id),
                                            tids,
                                        );
                                    }
                                    // the lift just performed, and the
                                    // lifts already recorded
                                    assert(self.nodes@.subrange(
                                        0,
                                        prev_self.nodes@.len() as int,
                                    ) =~= prev_self.nodes@) by {
                                        assert(self.nodes@.subrange(
                                            0,
                                            mid_self.nodes@.len() as int,
                                        ) == mid_self.nodes@);
                                    }
                                    assert(id_registered(*self, block_id)) by {
                                        assert(mid_self.nodes@[mid_self.nodes@.len() - 1].id
                                            == block_id);
                                        lemma_id_registered_monotone(mid_self, *self, block_id);
                                    }
                                    assert forall|e: int|
                                        bi <= e < nb && (
                                    #[trigger] f0.blocks.entries_seq()[e]).1
                                        < m0.blocks@.len() implies {
                                        &&& func.calls@.contains_key(
                                            f0.blocks.entries_seq()[e].0,
                                        )
                                        &&& func.has_child_key(
                                            func.calls@[f0.blocks.entries_seq()[e].0],
                                        )
                                        &&& id_registered(
                                            *self,
                                            func.calls@[f0.blocks.entries_seq()[e].0],
                                        )
                                        &&& forall|i: int|
                                            0 <= i < m0.nodes@.len() ==> (
                                            #[trigger] m0.nodes@[i]).id < func.calls@[
                                                f0.blocks.entries_seq()[e].0
                                            ]
                                    } by {
                                        if e == bi {
                                            assert(func.calls@[pos] == block_id);
                                            assert forall|i: int|
                                                0 <= i < m0.nodes@.len() implies (
                                            #[trigger] m0.nodes@[i]).id < block_id by {
                                                assert(prev_self.nodes@[i].id < block_id);
                                                assert(prev_self.nodes@[i] == m0.nodes@[i]);
                                            }
                                        } else {
                                            let p2 = f0.blocks.entries_seq()[e].0;
                                            assert(p2 != pos);
                                            assert(prev_func.calls@.contains_key(p2));
                                            assert(func.calls@[p2] == prev_func.calls@[p2]);
                                            lemma_id_registered_monotone(
                                                prev_self,
                                                *self,
                                                prev_func.calls@[p2],
                                            );
                                        }
                                    }
                                    assert forall|k: usize| #[trigger] func.calls@.contains_key(
                                        k,
                                    ) implies ((f0.calls@.contains_key(k) && func.calls@[k]
                                        == f0.calls@[k]) || call_covered(
                                        func,
                                        node_id,
                                        ps,
                                        tids,
                                        k,
                                    )) by {
                                        if k == pos {
                                            assert(func.calls@[k] == block_id);
                                            assert(func.has_child_key(block_id));
                                        } else {
                                            assert(prev_func.calls@.contains_key(k) ==> (
                                            f0.calls@.contains_key(k) && prev_func.calls@[k]
                                                == f0.calls@[k]) || call_covered(
                                                prev_func,
                                                node_id,
                                                ps,
                                                tids,
                                                k,
                                            ));
                                        }
                                    }
                                }
                            },
                            Err(e) => {
                                proof {
                                    assert(f0.blocks.entries_seq().len() > 0);
                                }
                                return Err(e);
                            },
                        }
                    },
                    None => {
                        proof {
                            assert(f0.blocks.entries_seq().len() > 0);
                        }
                        return Err(MapError::IdOverflow);
                    },
                }
            }
            proof {
                assert(self.nodes@.subrange(0, m0.nodes@.len() as int) =~= m0.nodes@);
                assert(feed_forward(f0, ps, tids) ==> false) by {
                    if feed_forward(f0, ps, tids) {
                        assert(f0.blocks.entries_seq().len() == 0);
                    }
                }
            }
        }
        // the blocks are normalized away
        if func.get_blocks().len() > 0 {
            func.blocks = KeyedMap::new();
        }

        // traverse calls searching for feed-forward execution paths
        let nc = func.get_calls().len();
        let ghost calls_snap = func.calls;
        let mut ci: usize = 0;
        while ci < nc
            invariant
                0 <= ci <= nc,
                func.wf(),
                func.maps_wf(),
                func.children_unique(),
                func.id == node_id,
                func.calls == calls_snap,
                nc == func.calls.entries_seq().len(),
                func.blocks.entries_seq().len() == 0,
                func == (Node {
                    instrs: func.instrs,
                    calls: func.calls,
                    blocks: func.blocks,
                    children: func.children,
                    ..f0
                }),
                self.blocks == m0.blocks,
                self.blocks_nested(),
                blocks_walked(*self),
                tree_ids_registered(tree@, *self),
                path_ids_registered(path@, *self),
                id_registered(*self, node_id),
                self.nodes@.len() >= m0.nodes@.len(),
                self.nodes@.subrange(0, m0.nodes@.len() as int) == m0.nodes@,
                f0.children@.len() == 0 && tree_walked(tree@) ==> forall|i: int|
                    0 <= i < func.children.len() ==> (#[trigger] func.children[i]).0
                        == func.children[i].1.id && feed_forward(
                        func.children[i].1,
                        ps.insert(node_id),
                        tids,
                    ),
                forall|e: int|
                    0 <= e < ci ==> call_covered(
                        func,
                        node_id,
                        ps,
                        tids,
                        (#[trigger] func.calls.entries_seq()[e]).0,
                    ),
                f0.blocks.entries_seq().len() == 0 ==> func.calls == f0.calls && func.instrs
                    == f0.instrs,
                forall|e: int|
                    0 <= e < f0.blocks.entries_seq().len() as int && (#[trigger] f0.blocks.entries_seq()[e]).1
                        < m0.blocks@.len() ==> {
                        &&& func.calls@.contains_key(f0.blocks.entries_seq()[e].0)
                        &&& func.has_child_key(func.calls@[f0.blocks.entries_seq()[e].0])
                        &&& id_registered(*self, func.calls@[f0.blocks.entries_seq()[e].0])
                        &&& forall|i: int|
                            0 <= i < m0.nodes@.len() ==> (#[trigger] m0.nodes@[i]).id
                                < func.calls@[f0.blocks.entries_seq()[e].0]
                    },
                forall|k: usize|
                    #[trigger] f0.calls@.contains_key(k) ==> func.calls@.contains_key(k),
                forall|k: usize|
                    f0.calls@.contains_key(k) && !f0.blocks@.contains_key(k)
                        ==> #[trigger] func.calls@[k] == f0.calls@[k],
                f0.children@.len() == 0 && f0.blocks.entries_seq().len() == 0 ==> forall|
                    i: int,
                |
                    0 <= i < func.children.len() ==> crate::node::map_has_value(
                        func.calls,
                        (#[trigger] func.children[i]).0,
                    ),
                forall|k: usize|
                    #[trigger] func.calls@.contains_key(k) ==> (f0.calls@.contains_key(k)
                        && func.calls@[k] == f0.calls@[k]) || call_covered(
                        func,
                        node_id,
                        ps,
                        tids,
                        k,
                    ),
                feed_forward(f0, ps, tids) ==> func == f0 && *self == m0,
            decreases nc - ci,
        {
            let ghost prev_func = func;
            let ghost prev_self = *self;
            let site = func.get_calls().key_at(ci);
            let callee = func.get_calls().val_at(ci);
            proof {
                func.calls.lemma_entry_view(ci as int);
            }
            if callee == node_id {
                // a self reference cannot be unrolled at compile time
            } else if vec_holds(path, callee) {
                // a reference loop cannot be unrolled at compile time
            } else if func.has_child(callee) {
                // an already attached callee is only referenced again
            } else {
                match find_node(tree, callee) {
                    Some(ix) => {
                        let target = tree[ix].duplicate();
                        proof {
                            crate::node::lemma_equiv_wf(tree@[ix as int], target);
                            assert(tids.contains(callee)) by {
                                assert(ids_of(tree@)[ix as int] == tree@[ix as int].id);
                                assert(ids_of(tree@).contains(callee));
                            }
                            assert(id_set(tree@).difference(
                                path@.push(node_id).to_set().insert(callee),
                            ).len() < id_set(tree@).difference(ps.insert(node_id)).len()) by {
                                lemma_push_to_set(path@, node_id);
                                id_set(tree@).lemma_set_insert_diff_decreases(
                                    ps.insert(node_id),
                                    callee,
                                );
                            }
                        }
                        let path2 = copied_push(path, node_id);
                        proof {
                            lemma_push_to_set(path@, node_id);
                            assert(path2@.to_set() == ps.insert(node_id));
                            assert forall|c: int| 0 <= c < path2@.len() implies id_registered(
                                *self,
                                #[trigger] path2@[c],
                            ) by {
                                if c < path@.len() {
                                    assert(id_registered(*self, path@[c]));
                                } else {
                                    let i = choose|i: int|
                                        0 <= i < m0.nodes@.len() && (#[trigger] m0.nodes@[i]).id
                                            == node_id;
                                    assert(self.nodes@[i].id == node_id);
                                }
                            }
                        }
                        match self.expand_func_tree_helper(target, callee, tree, &path2) {
                            Ok(child) => {
                                let ghost before_child = func;
                                func.add_child(callee, child);
                                proof {
                                    lemma_child_key_monotone(before_child, func, callee, child);
                                    lemma_wf_after_add(before_child, func, callee, child);
                                    assert forall|e: int|
                                        0 <= e < f0.blocks.entries_seq().len() && (
                                    #[trigger] f0.blocks.entries_seq()[e]).1
                                        < m0.blocks@.len() implies id_registered(
                                        *self,
                                        func.calls@[f0.blocks.entries_seq()[e].0],
                                    ) by {
                                        lemma_id_registered_monotone(
                                            prev_self,
                                            *self,
                                            func.calls@[f0.blocks.entries_seq()[e].0],
                                        );
                                    }
                                    if f0.children@.len() == 0 && f0.blocks.entries_seq().len()
                                        == 0 {
                                        func.calls.lemma_value_witness(site, callee);
                                        assert forall|i2: int|
                                            0 <= i2 < func.children.len() implies crate::node::map_has_value(
                                            func.calls,
                                            (#[trigger] func.children[i2]).0,
                                        ) by {
                                            if func.children[i2] != (callee, child) {
                                                if func.children@
                                                    != before_child.children@.push(
                                                    (callee, child),
                                                ) {
                                                    before_child.lemma_child_index(callee);
                                                    assert(i2 != before_child.child_index(
                                                        callee,
                                                    ));
                                                }
                                                assert(func.children@[i2]
                                                    == before_child.children@[i2]);
                                                assert(crate::node::map_has_value(
                                                    func.calls,
                                                    before_child.children[i2].0,
                                                ));
                                            }
                                        }
                                    }
                                    if f0.children@.len() == 0 && tree_walked(tree@) {
                                        lemma_children_ff_after_add(
                                            before_child,
                                            func,
                                            callee,
                                            child,
                                            ps.insert(node_id),
                                            tids,
                                        );
                                    }
                                }
                            },
                            Err(e) => {
                                proof {
                                    if f0.blocks.entries_seq().len() == 0 && tree_no_blocks(
                                        tree@,
                                    ) {
                                        assert(target.blocks.entries_seq().len()
                                            == tree@[ix as int].blocks.entries_seq().len());
                                        assert(false);
                                    }
                                }
                                return Err(e);
                            },
                        }
                    },
                    None => {
                        // the callee is not in the tree: the edge stays
                    },
                }
            }
            proof {
                assert(self.nodes@.subrange(0, m0.nodes@.len() as int) =~= m0.nodes@);
            }
            ci = ci + 1;
        }
        proof {
            assert forall|k: usize| #[trigger] func.calls@.contains_key(k) implies call_covered(
                func,
                node_id,
                ps,
                tids,
                k,
            ) by {
                func.calls.lemma_dom(k);
                let e = choose|e: int|
                    0 <= e < func.calls.entries_seq().len() && (
                    #[trigger] func.calls.entries_seq()[e]).0 == k;
                assert(call_covered(func, node_id, ps, tids, func.calls.entries_seq()[e].0));
            }
            if f0.children@.len() == 0 && tree_walked(tree@) {
                assert(feed_forward(func, ps, tids));
            }
        }
        Ok(func)
    }
}

/// Field-for-field equal nodes are feed-forward together.
pub proof fn lemma_equiv_ff(a: Node, b: Node, path: Set<usize>, tids: Set<usize>)
    requires
        crate::node::node_equiv(a, b),
        feed_forward(a, path, tids),
    ensures
        feed_forward(b, path, tids),
    decreases a,
{
    crate::node::lemma_equiv_wf(a, b);
    assert forall|k: usize| #[trigger] b.calls@.contains_key(k) implies (b.calls@[k] == b.id
        || path.contains(b.calls@[k]) || b.has_child_key(b.calls@[k]) || !tids.contains(
        b.calls@[k],
    )) by {
        assert(a.calls@.contains_key(k));
        if a.has_child_key(a.calls@[k]) {
            let i = choose|i: int|
                0 <= i < a.children.len() && (#[trigger] a.children[i]).0 == a.calls@[k];
            assert(b.children[i].0 == a.calls@[k]);
            assert(b.has_child_key(b.calls@[k]));
        }
    }
    assert forall|i: int| 0 <= i < b.children.len() implies (#[trigger] b.children[i]).0
        == b.children[i].1.id && feed_forward(b.children[i].1, path.insert(b.id), tids) by {
        assert(a.children[i].0 == b.children[i].0);
        lemma_equiv_ff(a.children[i].1, b.children[i].1, path.insert(a.id), tids);
    }
}

impl Mapper {
    /// Expands each node of the provided tree: blocks become first-class
    /// child nodes and call edges are resolved into children, pruning self
    /// references and reference loops. On a tree of freshly walked
    /// functions the result is feed-forward; on a tree that is already
    /// feed-forward nothing changes.
    #[verifier::loop_isolation(false)]
    pub fn expand_tree(&mut self, nodes: Vec<Node>) -> (r: Result<Vec<Node>, MapError>)
        requires
            tree_wf(nodes@),
            old(self).blocks_nested(),
            blocks_walked(*old(self)),
            tree_ids_registered(nodes@, *old(self)),
        ensures
            final(self).blocks == old(self).blocks,
            final(self).nodes@.len() >= old(self).nodes@.len(),
            final(self).nodes@.subrange(0, old(self).nodes@.len() as int) == old(self).nodes@,
            r is Err ==> id_space_full(*final(self)),
            tree_no_blocks(nodes@) ==> r is Ok,
            match r {
                Ok(out) => {
                    &&& out@.len() == nodes@.len()
                    &&& (nodes@.len() == 0 ==> *final(self) == *old(self))
                    &&& forall|c: int| 0 <= c < out@.len() ==> (#[trigger] out@[c]).wf()
                    &&& forall|c: int|
                        0 <= c < out@.len() ==> (#[trigger] out@[c]).id == nodes@[c].id
                    &&& forall|c: int|
                        0 <= c < out@.len() ==> crate::node::node_core_eq(
                            nodes@[c],
                            #[trigger] out@[c],
                        )
                    &&& forall|c: int|
                        0 <= c < out@.len() && nodes@[c].blocks.entries_seq().len() == 0 ==> (
                        #[trigger] out@[c]).calls.entries_seq() == nodes@[c].calls.entries_seq()
                            && out@[c].instrs@ == nodes@[c].instrs@
                    &&& forall|c: int, k: usize|
                        0 <= c < out@.len() && nodes@[c].calls@.contains_key(k)
                            ==> #[trigger] out@[c].calls@.contains_key(k)
                    &&& forall|c: int, k: usize|
                        0 <= c < out@.len() && nodes@[c].calls@.contains_key(k) && !nodes@[
                            c
                        ].blocks@.contains_key(k) ==> #[trigger] out@[c].calls@[k] == nodes@[
                            c
                        ].calls@[k]
                    &&& forall|c: int|
                        0 <= c < out@.len() && nodes@[c].children@.len() == 0 && nodes@[
                            c
                        ].blocks.entries_seq().len() == 0 ==> forall|i: int|
                            0 <= i < (#[trigger] out@[c]).children.len()
                                ==> crate::node::map_has_value(
                                out@[c].calls,
                                (#[trigger] out@[c].children[i]).0,
                            )
                    &&& (tree_walked(nodes@) ==> forall|c: int|
                        0 <= c < out@.len() ==> feed_forward(
                            #[trigger] out@[c],
                            Set::<usize>::empty(),
                            id_set(nodes@),
                        ))
                    &&& ((forall|c: int|
                        0 <= c < nodes@.len() ==> feed_forward(
                            #[trigger] nodes@[c],
                            Set::<usize>::empty(),
                            id_set(nodes@),
                        )) ==> (*final(self) == *old(self) && forall|c: int|
                        0 <= c < out@.len() ==> crate::node::node_equiv(
                            nodes@[c],
                            #[trigger] out@[c],
                        )))
                },
                Err(_) => true,
            },
    {
        let ghost m0 = *old(self);
        let empty_path: Vec<usize> = Vec::new();
        let mut out: Vec<Node> = Vec::new();
        let nf = nodes.len();
        let mut c: usize = 0;
        while c < nf
            invariant
                0 <= c <= nf,
                nf == nodes@.len(),
                out@.len() == c,
                self.blocks == m0.blocks,
                self.blocks_nested(),
                blocks_walked(*self),
                tree_ids_registered(nodes@, *self),
                self.nodes@.len() >= m0.nodes@.len(),
                self.nodes@.subrange(0, m0.nodes@.len() as int) == m0.nodes@,
                forall|i: int| 0 <= i < c ==> (#[trigger] out@[i]).wf(),
                forall|i: int| 0 <= i < c ==> (#[trigger] out@[i]).id == nodes@[i].id,
                forall|i: int|
                    0 <= i < c && nodes@[i].blocks.entries_seq().len() == 0 ==> (
                    #[trigger] out@[i]).calls.entries_seq() == nodes@[i].calls.entries_seq()
                        && out@[i].instrs@ == nodes@[i].instrs@,
                forall|i: int, k: usize|
                    0 <= i < c && nodes@[i].calls@.contains_key(k)
                        ==> #[trigger] out@[i].calls@.contains_key(k),
                forall|i: int, k: usize|
                    0 <= i < c && nodes@[i].calls@.contains_key(k) && !nodes@[
                        i
                    ].blocks@.contains_key(k) ==> #[trigger] out@[i].calls@[k] == nodes@[
                        i
                    ].calls@[k],
                forall|i: int|
                    0 <= i < c && nodes@[i].children@.len() == 0 && nodes@[
                        i
                    ].blocks.entries_seq().len() == 0 ==> forall|i2: int|
                        0 <= i2 < (#[trigger] out@[i]).children.len()
                            ==> crate::node::map_has_value(
                            out@[i].calls,
                            (#[trigger] out@[i].children[i2]).0,
                        ),
                forall|i: int|
                    0 <= i < c ==> crate::node::node_core_eq(nodes@[i], #[trigger] out@[i]),
                tree_walked(nodes@) ==> forall|i: int|
                    0 <= i < c ==> feed_forward(
                        #[trigger] out@[i],
                        Set::<usize>::empty(),
                        id_set(nodes@),
                    ),
                (forall|i: int|
                    0 <= i < nodes@.len() ==> feed_forward(
                        #[trigger] nodes@[i],
                        Set::<usize>::empty(),
                        id_set(nodes@),
                    )) ==> (*self == m0 && forall|i: int|
                    0 <= i < c ==> crate::node::node_equiv(nodes@[i], #[trigger] out@[i])),
            decreases nf - c,
        {
            let func = nodes[c].duplicate();
            proof {
                crate::node::lemma_equiv_wf(nodes@[c as int], func);
                assert(Seq::<usize>::empty().to_set() =~= Set::<usize>::empty());
                if forall|i: int|
                    0 <= i < nodes@.len() ==> feed_forward(
                        #[trigger] nodes@[i],
                        Set::<usize>::empty(),
                        id_set(nodes@),
                    ) {
                    lemma_equiv_ff(nodes@[c as int], func, Set::<usize>::empty(), id_set(nodes@));
                }
            }
            match self.expand_func_tree_helper(func, nodes[c].id, &nodes, &empty_path) {
                Ok(node) => {
                    proof {
                        if forall|i: int|
                            0 <= i < nodes@.len() ==> feed_forward(
                                #[trigger] nodes@[i],
                                Set::<usize>::empty(),
                                id_set(nodes@),
                            ) {
                            assert(node == func);
                        }
                        if tree_walked(nodes@) {
                            assert(func.children@.len() == 0);
                        }
                    }
                    proof {
                        assert(func.calls.entries_seq() == nodes@[c as int].calls.entries_seq());
                        assert(func.blocks.entries_seq() == nodes@[c as int].blocks.entries_seq());
                        assert(func.instrs@ == nodes@[c as int].instrs@);
                        func.calls.lemma_view_from_entries(nodes@[c as int].calls);
                        func.blocks.lemma_view_from_entries(nodes@[c as int].blocks);
                    }
                    out.push(node);
                },
                Err(e) => {
                    return Err(e);
                },
            }
            c = c + 1;
        }
        Ok(out)
    }
}

/// Every call edge of a feed-forward node that leads into the tree leads
/// to the node itself, to an ancestor, or to a present child: after
/// expansion there are no dangling calls besides self references and
/// back-edges.
pub proof fn lemma_calls_resolved(n: Node, path: Set<usize>, tids: Set<usize>, k: usize)
    requires
        feed_forward(n, path, tids),
        n.calls@.contains_key(k),
        tids.contains(n.calls@[k]),
    ensures
        n.calls@[k] == n.id || path.contains(n.calls@[k]) || n.has_child_key(n.calls@[k]),
{
}

/// Along any chain of children from a feed-forward node, no id is ever
/// revisited: the expanded graph is acyclic, and a depth-first search
/// from any root terminates without meeting a node twice on its path.
pub open spec fn ids_fresh_along_paths(n: Node, ancestors: Set<usize>) -> bool
    decreases n,
{
    &&& !ancestors.contains(n.id)
    &&& forall|i: int|
        0 <= i < n.children.len() ==> ids_fresh_along_paths(
            (#[trigger] n.children[i]).1,
            ancestors.insert(n.id),
        )
}

pub proof fn lemma_expanded_graph_acyclic(n: Node, path: Set<usize>, tids: Set<usize>)
    requires
        feed_forward(n, path, tids),
    ensures
        ids_fresh_along_paths(n, path),
    decreases n,
{
    assert forall|i: int| 0 <= i < n.children.len() implies ids_fresh_along_paths(
        (#[trigger] n.children[i]).1,
        path.insert(n.id),
    ) by {
        lemma_expanded_graph_acyclic(n.children[i].1, path.insert(n.id), tids);
    }
}

/// A feed-forward node has distinct child keys at every depth.
pub proof fn lemma_ff_deep_unique(n: Node, path: Set<usize>, tids: Set<usize>)
    requires
        feed_forward(n, path, tids),
    ensures
        n.deep_unique(),
    decreases n,
{
    assert forall|i: int| 0 <= i < n.children.len() implies (
    #[trigger] n.children[i]).1.deep_unique() by {
        lemma_ff_deep_unique(n.children[i].1, path.insert(n.id), tids);
    }
}

} // verus!
