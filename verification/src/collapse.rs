//! The collapser: the optional inlining pass. Given a root node, each
//! call edge with a present child is resolved by splicing the child's
//! fully collapsed bytes into the root's byte image at the call site; the
//! call edge and the child then disappear. A call edge without a child is
//! left intact.

use vstd::prelude::*;
use crate::node::{copy_bytes, node_core_eq, Node};

verus! {

broadcast use vstd::std_specs::vec::group_vec_axioms, vstd::seq::group_seq_axioms;

/// The inlined byte image of a node with the call entries at indexes at
/// or above `i` resolved, highest byte positions first, so a splice never
/// moves the positions still to be spliced.
pub open spec fn collapse_from(n: Node, i: int) -> Seq<u8>
    decreases n, n.calls.entries_seq().len() - i,
    via check_collapse_from
{
    if i >= n.calls.entries_seq().len() {
        n.instrs@
    } else {
        let rest = collapse_from(n, i + 1);
        let site = n.calls.entries_seq()[i].0;
        let callee = n.calls.entries_seq()[i].1;
        if n.has_child_key(callee) && n.start <= site && site - n.start <= rest.len() {
            rest.take(site - n.start) + collapse_bytes(n.child_at(callee)) + rest.skip(
                site - n.start,
            )
        } else {
            rest
        }
    }
}

#[via_fn]
proof fn check_collapse_from(n: Node, i: int) {
    broadcast use vstd::std_specs::vec::group_vec_axioms;

    if i < n.calls.entries_seq().len() {
        let callee = n.calls.entries_seq()[i].1;
        if n.has_child_key(callee) {
            n.lemma_child_index(callee);
            let ix = n.child_index(callee);
            assert(decreases_to!(n.children => n.children[ix]));
        }
    }
}

/// The fully inlined byte image of a node: its own bytes with every
/// present child's image spliced in at its call site, applied recursively.
pub open spec fn collapse_bytes(n: Node) -> Seq<u8>
    decreases n, n.calls.entries_seq().len() + 1,
{
    collapse_from(n, 0)
}

/// Splices `mid` into `base` at offset `at`: the prefix of `base` up to
/// `at`, then `mid`, then the rest of `base` from `at` on.
fn splice_bytes(base: &Vec<u8>, at: usize, mid: &Vec<u8>) -> (r: Vec<u8>)
    requires
        at <= base.len(),
    ensures
        r@ == base@.take(at as int) + mid@ + base@.skip(at as int),
{
    let mut out = copy_range(base, 0, at);
    let mut i: usize = 0;
    let nm = mid.len();
    while i < nm
        invariant
            0 <= i <= nm,
            nm == mid@.len(),
            at <= base@.len(),
            out@ == base@.take(at as int) + mid@.subrange(0, i as int),
        decreases nm - i,
    {
        out.push(mid[i]);
        proof {
            assert(out@ =~= base@.take(at as int) + mid@.subrange(0, i + 1));
        }
        i = i + 1;
    }
    let nb = base.len();
    let mut j: usize = at;
    while j < nb
        invariant
            at <= j <= nb,
            nb == base@.len(),
            nm == mid@.len(),
            out@ == base@.take(at as int) + mid@ + base@.subrange(at as int, j as int),
        decreases nb - j,
    {
        out.push(base[j]);
        proof {
            assert(out@ =~= base@.take(at as int) + mid@ + base@.subrange(at as int, j + 1));
        }
        j = j + 1;
    }
    proof {
        assert(mid@.subrange(0, nm as int) =~= mid@);
        assert(base@.subrange(at as int, nb as int) =~= base@.skip(at as int));
        assert(out@ =~= base@.take(at as int) + mid@ + base@.skip(at as int));
    }
    out
}

/// Copies the byte range `[start, end)` of a vector.
fn copy_range(v: &Vec<u8>, start: usize, end: usize) -> (r: Vec<u8>)
    requires
        start <= end <= v.len(),
    ensures
        r@ == v@.subrange(start as int, end as int),
{
    let mut out: Vec<u8> = Vec::new();
    let mut i: usize = start;
    while i < end
        invariant
            start <= i <= end <= v@.len(),
            out@ == v@.subrange(start as int, i as int),
        decreases end - i,
    {
        out.push(v[i]);
        proof {
            assert(out@ =~= v@.subrange(start as int, i + 1));
        }
        i = i + 1;
    }
    out
}

/// A byte image with the range `[a, b)` dropped.
pub open spec fn removed_range(s: Seq<u8>, a: int, b: int) -> Seq<u8> {
    s.subrange(0, a) + s.subrange(b, s.len() as int)
}

/// Dropping a byte range and splicing the same bytes back restores the
/// original image: the round trip that ties a lifted block to the node it
/// was split out of.
pub proof fn lemma_remove_splice_roundtrip(s: Seq<u8>, a: int, b: int)
    requires
        0 <= a <= b <= s.len(),
    ensures
        removed_range(s, a, b).take(a) + s.subrange(a, b) + removed_range(s, a, b).skip(a) == s,
{
    let removed = removed_range(s, a, b);
    assert(removed.take(a) =~= s.subrange(0, a));
    assert(removed.skip(a) =~= s.subrange(b, s.len() as int));
    assert(removed.take(a) + s.subrange(a, b) + removed.skip(a) =~= s);
}

impl Node {
    /// Collapses the node: every call edge with a present child is
    /// resolved by inlining the child's collapsed bytes at the call site,
    /// and the edge and the child disappear; a call edge without a child
    /// stays. The resulting byte image is exactly `collapse_bytes`.
    #[verifier::loop_isolation(false)]
    pub fn collapse(&self) -> (r: Node)
        requires
            self.wf(),
            self.deep_unique(),
        ensures
            r.instrs@ == collapse_bytes(*self),
            node_core_eq(*self, r),
            r.maps_wf(),
            r.children_unique(),
            r.blocks.entries_seq() == self.blocks.entries_seq(),
            forall|k: usize|
                #[trigger] r.calls@.contains_key(k) ==> self.calls@.contains_key(k) && r.calls@[k]
                    == self.calls@[k],
            forall|k: usize|
                self.calls@.contains_key(k) && !self.has_child_key(self.calls@[k])
                    ==> #[trigger] r.calls@.contains_key(k),
            forall|k: usize| #[trigger] r.has_child_key(k) ==> self.has_child_key(k),
        decreases *self,
    {
        let nc = self.calls.len();
        let mut bytes = copy_bytes(&self.instrs);
        let mut removed_calls: Vec<usize> = Vec::new();
        let mut removed_children: Vec<usize> = Vec::new();
        let mut i: usize = nc;
        while i > 0
            invariant
                0 <= i <= nc,
                nc == self.calls.entries_seq().len(),
                bytes@ == collapse_from(*self, i as int),
                forall|x: int|
                    0 <= x < removed_calls@.len() ==> self.calls@.contains_key(
                        #[trigger] removed_calls@[x],
                    ) && self.has_child_key(self.calls@[removed_calls@[x]]),
                forall|e: int|
                    i <= e < nc && self.has_child_key((#[trigger] self.calls.entries_seq()[e]).1)
                        ==> removed_calls@.contains(self.calls.entries_seq()[e].0),
                forall|x: int|
                    0 <= x < removed_children@.len() ==> self.has_child_key(
                        #[trigger] removed_children@[x],
                    ),
            decreases i,
        {
            i = i - 1;
            let site = self.calls.key_at(i);
            let callee = self.calls.val_at(i);
            proof {
                self.calls.lemma_entry_view(i as int);
            }
            match self.get_child(callee) {
                Some(child) => {
                    let collapsed = child.collapse();
                    if site >= self.get_start() {
                        let rel = site - self.start;
                        if rel <= bytes.len() {
                            bytes = splice_bytes(&bytes, rel, &collapsed.instrs);
                            proof {
                                assert(bytes@ =~= collapse_from(*self, i as int));
                            }
                        }
                    }
                    let ghost prev_removed = removed_calls@;
                    removed_calls.push(site);
                    removed_children.push(callee);
                    proof {
                        assert(removed_calls@[removed_calls@.len() - 1] == site);
                        assert forall|e: int|
                            i <= e < nc && self.has_child_key(
                                (#[trigger] self.calls.entries_seq()[e]).1,
                            ) implies removed_calls@.contains(self.calls.entries_seq()[e].0) by {
                            if e > i {
                                assert(prev_removed.contains(self.calls.entries_seq()[e].0));
                                let x = choose|x: int|
                                    0 <= x < prev_removed.len() && prev_removed[x]
                                        == self.calls.entries_seq()[e].0;
                                assert(removed_calls@[x] == self.calls.entries_seq()[e].0);
                            } else {
                                assert(removed_calls@.contains(site));
                            }
                        }
                    }
                },
                None => {
                },
            }
        }
        let mut out = self.duplicate();
        proof {
            crate::node::lemma_equiv_wf(*self, out);
        }
        out.set_instrs(bytes);
        out.remove_calls(&removed_calls);
        out.remove_children(&removed_children);
        proof {
            assert forall|k: usize| #[trigger] out.calls@.contains_key(k) implies self.calls@.contains_key(
                k,
            ) && out.calls@[k] == self.calls@[k] by {
                assert(out.calls@ == self.calls@.remove_keys(removed_calls@.to_set()));
            }
            assert forall|k: usize|
                self.calls@.contains_key(k) && !self.has_child_key(
                    self.calls@[k],
                ) implies #[trigger] out.calls@.contains_key(k) by {
                if removed_calls@.to_set().contains(k) {
                    let x = choose|x: int|
                        0 <= x < removed_calls@.len() && removed_calls@[x] == k;
                    assert(self.has_child_key(self.calls@[k]));
                }
            }
        }
        out
    }
}

} // verus!
