//! The function/block walker and the operator classifier.
//!
//! The walker consumes the decoded operator events of one function body,
//! builds the node of the region it was started on, and recurses on
//! `block`, `loop` and `if` openers; a nested region shares the same event
//! cursor and advances it past the matching terminator. The classifier
//! maps every non-control operator to its effect on the current node.

use vstd::prelude::*;
use crate::mapper::{block_entry_ok, Mapper};
use crate::node::{lemma_keys_below_not_contains, map_has_value, vars_below, Node};
use crate::types::{AbstractExpression, Event, MapError, Op, ValType};

verus! {

broadcast use vstd::std_specs::vec::group_vec_axioms;

/// The branch target that a `br_table` leaves in the branch map: entries
/// are taken in order, each in-range entry `e` records `targets[e]`, and
/// the last recorded one stays.
pub open spec fn brtable_pick_upto(targets: Seq<usize>, upto: int) -> Option<usize>
    decreases upto,
{
    if upto <= 0 {
        None
    } else if targets[upto - 1] < targets.len() {
        Some(targets[targets[upto - 1] as int])
    } else {
        brtable_pick_upto(targets, upto - 1)
    }
}

pub open spec fn brtable_pick(targets: Seq<usize>) -> Option<usize> {
    brtable_pick_upto(targets, targets.len() as int)
}

/// The effect of one non-control operator on a node, as a relation between
/// the node before and after. Control operators (`block`, `loop`, `if`,
/// `else`, `end`, `return`) are handled by the walker itself and leave the
/// node unchanged here.
pub open spec fn op_effect(
    pre: Node,
    post: Node,
    ev: Event,
    i: usize,
    root_id: usize,
    n_params: usize,
    globals: Seq<ValType>,
) -> bool {
    match ev.op {
        Op::Br { depth } => {
            &&& post == (Node { branches: post.branches, ..pre })
            &&& post.branches@ == pre.branches@.insert(ev.pos, depth)
        },
        Op::BrIf { depth } => {
            &&& post == (Node { branches: post.branches, ..pre })
            &&& post.branches@ == pre.branches@.insert(ev.pos, depth)
        },
        Op::BrTable { targets } => {
            &&& post == (Node { branches: post.branches, ..pre })
            &&& post.branches@ == match brtable_pick(targets@) {
                Some(v) => pre.branches@.insert(ev.pos, v),
                None => pre.branches@,
            }
        },
        Op::Call { func } => {
            &&& post == (Node { calls: post.calls, ..pre })
            &&& post.calls@ == pre.calls@.insert(ev.pos, func)
        },
        Op::CallIndirect { table } => {
            &&& post == (Node { calls: post.calls, ..pre })
            &&& post.calls@ == pre.calls@.insert(ev.pos, table)
        },
        Op::Load { ty, offset } => {
            let vid = (pre.id + pre.total_vars()) as usize;
            &&& post == (Node {
                input_variables: post.input_variables,
                input_data_couplings: post.input_data_couplings,
                ..pre
            })
            &&& post.input_variables@ == pre.input_variables@.insert(vid, ty)
            &&& post.input_data_couplings@ == pre.input_data_couplings@.insert(offset, vid)
        },
        Op::Store { ty, offset } => {
            let vid = (pre.id + pre.total_vars()) as usize;
            &&& post == (Node {
                output_variables: post.output_variables,
                output_data_couplings: post.output_data_couplings,
                ..pre
            })
            &&& post.output_variables@ == pre.output_variables@.insert(vid, ty)
            &&& post.output_data_couplings@ == pre.output_data_couplings@.insert(offset, vid)
        },
        Op::GlobalGet { index } => {
            if index < globals.len() {
                let vid = (pre.id + pre.total_vars()) as usize;
                &&& post == (Node {
                    input_variables: post.input_variables,
                    global_input_data_couplings: post.global_input_data_couplings,
                    ..pre
                })
                &&& post.input_variables@ == pre.input_variables@.insert(vid, globals[index as int])
                &&& post.global_input_data_couplings@ == pre.global_input_data_couplings@.insert(
                    index,
                    vid,
                )
            } else {
                post == pre
            }
        },
        Op::GlobalSet { index } => {
            if index < globals.len() {
                let vid = (pre.id + pre.total_vars()) as usize;
                &&& post == (Node {
                    output_variables: post.output_variables,
                    global_output_data_couplings: post.global_output_data_couplings,
                    ..pre
                })
                &&& post.output_variables@ == pre.output_variables@.insert(vid, globals[index as int])
                &&& post.global_output_data_couplings@ == pre.global_output_data_couplings@.insert(
                    index,
                    vid,
                )
            } else {
                post == pre
            }
        },
        Op::LocalGet { index } => {
            if index < n_params {
                &&& post == (Node { operations: post.operations, ..pre })
                &&& post.operations@ == pre.operations@.insert(
                    i,
                    AbstractExpression::Spin { id: (root_id + index) as usize },
                )
            } else {
                post == pre
            }
        },
        Op::Const { ty } => {
            let vid = (pre.id + pre.total_vars()) as usize;
            &&& post == (Node { constants: post.constants, ..pre })
            &&& post.constants@ == pre.constants@.insert(vid, ty)
        },
        Op::Add { ty } => {
            &&& post == (Node { operations: post.operations, ..pre })
            &&& post.operations@ == pre.operations@.insert(i, AbstractExpression::Add { ty })
        },
        Op::Mul { ty } => {
            &&& post == (Node { operations: post.operations, ..pre })
            &&& post.operations@ == pre.operations@.insert(i, AbstractExpression::Mul { ty })
        },
        _ => post == pre,
    }
}

/// Applies one non-control operator to the node: the operator classifier.
///
/// Loads and stores register a fresh variable coupled to the memory
/// offset; global reads and writes register a fresh variable of the
/// global's declared type coupled to the global slot; constants register a
/// fresh constant; `local.get` of a parameter emits a `Spin` of the
/// parameter's variable id; adds and multiplies append the matching
/// abstract operation. Every other operator leaves the node unchanged.
#[verifier::loop_isolation(false)]
pub(crate) fn apply_op(
    node: &mut Node,
    ev: &Event,
    i: usize,
    root_id: usize,
    n_params: usize,
    globals: &Vec<ValType>,
)
    requires
        old(node).maps_wf(),
        old(node).id + old(node).total_vars() < usize::MAX,
        root_id + n_params <= usize::MAX,
    ensures
        final(node).maps_wf(),
        op_effect(*old(node), *final(node), *ev, i, root_id, n_params, globals@),
        final(node).total_vars() <= old(node).total_vars() + 1,
        final(node).input_variables.entries_seq().len() >= old(
            node,
        ).input_variables.entries_seq().len(),
        vars_below(*old(node)) ==> vars_below(*final(node)),
        vars_below(*old(node)) ==> final(node).constants.entries_seq().len() == old(
            node,
        ).constants.entries_seq().len() + const_delta(ev.op),
        vars_below(*old(node)) ==> final(node).input_variables.entries_seq().len() == old(
            node,
        ).input_variables.entries_seq().len() + input_delta(ev.op, globals@.len() as int),
        vars_below(*old(node)) ==> final(node).output_variables.entries_seq().len() == old(
            node,
        ).output_variables.entries_seq().len() + output_delta(ev.op, globals@.len() as int),
        final(node).internal_variables.entries_seq().len() == old(
            node,
        ).internal_variables.entries_seq().len(),
{
    proof {
        if vars_below(*old(node)) {
            let b = (old(node).id + old(node).total_vars()) as usize;
            lemma_keys_below_not_contains(old(node).constants, b);
            lemma_keys_below_not_contains(old(node).input_variables, b);
            lemma_keys_below_not_contains(old(node).output_variables, b);
            lemma_keys_below_not_contains(old(node).internal_variables, b);
        }
    }
    match &ev.op {
        Op::Br { depth } => {
            node.add_branch(ev.pos, *depth);
        },
        Op::BrIf { depth } => {
            node.add_branch(ev.pos, *depth);
        },
        Op::BrTable { targets } => {
            let n = targets.len();
            let mut j: usize = 0;
            while j < n
                invariant
                    node.maps_wf(),
                    n == targets@.len(),
                    0 <= j <= n,
                    *node == (Node { branches: node.branches, ..*old(node) }),
                    node.branches@ == match brtable_pick_upto(targets@, j as int) {
                        Some(v) => old(node).branches@.insert(ev.pos, v),
                        None => old(node).branches@,
                    },
                decreases n - j,
            {
                if targets[j] < n {
                    node.add_branch(ev.pos, targets[targets[j]]);
                }
                j = j + 1;
            }
        },
        Op::Call { func } => {
            node.add_call(ev.pos, *func);
        },
        Op::CallIndirect { table } => {
            node.add_call(ev.pos, *table);
        },
        Op::Load { ty, offset } => {
            let var_id = node.add_input_variable(*ty);
            node.add_input_data_coupling(*offset, var_id);
            proof {
                if vars_below(*old(node)) {
                    crate::node::lemma_entries_below_after_insert(
                        old(node).input_variables,
                        node.input_variables,
                        var_id,
                        *ty,
                        old(node).id + old(node).total_vars() + 1,
                    );
                }
            }
        },
        Op::Store { ty, offset } => {
            let var_id = node.add_output_variable(*ty);
            node.add_output_data_coupling(*offset, var_id);
            proof {
                if vars_below(*old(node)) {
                    crate::node::lemma_entries_below_after_insert(
                        old(node).output_variables,
                        node.output_variables,
                        var_id,
                        *ty,
                        old(node).id + old(node).total_vars() + 1,
                    );
                }
            }
        },
        Op::GlobalGet { index } => {
            if *index < globals.len() {
                let var_id = node.add_input_variable(globals[*index]);
                node.add_global_input_data_coupling(*index, var_id);
                proof {
                    if vars_below(*old(node)) {
                        crate::node::lemma_entries_below_after_insert(
                            old(node).input_variables,
                            node.input_variables,
                            var_id,
                            globals@[*index as int],
                            old(node).id + old(node).total_vars() + 1,
                        );
                    }
                }
            }
        },
        Op::GlobalSet { index } => {
            if *index < globals.len() {
                let var_id = node.add_output_variable(globals[*index]);
                node.add_global_output_data_coupling(*index, var_id);
                proof {
                    if vars_below(*old(node)) {
                        crate::node::lemma_entries_below_after_insert(
                            old(node).output_variables,
                            node.output_variables,
                            var_id,
                            globals@[*index as int],
                            old(node).id + old(node).total_vars() + 1,
                        );
                    }
                }
            }
        },
        Op::LocalGet { index } => {
            if *index < n_params {
                node.add_operation(i, AbstractExpression::Spin { id: root_id + *index });
            }
        },
        Op::Const { ty } => {
            let var_id = node.add_constant(*ty);
            proof {
                if vars_below(*old(node)) {
                    crate::node::lemma_entries_below_after_insert(
                        old(node).constants,
                        node.constants,
                        var_id,
                        *ty,
                        old(node).id + old(node).total_vars() + 1,
                    );
                }
            }
        },
        Op::Add { ty } => {
            node.add_operation(i, AbstractExpression::Add { ty: *ty });
        },
        Op::Mul { ty } => {
            node.add_operation(i, AbstractExpression::Mul { ty: *ty });
        },
        _ => {},
    }
}

/// Whether the operator ends the current region.
pub open spec fn is_terminator(op: Op) -> bool {
    op is End || op is Return
}

/// Whether the operator opens or switches a nested region.
pub open spec fn is_opener(op: Op) -> bool {
    op is Block || op is Loop || op is If || op is Else
}

/// The stream from `cursor` on is flat and closed: a terminator arrives
/// before any nested region opens or switches. A walk started here always
/// succeeds, and registers no blocks.
#[verifier::opaque]
pub open spec fn flat_closed(events: Seq<Event>, cursor: int) -> bool {
    exists|j: int|
        cursor <= j < events.len() && is_terminator((#[trigger] events[j]).op) && (forall|j2: int|
            cursor <= j2 < j ==> !is_opener((#[trigger] events[j2]).op) && !is_terminator(
                (#[trigger] events[j2]).op,
            ))
}

/// The index of the terminator that closes a flat region.
#[verifier::opaque]
pub open spec fn flat_term_idx(events: Seq<Event>, cursor: int) -> int {
    choose|j: int|
        cursor <= j < events.len() && is_terminator((#[trigger] events[j]).op) && (forall|j2: int|
            cursor <= j2 < j ==> !is_opener((#[trigger] events[j2]).op) && !is_terminator(
                (#[trigger] events[j2]).op,
            ))
}

/// A witness that a stream is flat and closed, and that the witnessed
/// terminator is the one that closes it.
pub proof fn lemma_flat_closed_intro(events: Seq<Event>, cursor: int, j: int)
    requires
        cursor <= j < events.len(),
        is_terminator(events[j].op),
        forall|j2: int|
            cursor <= j2 < j ==> !is_opener((#[trigger] events[j2]).op) && !is_terminator(
                (#[trigger] events[j2]).op,
            ),
    ensures
        flat_closed(events, cursor),
        flat_term_idx(events, cursor) == j,
{
    reveal(flat_closed);
    reveal(flat_term_idx);
    assert(flat_closed(events, cursor));
    let k = flat_term_idx(events, cursor);
    if k < j {
        assert(!is_terminator(events[k].op));
    } else if k > j {
        assert(!is_terminator(events[j].op));
    }
}

/// How many constants one operator registers.
pub open spec fn const_delta(op: Op) -> int {
    if op is Const {
        1
    } else {
        0
    }
}

/// How many input variables one operator registers.
pub open spec fn input_delta(op: Op, globals_len: int) -> int {
    match op {
        Op::Load { .. } => 1,
        Op::GlobalGet { index } => if index < globals_len {
            1
        } else {
            0
        },
        _ => 0,
    }
}

/// How many output variables one operator registers.
pub open spec fn output_delta(op: Op, globals_len: int) -> int {
    match op {
        Op::Store { .. } => 1,
        Op::GlobalSet { index } => if index < globals_len {
            1
        } else {
            0
        },
        _ => 0,
    }
}

/// How many constants the operators of `[lo, hi)` register.
pub open spec fn const_count(events: Seq<Event>, lo: int, hi: int) -> int
    decreases hi - lo,
{
    if hi <= lo {
        0
    } else {
        const_count(events, lo, hi - 1) + const_delta(events[hi - 1].op)
    }
}

/// How many input variables the operators of `[lo, hi)` register.
pub open spec fn input_count(events: Seq<Event>, lo: int, hi: int, globals_len: int) -> int
    decreases hi - lo,
{
    if hi <= lo {
        0
    } else {
        input_count(events, lo, hi - 1, globals_len) + input_delta(events[hi - 1].op, globals_len)
    }
}

/// How many output variables the operators of `[lo, hi)` register.
pub open spec fn output_count(events: Seq<Event>, lo: int, hi: int, globals_len: int) -> int
    decreases hi - lo,
{
    if hi <= lo {
        0
    } else {
        output_count(events, lo, hi - 1, globals_len) + output_delta(events[hi - 1].op, globals_len)
    }
}

/// The flow entry one operator leaves on the node, if any: a call entry
/// or a branch entry at the operator's byte position.
pub open spec fn event_recorded(events: Seq<Event>, j: int, n: Node) -> bool {
    match events[j].op {
        Op::Call { func } => n.calls@.contains_key(events[j].pos) && n.calls@[events[j].pos]
            == func,
        Op::CallIndirect { table } => n.calls@.contains_key(events[j].pos) && n.calls@[events[
            j
        ].pos] == table,
        Op::Br { depth } => n.branches@.contains_key(events[j].pos) && n.branches@[events[j].pos]
            == depth,
        Op::BrIf { depth } => n.branches@.contains_key(events[j].pos) && n.branches@[events[
            j
        ].pos] == depth,
        Op::BrTable { targets } => match brtable_pick(targets@) {
            Some(v) => n.branches@.contains_key(events[j].pos) && n.branches@[events[j].pos] == v,
            None => true,
        },
        _ => true,
    }
}

/// Every call and branch operator of `[lo, hi)` left its entry on the
/// node.
pub open spec fn effects_recorded(events: Seq<Event>, lo: int, hi: int, n: Node) -> bool {
    forall|j: int| lo <= j < hi ==> #[trigger] event_recorded(events, j, n)
}


/// The combined number of variables the operators of `[lo, hi)` register.
pub open spec fn var_count(events: Seq<Event>, lo: int, hi: int, globals_len: int) -> int {
    const_count(events, lo, hi) + input_count(events, lo, hi, globals_len) + output_count(
        events,
        lo,
        hi,
        globals_len,
    )
}

/// Whether the operator writes the memory input coupling at `offset`.
pub open spec fn writes_input_offset(op: Op, offset: usize) -> bool {
    match op {
        Op::Load { offset: o, .. } => o == offset,
        _ => false,
    }
}

/// Whether the operator writes the memory output coupling at `offset`.
pub open spec fn writes_output_offset(op: Op, offset: usize) -> bool {
    match op {
        Op::Store { offset: o, .. } => o == offset,
        _ => false,
    }
}

/// Whether the operator writes the global input coupling at slot `g`.
pub open spec fn writes_global_input(op: Op, g: usize, globals_len: int) -> bool {
    match op {
        Op::GlobalGet { index } => index == g && index < globals_len,
        _ => false,
    }
}

/// Whether the operator writes the global output coupling at slot `g`.
pub open spec fn writes_global_output(op: Op, g: usize, globals_len: int) -> bool {
    match op {
        Op::GlobalSet { index } => index == g && index < globals_len,
        _ => false,
    }
}

/// The data effect one operator leaves on the node: the fresh variable it
/// registers, under its deterministic id `base` plus the number of
/// variables registered before it, with the operator's type; the coupling
/// entry at its memory offset or global slot, carrying that variable's id
/// unless a later operator of `[cursor, hi)` writes the same place; and
/// the abstract operation it appends at its walk step.
pub open spec fn data_recorded(
    events: Seq<Event>,
    cursor: int,
    hi: int,
    j: int,
    n: Node,
    base: int,
    globals: Seq<ValType>,
    root_id: usize,
    n_params: int,
) -> bool {
    let vid = (base + var_count(events, cursor, j, globals.len() as int)) as usize;
    let ord = (j - cursor + 1) as usize;
    match events[j].op {
        Op::Load { ty, offset } => {
            &&& n.input_variables@.contains_key(vid) && n.input_variables@[vid] == ty
            &&& n.input_data_couplings@.contains_key(offset)
            &&& ((forall|j2: int|
                j < j2 < hi ==> !writes_input_offset((#[trigger] events[j2]).op, offset))
                ==> n.input_data_couplings@[offset] == vid)
        },
        Op::Store { ty, offset } => {
            &&& n.output_variables@.contains_key(vid) && n.output_variables@[vid] == ty
            &&& n.output_data_couplings@.contains_key(offset)
            &&& ((forall|j2: int|
                j < j2 < hi ==> !writes_output_offset((#[trigger] events[j2]).op, offset))
                ==> n.output_data_couplings@[offset] == vid)
        },
        Op::GlobalGet { index } => if index < globals.len() {
            &&& n.input_variables@.contains_key(vid) && n.input_variables@[vid] == globals[
                index as int
            ]
            &&& n.global_input_data_couplings@.contains_key(index)
            &&& ((forall|j2: int|
                j < j2 < hi ==> !writes_global_input(
                    (#[trigger] events[j2]).op,
                    index,
                    globals.len() as int,
                )) ==> n.global_input_data_couplings@[index] == vid)
        } else {
            true
        },
        Op::GlobalSet { index } => if index < globals.len() {
            &&& n.output_variables@.contains_key(vid) && n.output_variables@[vid] == globals[
                index as int
            ]
            &&& n.global_output_data_couplings@.contains_key(index)
            &&& ((forall|j2: int|
                j < j2 < hi ==> !writes_global_output(
                    (#[trigger] events[j2]).op,
                    index,
                    globals.len() as int,
                )) ==> n.global_output_data_couplings@[index] == vid)
        } else {
            true
        },
        Op::Const { ty } => n.constants@.contains_key(vid) && n.constants@[vid] == ty,
        Op::LocalGet { index } => if index < n_params {
            n.operations@.contains_key(ord) && n.operations@[ord]
                == (AbstractExpression::Spin { id: (root_id + index) as usize })
        } else {
            true
        },
        Op::Add { ty } => n.operations@.contains_key(ord) && n.operations@[ord]
            == (AbstractExpression::Add { ty }),
        Op::Mul { ty } => n.operations@.contains_key(ord) && n.operations@[ord]
            == (AbstractExpression::Mul { ty }),
        _ => true,
    }
}

/// Every operator of `[cursor, hi)` left its data effect on the node.
pub open spec fn data_effects_recorded(
    events: Seq<Event>,
    cursor: int,
    hi: int,
    n: Node,
    base: int,
    globals: Seq<ValType>,
    root_id: usize,
    n_params: int,
) -> bool {
    forall|j: int|
        cursor <= j < hi ==> #[trigger] data_recorded(
            events,
            cursor,
            hi,
            j,
            n,
            base,
            globals,
            root_id,
            n_params,
        )
}


/// Counts are never negative.
proof fn lemma_var_count_nonneg(events: Seq<Event>, lo: int, a: int, gl: int)
    requires
        lo <= a,
    ensures
        0 <= const_count(events, lo, a),
        0 <= input_count(events, lo, a, gl),
        0 <= output_count(events, lo, a, gl),
        0 <= var_count(events, lo, a, gl),
    decreases a - lo,
{
    if a > lo {
        lemma_var_count_nonneg(events, lo, a - 1, gl);
    }
}

/// Counts never shrink as the range grows.
proof fn lemma_var_count_mono(events: Seq<Event>, lo: int, a: int, b: int, gl: int)
    requires
        lo <= a <= b,
    ensures
        var_count(events, lo, a, gl) <= var_count(events, lo, b, gl),
        const_count(events, lo, a) <= const_count(events, lo, b),
    decreases b - a,
{
    if a < b {
        lemma_var_count_mono(events, lo, a, b - 1, gl);
    }
}

/// One applied operator extends the recorded data effects by its own.
proof fn lemma_data_step(
    prev: Node,
    node: Node,
    events: Seq<Event>,
    cursor: int,
    cur: int,
    base: int,
    globals: Seq<ValType>,
    root_id: usize,
    n_params: usize,
    i: usize,
)
    requires
        0 <= cursor < cur <= events.len(),
        i == cur - cursor,
        op_effect(prev, node, events[cur - 1], i, root_id, n_params, globals),
        prev.maps_wf(),
        base >= 0,
        prev.id + prev.total_vars() == base + var_count(
            events,
            cursor,
            cur - 1,
            globals.len() as int,
        ),
        prev.id + prev.total_vars() < usize::MAX,
        data_effects_recorded(
            events,
            cursor,
            cur - 1,
            prev,
            base,
            globals,
            root_id,
            n_params as int,
        ),
    ensures
        data_effects_recorded(events, cursor, cur, node, base, globals, root_id, n_params as int),
{
    let gl = globals.len() as int;
    let newvid = (base + var_count(events, cursor, cur - 1, gl)) as usize;
    assert forall|j: int| cursor <= j < cur implies #[trigger] data_recorded(
        events,
        cursor,
        cur,
        j,
        node,
        base,
        globals,
        root_id,
        n_params as int,
    ) by {
        if j == cur - 1 {
            let vid = (base + var_count(events, cursor, j, gl)) as usize;
            assert(vid == newvid);
            assert(vid as int == prev.id + prev.total_vars());
            assert((j - cursor + 1) as usize == i);
            match events[j].op {
                Op::Load { ty, offset } => {
                    assert(node.input_variables@ == prev.input_variables@.insert(vid, ty));
                    assert(node.input_data_couplings@ == prev.input_data_couplings@.insert(
                        offset,
                        vid,
                    ));
                },
                Op::Store { ty, offset } => {
                    assert(node.output_variables@ == prev.output_variables@.insert(vid, ty));
                    assert(node.output_data_couplings@ == prev.output_data_couplings@.insert(
                        offset,
                        vid,
                    ));
                },
                Op::GlobalGet { index } => {
                    if (index as int) < gl {
                        assert(node.input_variables@ == prev.input_variables@.insert(
                            vid,
                            globals[index as int],
                        ));
                        assert(node.global_input_data_couplings@
                            == prev.global_input_data_couplings@.insert(index, vid));
                    }
                },
                Op::GlobalSet { index } => {
                    if (index as int) < gl {
                        assert(node.output_variables@ == prev.output_variables@.insert(
                            vid,
                            globals[index as int],
                        ));
                        assert(node.global_output_data_couplings@
                            == prev.global_output_data_couplings@.insert(index, vid));
                    }
                },
                Op::Const { ty } => {
                    assert(node.constants@ == prev.constants@.insert(vid, ty));
                },
                Op::LocalGet { index } => {
                    if index < n_params {
                        assert(node.operations@ == prev.operations@.insert(
                            i,
                            AbstractExpression::Spin { id: (root_id + index) as usize },
                        ));
                    }
                },
                Op::Add { ty } => {
                    assert(node.operations@ == prev.operations@.insert(
                        i,
                        AbstractExpression::Add { ty },
                    ));
                },
                Op::Mul { ty } => {
                    assert(node.operations@ == prev.operations@.insert(
                        i,
                        AbstractExpression::Mul { ty },
                    ));
                },
                _ => {},
            }
        } else {
            assert(data_recorded(
                events,
                cursor,
                cur - 1,
                j,
                prev,
                base,
                globals,
                root_id,
                n_params as int,
            ));
            lemma_var_count_nonneg(events, cursor, j, gl);
            lemma_var_count_mono(events, cursor, j, cur - 1, gl);
            assert(var_count(events, cursor, j + 1, gl) == var_count(events, cursor, j, gl)
                + const_delta(events[j].op) + input_delta(events[j].op, gl) + output_delta(
                events[j].op,
                gl,
            ));
            lemma_var_count_mono(events, cursor, j + 1, cur - 1, gl);
            let vidj = (base + var_count(events, cursor, j, gl)) as usize;
            let ordj = (j - cursor + 1) as usize;
            assert((ordj as int) < i as int);
            match events[j].op {
                Op::Load { ty, offset } => {
                    assert((vidj as int) < newvid as int);
                    assert(node.input_variables@.contains_key(vidj) && node.input_variables@[vidj]
                        == ty);
                    assert(node.input_data_couplings@.contains_key(offset));
                    if forall|j2: int|
                        j < j2 < cur ==> !writes_input_offset(
                            (#[trigger] events[j2]).op,
                            offset,
                        ) {
                        assert(!writes_input_offset(events[cur - 1].op, offset));
                        assert(forall|j2: int|
                            j < j2 < cur - 1 ==> !writes_input_offset(
                                (#[trigger] events[j2]).op,
                                offset,
                            ));
                        assert(node.input_data_couplings@[offset] == vidj);
                    }
                },
                Op::Store { ty, offset } => {
                    assert((vidj as int) < newvid as int);
                    assert(node.output_variables@.contains_key(vidj)
                        && node.output_variables@[vidj] == ty);
                    assert(node.output_data_couplings@.contains_key(offset));
                    if forall|j2: int|
                        j < j2 < cur ==> !writes_output_offset(
                            (#[trigger] events[j2]).op,
                            offset,
                        ) {
                        assert(!writes_output_offset(events[cur - 1].op, offset));
                        assert(forall|j2: int|
                            j < j2 < cur - 1 ==> !writes_output_offset(
                                (#[trigger] events[j2]).op,
                                offset,
                            ));
                        assert(node.output_data_couplings@[offset] == vidj);
                    }
                },
                Op::GlobalGet { index } => {
                    if (index as int) < gl {
                        assert((vidj as int) < newvid as int);
                        assert(node.input_variables@.contains_key(vidj)
                            && node.input_variables@[vidj] == globals[index as int]);
                        assert(node.global_input_data_couplings@.contains_key(index));
                        if forall|j2: int|
                            j < j2 < cur ==> !writes_global_input(
                                (#[trigger] events[j2]).op,
                                index,
                                gl,
                            ) {
                            assert(!writes_global_input(events[cur - 1].op, index, gl));
                            assert(forall|j2: int|
                                j < j2 < cur - 1 ==> !writes_global_input(
                                    (#[trigger] events[j2]).op,
                                    index,
                                    gl,
                                ));
                            assert(node.global_input_data_couplings@[index] == vidj);
                        }
                    }
                },
                Op::GlobalSet { index } => {
                    if (index as int) < gl {
                        assert((vidj as int) < newvid as int);
                        assert(node.output_variables@.contains_key(vidj)
                            && node.output_variables@[vidj] == globals[index as int]);
                        assert(node.global_output_data_couplings@.contains_key(index));
                        if forall|j2: int|
                            j < j2 < cur ==> !writes_global_output(
                                (#[trigger] events[j2]).op,
                                index,
                                gl,
                            ) {
                            assert(!writes_global_output(events[cur - 1].op, index, gl));
                            assert(forall|j2: int|
                                j < j2 < cur - 1 ==> !writes_global_output(
                                    (#[trigger] events[j2]).op,
                                    index,
                                    gl,
                                ));
                            assert(node.global_output_data_couplings@[index] == vidj);
                        }
                    }
                },
                Op::Const { ty } => {
                    assert((vidj as int) < newvid as int);
                    assert(node.constants@.contains_key(vidj) && node.constants@[vidj] == ty);
                },
                Op::LocalGet { index } => {
                    if (index as int) < n_params as int {
                        assert(node.operations@.contains_key(ordj) && node.operations@[ordj] == (
                        AbstractExpression::Spin { id: (root_id + index) as usize }));
                    }
                },
                Op::Add { ty } => {
                    assert(node.operations@.contains_key(ordj) && node.operations@[ordj] == (
                    AbstractExpression::Add { ty }));
                },
                Op::Mul { ty } => {
                    assert(node.operations@.contains_key(ordj) && node.operations@[ordj] == (
                    AbstractExpression::Mul { ty }));
                },
                _ => {},
            }
        }
    }
}

/// The event stream is coherent with the module buffer: every position
/// lies inside the buffer and positions strictly increase.
pub open spec fn events_ok(events: Seq<Event>, buf: Seq<u8>) -> bool {
    &&& forall|j: int| 0 <= j < events.len() ==> (#[trigger] events[j]).pos < buf.len()
    &&& forall|j: int, j2: int|
        0 <= j < j2 < events.len() ==> (#[trigger] events[j]).pos < (#[trigger] events[j2]).pos
}

/// Copies the byte range `[start, end)` of the buffer.
#[verifier::loop_isolation(false)]
fn slice_range(buf: &Vec<u8>, start: usize, end: usize) -> (r: Vec<u8>)
    requires
        start <= end <= buf.len(),
    ensures
        r@ == buf@.subrange(start as int, end as int),
{
    let mut out: Vec<u8> = Vec::new();
    let mut i: usize = start;
    while i < end
        invariant
            start <= i <= end,
            out@ == buf@.subrange(start as int, i as int),
        decreases end - i,
    {
        out.push(buf[i]);
        proof {
            assert(out@ =~= buf@.subrange(start as int, i + 1));
        }
        i = i + 1;
    }
    out
}


/// Bridges the view-level bound on a node's block references to its
/// entry-level form.
proof fn lemma_blocks_entries_below(b: Node, bound: int)
    requires
        b.blocks.wf(),
        forall|p: usize| #[trigger] b.blocks@.contains_key(p) ==> b.blocks@[p] < bound,
    ensures
        forall|e: int|
            0 <= e < b.blocks.entries_seq().len() ==> (#[trigger] b.blocks.entries_seq()[e]).1
                < bound,
{
    assert forall|e: int|
        0 <= e < b.blocks.entries_seq().len() implies (#[trigger] b.blocks.entries_seq()[e]).1
        < bound by {
        b.blocks.lemma_entry_view(e);
    }
}

/// Appending a satisfactory block keeps the whole registry satisfactory.
proof fn lemma_push_block(pre: Mapper, post: Mapper, b: Node, buf: Seq<u8>)
    requires
        pre.blocks_ok(buf),
        post.blocks@ == pre.blocks@.push(b),
        b.maps_wf(),
        b.children_unique(),
        b.children@.len() == 0,
        b.start <= b.end <= buf.len(),
        b.instrs@ == buf.subrange(b.start as int, b.end as int),
        forall|e: int|
            0 <= e < b.blocks.entries_seq().len() ==> (#[trigger] b.blocks.entries_seq()[e]).1
                < pre.blocks@.len(),
    ensures
        post.blocks_ok(buf),
{
    assert(b.wf());
    assert forall|jj: int| 0 <= jj < post.blocks.len() implies block_entry_ok(
        #[trigger] post.blocks[jj],
        jj,
        buf,
    ) by {
        if jj < pre.blocks@.len() {
            assert(post.blocks[jj] == pre.blocks@[jj]);
            assert(block_entry_ok(pre.blocks[jj], jj, buf));
        } else {
            assert(post.blocks[jj] == b);
        }
    }
}

impl Mapper {
    /// Walks one region of a function body, starting at event `cursor`.
    ///
    /// The node arrives pre-initialized (a function node carries its end
    /// offset, an if-clause or else-clause its input variable and
    /// flow-control coupling) and leaves carrying the byte slice
    /// `[start, end)` of the module buffer, with `end` taken from the
    /// terminator when it was not preset. Nested regions are walked
    /// recursively, registered in the block registry and recorded in the
    /// node's block map; calls and branches are recorded at their byte
    /// positions.
    ///
    /// An else-clause is discovered while its if-clause is being walked,
    /// so it hangs below the if-clause. Holding both clauses side by side
    /// under the enclosing node would tear their byte accounting apart:
    /// the else's end is also the if-clause's end, so the two ranges
    /// overlap, and only the nested shape keeps every byte of the body in
    /// exactly one leaf.
    #[verifier::loop_isolation(false)]
    #[verifier::rlimit(100)]
    #[verifier::spinoff_prover]
    pub(crate) fn map_helper(
        &mut self,
        events: &Vec<Event>,
        buf: &Vec<u8>,
        globals: &Vec<ValType>,
        root_id: usize,
        n_params: usize,
        cursor: usize,
        start: usize,
        index: usize,
        node: Node,
    ) -> (r: Result<(Node, usize), MapError>)
        requires
            old(self).blocks_ok(buf@),
            node.maps_wf(),
            node.children_unique(),
            node.children@.len() == 0,
            node.calls.entries_seq().len() == 0,
            node.branches.entries_seq().len() == 0,
            node.blocks.entries_seq().len() == 0,
            node.id == index,
            vars_below(node),
            node.end <= buf.len(),
            node.end != 0 ==> start <= node.end,
            start <= buf.len(),
            cursor <= events.len(),
            events_ok(events@, buf@),
            forall|j: int| cursor <= j < events@.len() ==> start <= (#[trigger] events@[j]).pos,
            index + node.total_vars() + (events@.len() - cursor) <= usize::MAX,
            2 * events@.len() + 2 <= usize::MAX,
            root_id + n_params <= usize::MAX,
        ensures
            final(self).nodes == old(self).nodes,
            final(self).blocks_ok(buf@),
            final(self).blocks@.len() >= old(self).blocks@.len(),
            final(self).blocks@.subrange(0, old(self).blocks@.len() as int) == old(self).blocks@,
            r is Err ==> r matches Err(MapError::BadWasm),
            flat_closed(events@, cursor as int) ==> r is Ok,
            match r {
                Ok(pair) => {
                    &&& cursor < pair.1 <= events@.len()
                    &&& vars_below(pair.0)
                    &&& (flat_closed(events@, cursor as int) ==> {
                        &&& pair.1 == flat_term_idx(events@, cursor as int) + 1
                        &&& pair.0.blocks.entries_seq().len() == 0
                        &&& pair.0.constants.entries_seq().len()
                            == node.constants.entries_seq().len() + const_count(
                            events@,
                            cursor as int,
                            pair.1 as int,
                        )
                        &&& pair.0.input_variables.entries_seq().len()
                            == node.input_variables.entries_seq().len() + input_count(
                            events@,
                            cursor as int,
                            pair.1 as int,
                            globals@.len() as int,
                        )
                        &&& pair.0.output_variables.entries_seq().len()
                            == node.output_variables.entries_seq().len() + output_count(
                            events@,
                            cursor as int,
                            pair.1 as int,
                            globals@.len() as int,
                        )
                        &&& pair.0.internal_variables.entries_seq().len()
                            == node.internal_variables.entries_seq().len()
                        &&& effects_recorded(events@, cursor as int, pair.1 as int, pair.0)
                        &&& data_effects_recorded(
                            events@,
                            cursor as int,
                            pair.1 as int,
                            pair.0,
                            node.id + node.total_vars(),
                            globals@,
                            root_id,
                            n_params as int,
                        )
                    })
                    &&& pair.0.maps_wf()
                    &&& pair.0.children_unique()
                    &&& pair.0.children@.len() == 0
                    &&& pair.0.id == index
                    &&& pair.0.start == start
                    &&& pair.0.start <= pair.0.end <= buf@.len()
                    &&& pair.0.instrs@ == buf@.subrange(pair.0.start as int, pair.0.end as int)
                    &&& (node.end == 0 ==> pair.0.end == events@[pair.1 - 1].pos + 1)
                    &&& (node.end != 0 ==> pair.0.end == node.end || pair.0.end == events@[pair.1
                        - 1].pos + 1)
                    &&& (node.end != 0 && node.flow_control_couplings.entries_seq().len() == 0
                        ==> pair.0.end == node.end)
                    &&& pair.0.flow_control_couplings@ == node.flow_control_couplings@
                    &&& pair.0.flow_control_couplings.entries_seq().len()
                        == node.flow_control_couplings.entries_seq().len()
                    &&& pair.0.input_variables.entries_seq().len()
                        >= node.input_variables.entries_seq().len()
                    &&& forall|k: usize|
                        #[trigger] node.input_variables@.contains_key(k)
                            ==> pair.0.input_variables@.contains_key(k)
                            && pair.0.input_variables@[k] == node.input_variables@[k]
                    &&& forall|k: usize|
                        #[trigger] node.output_variables@.contains_key(k)
                            ==> pair.0.output_variables@.contains_key(k)
                            && pair.0.output_variables@[k] == node.output_variables@[k]
                    &&& forall|k: usize|
                        node.internal_variables@.contains_key(k)
                            ==> #[trigger] pair.0.internal_variables@.contains_key(k)
                    &&& forall|k: usize|
                        #[trigger] pair.0.calls@.contains_key(k) ==> exists|j: int|
                            cursor <= j < pair.1 && (#[trigger] events@[j]).pos == k && match events@[j].op {
                                Op::Call { func } => pair.0.calls@[k] == func,
                                Op::CallIndirect { table } => pair.0.calls@[k] == table,
                                _ => false,
                            }
                    &&& forall|k: usize|
                        #[trigger] pair.0.branches@.contains_key(k) ==> exists|j: int|
                            cursor <= j < pair.1 && (#[trigger] events@[j]).pos == k && match events@[j].op {
                                Op::Br { depth } => pair.0.branches@[k] == depth,
                                Op::BrIf { depth } => pair.0.branches@[k] == depth,
                                Op::BrTable { targets } => brtable_pick(targets@) == Some(
                                    pair.0.branches@[k],
                                ),
                                _ => false,
                            }
                    &&& (flat_closed(events@, cursor as int)
                        && node.operations.entries_seq().len() == 0 ==> forall|k: usize|
                        #[trigger] pair.0.operations@.contains_key(k) ==> exists|j: int|
                            #![trigger events@[j]]
                            cursor <= j < pair.1 && (j - cursor + 1) as usize == k
                                && match events@[j].op {
                                Op::LocalGet { index } => index < n_params
                                    && pair.0.operations@[k] == (AbstractExpression::Spin {
                                    id: (root_id + index) as usize,
                                }),
                                Op::Add { ty } => pair.0.operations@[k] == (
                                AbstractExpression::Add { ty }),
                                Op::Mul { ty } => pair.0.operations@[k] == (
                                AbstractExpression::Mul { ty }),
                                _ => false,
                            })
                    &&& forall|p: usize|
                        #[trigger] pair.0.blocks@.contains_key(p) ==> old(self).blocks@.len()
                            <= pair.0.blocks@[p] < final(self).blocks@.len()
                    &&& forall|p: usize|
                        #[trigger] pair.0.blocks@.contains_key(p) ==> block_child_ok(
                            final(self).blocks@[pair.0.blocks@[p] as int],
                            pair.0,
                        )
                },
                Err(_) => true,
            },
        decreases events@.len() - cursor,
    {
        let ghost pre_self = *old(self);
        let ghost node0 = node;
        let ghost flat = flat_closed(events@, cursor as int);
        let ghost t: int = flat_term_idx(events@, cursor as int);
        proof {
            if flat {
                reveal(flat_closed);
                reveal(flat_term_idx);
                assert(cursor <= t < events@.len());
                assert(is_terminator(events@[t].op));
                assert(forall|j2: int|
                    cursor <= j2 < t ==> !is_opener((#[trigger] events@[j2]).op) && !is_terminator(
                        (#[trigger] events@[j2]).op,
                    ));
            }
        }
        let mut node = node;
        let mut cur: usize = cursor;
        let mut i: usize = 0;
        node.set_start(start);
        node.set_id(index);
        proof {
            node.calls.lemma_empty();
            node.blocks.lemma_empty();
            node.branches.lemma_empty();
            if node0.operations.entries_seq().len() == 0 {
                node.operations.lemma_empty();
            }
        }
        loop
            invariant
                self.blocks_ok(buf@),
                self.nodes == pre_self.nodes,
                self.blocks@.len() >= pre_self.blocks@.len(),
                self.blocks@.subrange(0, pre_self.blocks@.len() as int) == pre_self.blocks@,
                node.maps_wf(),
                node.children_unique(),
                node.children@.len() == 0,
                node.id == index,
                node.start == start,
                node.end == node0.end,
                node.end <= buf.len(),
                node.end != 0 ==> start <= node.end,
                cursor <= cur <= events@.len(),
                vars_below(node),
                flat ==> cur <= t,
                flat ==> {
                    &&& node.blocks.entries_seq().len() == 0
                    &&& node.constants.entries_seq().len()
                        == node0.constants.entries_seq().len() + const_count(
                        events@,
                        cursor as int,
                        cur as int,
                    )
                    &&& node.input_variables.entries_seq().len()
                        == node0.input_variables.entries_seq().len() + input_count(
                        events@,
                        cursor as int,
                        cur as int,
                        globals@.len() as int,
                    )
                    &&& node.output_variables.entries_seq().len()
                        == node0.output_variables.entries_seq().len() + output_count(
                        events@,
                        cursor as int,
                        cur as int,
                        globals@.len() as int,
                    )
                    &&& node.internal_variables.entries_seq().len()
                        == node0.internal_variables.entries_seq().len()
                    &&& effects_recorded(events@, cursor as int, cur as int, node)
                    &&& i == cur - cursor
                    &&& data_effects_recorded(
                        events@,
                        cursor as int,
                        cur as int,
                        node,
                        node0.id + node0.total_vars(),
                        globals@,
                        root_id,
                        n_params as int,
                    )
                },
                i <= cur,
                index + node.total_vars() + (events@.len() - cur) <= usize::MAX,
                node.flow_control_couplings@ == node0.flow_control_couplings@,
                node.flow_control_couplings.entries_seq().len()
                    == node0.flow_control_couplings.entries_seq().len(),
                node.input_variables.entries_seq().len()
                    >= node0.input_variables.entries_seq().len(),
                forall|k: usize|
                    #[trigger] node0.input_variables@.contains_key(k)
                        ==> node.input_variables@.contains_key(k)
                        && node.input_variables@[k] == node0.input_variables@[k],
                forall|k: usize|
                    #[trigger] node0.output_variables@.contains_key(k)
                        ==> node.output_variables@.contains_key(k)
                        && node.output_variables@[k] == node0.output_variables@[k],
                forall|k: usize|
                    node0.internal_variables@.contains_key(k)
                        ==> #[trigger] node.internal_variables@.contains_key(k),
                forall|k: usize|
                    #[trigger] node.calls@.contains_key(k) ==> exists|j: int|
                        cursor <= j < cur && (#[trigger] events@[j]).pos == k && match events@[j].op {
                            Op::Call { func } => node.calls@[k] == func,
                            Op::CallIndirect { table } => node.calls@[k] == table,
                            _ => false,
                        },
                forall|k: usize|
                    #[trigger] node.branches@.contains_key(k) ==> exists|j: int|
                        cursor <= j < cur && (#[trigger] events@[j]).pos == k && match events@[j].op {
                            Op::Br { depth } => node.branches@[k] == depth,
                            Op::BrIf { depth } => node.branches@[k] == depth,
                            Op::BrTable { targets } => brtable_pick(targets@) == Some(
                                node.branches@[k],
                            ),
                            _ => false,
                        },
                flat && node0.operations.entries_seq().len() == 0 ==> forall|k: usize|
                    #[trigger] node.operations@.contains_key(k) ==> exists|j: int|
                        #![trigger events@[j]]
                        cursor <= j < cur && (j - cursor + 1) as usize == k && match events@[j].op {
                            Op::LocalGet { index } => index < n_params && node.operations@[k] == (
                            AbstractExpression::Spin { id: (root_id + index) as usize }),
                            Op::Add { ty } => node.operations@[k] == (AbstractExpression::Add {
                                ty,
                            }),
                            Op::Mul { ty } => node.operations@[k] == (AbstractExpression::Mul {
                                ty,
                            }),
                            _ => false,
                        },
                forall|p: usize|
                    #[trigger] node.blocks@.contains_key(p) ==> pre_self.blocks@.len()
                        <= node.blocks@[p] < self.blocks@.len(),
                forall|p: usize|
                    #[trigger] node.blocks@.contains_key(p) ==> block_child_ok(
                        self.blocks@[node.blocks@[p] as int],
                        node,
                    ),
            decreases events@.len() - cur,
        {
            if cur >= events.len() {
                // the stream ended without a terminator for this region
                proof {
                    assert(!flat) by {
                        if flat {
                            assert(cur <= t < events@.len());
                        }
                    }
                }
                return Err(MapError::BadWasm);
            }
            let ghost prev_node = node;
            let ghost prev_self = *self;
            let ev = &events[cur];
            let position = ev.pos;
            cur = cur + 1;
            i = i + 1;
            match &ev.op {
                Op::Block | Op::Loop => {
                    // blocks and loops have no parameters: walk a fresh
                    // child node from here and register it
                    proof {
                        assert(!flat) by {
                            if flat {
                                if cur - 1 < t {
                                    assert(!is_opener(events@[cur - 1].op));
                                } else {
                                    assert(is_terminator(events@[t].op));
                                }
                            }
                        }
                    }
                    let mut child = Node::default();
                    child.set_id(i);
                    proof {
                        assert(vars_below(child));
                    }
                    match self.map_helper(
                        events,
                        buf,
                        globals,
                        root_id,
                        n_params,
                        cur,
                        position,
                        i,
                        child,
                    ) {
                        Ok(pair) => {
                            let (block_node, cur2) = pair;
                            cur = cur2;
                            let ghost mid_self = *self;
                            let ghost bnode = block_node;
                            let block_id = self.add_block(block_node);
                            node.add_block(position, block_id);
                            proof {
                                lemma_blocks_entries_below(bnode, mid_self.blocks@.len() as int);
                                lemma_push_block(mid_self, *self, bnode, buf@);
                                bnode.flow_control_couplings.lemma_empty();
                                assert forall|p: usize|
                                    #[trigger] node.blocks@.contains_key(p) implies block_child_ok(
                                    self.blocks@[node.blocks@[p] as int],
                                    node,
                                ) by {
                                    if p != position {
                                        assert(prev_node.blocks@.contains_key(p));
                                        assert(self.blocks@[node.blocks@[p] as int]
                                            == prev_self.blocks@[prev_node.blocks@[p] as int]);
                                        assert(block_child_ok(
                                            prev_self.blocks@[prev_node.blocks@[p] as int],
                                            prev_node,
                                        ));
                                    } else {
                                        assert(node.blocks@[p] == block_id);
                                        assert(self.blocks@[block_id as int] == bnode);
                                    }
                                }
                            }
                        },
                        Err(e) => {
                            return Err(e);
                        },
                    }
                },
                Op::If { ty } => {
                    // an if implies a single data dependency: an internal
                    // variable outside, coupled to an input variable of the
                    // clause
                    proof {
                        assert(!flat) by {
                            if flat {
                                if cur - 1 < t {
                                    assert(!is_opener(events@[cur - 1].op));
                                } else {
                                    assert(is_terminator(events@[t].op));
                                }
                            }
                        }
                    }
                    let outer_var_id = node.fresh_var_id();
                    proof {
                        lemma_keys_below_not_contains(node.internal_variables, outer_var_id);
                    }
                    node.add_internal_variable(outer_var_id, *ty);
                    proof {
                        crate::node::lemma_entries_below_after_insert(
                            prev_node.internal_variables,
                            node.internal_variables,
                            outer_var_id,
                            *ty,
                            prev_node.id + prev_node.total_vars() + 1,
                        );
                    }
                    let mut conditional_node = Node::default();
                    let inner_var_id = conditional_node.add_input_variable(*ty);
                    conditional_node.add_flow_control_coupling(outer_var_id, inner_var_id);
                    conditional_node.add_operation(i, AbstractExpression::Spin { id: inner_var_id });
                    conditional_node.set_id(i);
                    proof {
                        assert(vars_below(conditional_node)) by {
                            assert forall|e: int|
                                0 <= e < conditional_node.input_variables.entries_seq().len() implies (
                            #[trigger] conditional_node.input_variables.entries_seq()[e]).0
                                < conditional_node.id + conditional_node.total_vars() by {
                                conditional_node.input_variables.lemma_entry_view(e);
                            }
                        }
                    }
                    match self.map_helper(
                        events,
                        buf,
                        globals,
                        root_id,
                        n_params,
                        cur,
                        position,
                        i,
                        conditional_node,
                    ) {
                        Ok(pair) => {
                            let (cond_node, cur2) = pair;
                            cur = cur2;
                            let ghost mid_self = *self;
                            let ghost bnode = cond_node;
                            let conditional_id = self.add_block(cond_node);
                            node.add_block(position, conditional_id);
                            node.add_operation(i, AbstractExpression::Spin { id: outer_var_id });
                            proof {
                                lemma_blocks_entries_below(bnode, mid_self.blocks@.len() as int);
                                lemma_push_block(mid_self, *self, bnode, buf@);
                                assert(bnode.flow_control_couplings.entries_seq().len() == 1);
                                bnode.flow_control_couplings.lemma_entry_view(0);
                                assert(bnode.flow_control_couplings@.contains_key(
                                    bnode.flow_control_couplings.entries_seq()[0].0,
                                ));
                                assert(bnode.flow_control_couplings.entries_seq()[0].0
                                    == outer_var_id);
                                assert(node.internal_variables@.contains_key(outer_var_id));
                                assert forall|p: usize|
                                    #[trigger] node.blocks@.contains_key(p) implies block_child_ok(
                                    self.blocks@[node.blocks@[p] as int],
                                    node,
                                ) by {
                                    if p != position {
                                        assert(prev_node.blocks@.contains_key(p));
                                        assert(self.blocks@[node.blocks@[p] as int]
                                            == prev_self.blocks@[prev_node.blocks@[p] as int]);
                                        assert(block_child_ok(
                                            prev_self.blocks@[prev_node.blocks@[p] as int],
                                            prev_node,
                                        ));
                                    } else {
                                        assert(node.blocks@[p] == conditional_id);
                                        assert(self.blocks@[conditional_id as int] == bnode);
                                    }
                                }
                            }
                        },
                        Err(e) => {
                            return Err(e);
                        },
                    }
                },
                Op::Else => {
                    // an else is processed only while this walker is inside
                    // an if-clause: exactly one flow-control coupling and
                    // one input variable on the current node
                    proof {
                        assert(!flat) by {
                            if flat {
                                if cur - 1 < t {
                                    assert(!is_opener(events@[cur - 1].op));
                                } else {
                                    assert(is_terminator(events@[t].op));
                                }
                            }
                        }
                    }
                    let coupling_count = node.get_flow_control_couplings().len();
                    let input_variable_count = node.get_input_variables().len();
                    if coupling_count == 1 && input_variable_count == 1 {
                        let coupled_var_id = node.get_first_flow_control_coupling();
                        let input_type = node.get_first_input_variable();
                        let mut else_node = Node::default();
                        let inner_var_id = else_node.add_input_variable(input_type);
                        else_node.add_flow_control_coupling(coupled_var_id, inner_var_id);
                        else_node.set_id(i);
                        proof {
                            assert(vars_below(else_node)) by {
                                assert forall|e: int|
                                    0 <= e < else_node.input_variables.entries_seq().len() implies (
                                #[trigger] else_node.input_variables.entries_seq()[e]).0
                                    < else_node.id + else_node.total_vars() by {
                                    else_node.input_variables.lemma_entry_view(e);
                                }
                            }
                        }
                        match self.map_helper(
                            events,
                            buf,
                            globals,
                            root_id,
                            n_params,
                            cur,
                            position,
                            i,
                            else_node,
                        ) {
                            Ok(pair) => {
                                let (enode, cur2) = pair;
                                cur = cur2;
                                // the else's end also terminates the if
                                // clause
                                let if_end = enode.get_end();
                                node.set_end(if_end);
                                let ghost mid_self = *self;
                                let ghost bnode = enode;
                                let else_id = self.add_block(enode);
                                node.add_block(position, else_id);
                                proof {
                                    lemma_blocks_entries_below(
                                        bnode,
                                        mid_self.blocks@.len() as int,
                                    );
                                    lemma_push_block(mid_self, *self, bnode, buf@);
                                    assert(bnode.flow_control_couplings.entries_seq().len() == 1);
                                    bnode.flow_control_couplings.lemma_entry_view(0);
                                    assert(bnode.flow_control_couplings.entries_seq()[0].0
                                        == coupled_var_id);
                                    node.flow_control_couplings.lemma_entry_view(0);
                                    assert(map_has_value(
                                        node.flow_control_couplings,
                                        coupled_var_id,
                                    ));
                                    assert forall|p: usize|
                                        #[trigger] node.blocks@.contains_key(
                                        p,
                                    ) implies block_child_ok(
                                        self.blocks@[node.blocks@[p] as int],
                                        node,
                                    ) by {
                                        if p != position {
                                            assert(prev_node.blocks@.contains_key(p));
                                            assert(self.blocks@[node.blocks@[p] as int]
                                                == prev_self.blocks@[prev_node.blocks@[p] as int]);
                                            assert(block_child_ok(
                                                prev_self.blocks@[prev_node.blocks@[p] as int],
                                                prev_node,
                                            ));
                                        } else {
                                            assert(node.blocks@[p] == else_id);
                                            assert(self.blocks@[else_id as int] == bnode);
                                        }
                                    }
                                }
                                let end = node.get_end();
                                node.set_instrs(slice_range(buf, start, end));
                                return Ok((node, cur));
                            },
                            Err(e) => {
                                return Err(e);
                            },
                        }
                    }
                },
                Op::End | Op::Return => {
                    // a function node carries its end from the body range;
                    // otherwise the terminator closes the region here
                    if node.get_end() == 0 {
                        node.set_end(position + 1);
                    }
                    let end = node.get_end();
                    node.set_instrs(slice_range(buf, start, end));
                    proof {
                        if flat {
                            assert(cur - 1 == t) by {
                                if cur - 1 < t {
                                    assert(!is_terminator(events@[cur - 1].op));
                                }
                            }
                            assert(const_count(events@, cursor as int, cur as int) == const_count(
                                events@,
                                cursor as int,
                                cur - 1,
                            ));
                            assert(input_count(
                                events@,
                                cursor as int,
                                cur as int,
                                globals@.len() as int,
                            ) == input_count(
                                events@,
                                cursor as int,
                                cur - 1,
                                globals@.len() as int,
                            ));
                            assert(output_count(
                                events@,
                                cursor as int,
                                cur as int,
                                globals@.len() as int,
                            ) == output_count(
                                events@,
                                cursor as int,
                                cur - 1,
                                globals@.len() as int,
                            ));
                            assert forall|j: int|
                                cursor <= j < cur implies #[trigger] event_recorded(
                                events@,
                                j,
                                node,
                            ) by {
                                if j < cur - 1 {
                                    assert(event_recorded(events@, j, prev_node));
                                }
                            }
                            assert forall|j: int|
                                cursor <= j < cur implies #[trigger] data_recorded(
                                events@,
                                cursor as int,
                                cur as int,
                                j,
                                node,
                                node0.id + node0.total_vars(),
                                globals@,
                                root_id,
                                n_params as int,
                            ) by {
                                if j < cur - 1 {
                                    assert(data_recorded(
                                        events@,
                                        cursor as int,
                                        cur - 1,
                                        j,
                                        prev_node,
                                        node0.id + node0.total_vars(),
                                        globals@,
                                        root_id,
                                        n_params as int,
                                    ));
                                }
                            }
                        }
                    }
                    return Ok((node, cur));
                },
                _ => {
                    proof {
                        if flat {
                            // this operator is no terminator, so the
                            // closing one is still ahead
                            assert(cur - 1 < t) by {
                                if cur - 1 == t {
                                    assert(is_terminator(events@[t].op));
                                }
                            }
                        }
                    }
                    apply_op(&mut node, ev, i, root_id, n_params, globals);
                    proof {
                        // fresh variable ids never replace an existing one
                        assert forall|k: usize| #[trigger]
                            node0.input_variables@.contains_key(
                                k,
                            ) implies node.input_variables@.contains_key(k)
                            && node.input_variables@[k] == node0.input_variables@[k] by {
                            assert(prev_node.input_variables@.contains_key(k)
                                && prev_node.input_variables@[k] == node0.input_variables@[k]);
                            prev_node.input_variables.lemma_dom(k);
                            let e = choose|e: int|
                                0 <= e < prev_node.input_variables.entries_seq().len() && (
                                #[trigger] prev_node.input_variables.entries_seq()[e]).0 == k;
                            assert(k < prev_node.id + prev_node.total_vars());
                        }
                        assert forall|k: usize| #[trigger]
                            node0.output_variables@.contains_key(
                                k,
                            ) implies node.output_variables@.contains_key(k)
                            && node.output_variables@[k] == node0.output_variables@[k] by {
                            assert(prev_node.output_variables@.contains_key(k)
                                && prev_node.output_variables@[k] == node0.output_variables@[k]);
                            prev_node.output_variables.lemma_dom(k);
                            let e = choose|e: int|
                                0 <= e < prev_node.output_variables.entries_seq().len() && (
                                #[trigger] prev_node.output_variables.entries_seq()[e]).0 == k;
                            assert(k < prev_node.id + prev_node.total_vars());
                        }
                        if flat {
                            assert(const_count(events@, cursor as int, cur as int) == const_count(
                                events@,
                                cursor as int,
                                cur - 1,
                            ) + const_delta(events@[cur - 1].op));
                            assert(input_count(
                                events@,
                                cursor as int,
                                cur as int,
                                globals@.len() as int,
                            ) == input_count(events@, cursor as int, cur - 1, globals@.len() as int)
                                + input_delta(events@[cur - 1].op, globals@.len() as int));
                            assert(output_count(
                                events@,
                                cursor as int,
                                cur as int,
                                globals@.len() as int,
                            ) == output_count(events@, cursor as int, cur - 1, globals@.len() as int)
                                + output_delta(events@[cur - 1].op, globals@.len() as int));
                            assert forall|j: int|
                                cursor <= j < cur implies #[trigger] event_recorded(
                                events@,
                                j,
                                node,
                            ) by {
                                if j < cur - 1 {
                                    assert(event_recorded(events@, j, prev_node));
                                    assert(events@[j].pos < events@[cur - 1].pos);
                                } else {
                                    assert(op_effect(
                                        prev_node,
                                        node,
                                        *ev,
                                        i,
                                        root_id,
                                        n_params,
                                        globals@,
                                    ));
                                }
                            }
                            assert(prev_node.id + prev_node.total_vars() == node0.id
                                + node0.total_vars() + var_count(
                                events@,
                                cursor as int,
                                cur - 1,
                                globals@.len() as int,
                            ));
                            lemma_data_step(
                                prev_node,
                                node,
                                events@,
                                cursor as int,
                                cur as int,
                                node0.id + node0.total_vars(),
                                globals@,
                                root_id,
                                n_params,
                                i,
                            );
                        }
                    }
                },
            }
        }
    }
}

/// What a node knows of each inline block it has registered: the block
/// carries at most one flow-control coupling; when it carries one (it is
/// an if-clause or an else-clause) it also carries an input variable, and
/// the coupling's outer end refers back to this node: either an internal
/// variable (the if condition) or the inner end of one of this node's own
/// couplings (the shared target of an else).
pub open spec fn block_child_ok(b: Node, parent: Node) -> bool {
    &&& b.flow_control_couplings.entries_seq().len() <= 1
    &&& b.flow_control_couplings.entries_seq().len() == 1 ==> {
        &&& b.input_variables.entries_seq().len() >= 1
        &&& (parent.internal_variables@.contains_key(b.flow_control_couplings.entries_seq()[0].0)
            || map_has_value(
            parent.flow_control_couplings,
            b.flow_control_couplings.entries_seq()[0].0,
        ))
    }
}

} // verus!
