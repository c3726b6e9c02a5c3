//! Value types, abstract operations and the lowered expression forms.

use vstd::prelude::*;

verus! {

/// A WebAssembly value type, as far as the mapper distinguishes them.
///
/// `Ref` stands for any reference type and `Empty` for the empty block
/// result type.
#[derive(Clone, Copy, PartialEq, Eq, Structural, Debug)]
pub enum ValType {
    I32,
    I64,
    F32,
    F64,
    V128,
    Ref,
    Empty,
}

/// A logical operation that can be compiled to a simulatable transfer
/// function for a quantum annealer.
#[derive(Clone, Copy, PartialEq, Eq, Structural, Debug)]
pub enum AbstractExpression {
    Spin { id: usize },
    Num { val: usize },
    Add { ty: ValType },
    Mul { ty: ValType },
}

/// A physical expression: the operations and data kinds the annealer
/// back end understands.
#[derive(Debug)]
pub enum PhysicalExpression {
    Add { operand_one: Box<PhysicalExpression>, operand_two: Box<PhysicalExpression> },
    Mul { operand_one: Box<PhysicalExpression>, operand_two: Box<PhysicalExpression> },
    Spin { val: bool },
    Num { val: usize },
    Binary { val: bool },
}

/// A nestable quantum unconstrained boolean optimization problem
/// expression, tied to the node it was lowered from.
#[derive(Debug)]
pub struct QUBO {
    pub id: usize,
    pub expression: Option<PhysicalExpression>,
}

impl QUBO {
    /// An empty problem for the node with the given id.
    pub fn default(node_id: usize) -> (r: QUBO)
        ensures
            r.id == node_id,
            r.expression is None,
    {
        QUBO { id: node_id, expression: None }
    }
}

/// One decoded operator, reduced to the effect families the mapper
/// distinguishes. Operators outside these families have no effect on a
/// node and arrive as `Other`.
#[derive(Clone, Debug)]
pub enum Op {
    Unreachable,
    Nop,
    Block,
    Loop,
    If { ty: ValType },
    Else,
    End,
    Return,
    Br { depth: usize },
    BrIf { depth: usize },
    BrTable { targets: Vec<usize> },
    Call { func: usize },
    CallIndirect { table: usize },
    Load { ty: ValType, offset: usize },
    Store { ty: ValType, offset: usize },
    GlobalGet { index: usize },
    GlobalSet { index: usize },
    LocalGet { index: usize },
    Const { ty: ValType },
    Add { ty: ValType },
    Mul { ty: ValType },
    Other,
}

/// One decoded operator together with the byte offset of its opcode in the
/// module buffer.
#[derive(Clone, Debug)]
pub struct Event {
    pub pos: usize,
    pub op: Op,
}

/// Why a walk failed.
#[derive(Clone, Copy, PartialEq, Eq, Structural, Debug)]
pub enum MapError {
    /// The operator stream ended, or left its byte range, without a
    /// well-placed terminator.
    BadWasm,
    /// No unused node id was left for a lifted block.
    IdOverflow,
}

} // verus!
