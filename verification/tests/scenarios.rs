//! End-to-end scenarios on the canonical smallest WebAssembly modules.

use flow_mapper::mapper::{module_is_valid, new_mapper, FuncBody, FuncType, ModuleInfo};
use flow_mapper::node::Node;
use flow_mapper::types::{AbstractExpression, Event, MapError, Op, ValType};

/// The eight magic-and-version bytes every module starts with.
fn header() -> Vec<u8> {
    vec![0x00, 0x61, 0x73, 0x6d, 0x01, 0x00, 0x00, 0x00]
}

fn ev(pos: usize, op: Op) -> Event {
    Event { pos, op }
}

fn empty_module_info() -> ModuleInfo {
    ModuleInfo { types: Vec::new(), globals: Vec::new(), func_types: Vec::new(), functions: Vec::new() }
}

#[test]
fn empty_module() {
    let buf = header();
    assert!(module_is_valid(&buf));
    let mut mapper = new_mapper();
    let module = empty_module_info();
    let nodes = mapper.map(&buf, &module).unwrap();
    assert_eq!(nodes.len(), 0);
}

/// `(module (func (result i32) i32.const 42))`
fn single_function_module() -> (Vec<u8>, ModuleInfo) {
    let mut buf = header();
    buf.extend_from_slice(&[0x01, 0x05, 0x01, 0x60, 0x00, 0x01, 0x7f]);
    buf.extend_from_slice(&[0x03, 0x02, 0x01, 0x00]);
    buf.extend_from_slice(&[0x0a, 0x06, 0x01, 0x04, 0x00, 0x41, 0x2a, 0x0b]);
    let module = ModuleInfo {
        types: vec![FuncType { params: vec![], results: vec![ValType::I32] }],
        globals: vec![],
        func_types: vec![0],
        functions: vec![FuncBody {
            func_index: 0,
            start: 23,
            end: 27,
            events: vec![ev(24, Op::Const { ty: ValType::I32 }), ev(26, Op::End)],
        }],
    };
    (buf, module)
}

#[test]
fn single_function_no_calls() {
    let (buf, module) = single_function_module();
    assert!(module_is_valid(&buf));
    let mut mapper = new_mapper();
    let nodes = mapper.map(&buf, &module).unwrap();
    assert_eq!(nodes.len(), 1);
    let n = &nodes[0];
    assert_eq!(n.id, 0);
    assert_eq!(n.get_start(), 23);
    assert_eq!(n.get_end(), 27);
    assert_eq!(n.get_instrs().as_slice(), &buf[23..27]);
    assert_eq!(n.get_instrs().len(), n.get_end() - n.get_start());
    assert_eq!(n.get_constants().len(), 1);
    assert_eq!(n.get_calls().len(), 0);
    assert_eq!(n.get_blocks().len(), 0);
    assert_eq!(n.get_input_variables().len(), 0);
    // one output variable of type i32, registered from the signature
    assert_eq!(n.output_variables.len(), 1);
    assert_eq!(n.output_variables.get(0), Some(ValType::I32));
    assert_eq!(n.get_first_input_variable(), ValType::Ref);
    assert_eq!(n.get_internal_variables().len(), 0);
}

/// The decoder agrees with the hand-computed offsets the scenario uses.
#[test]
fn single_function_offsets_match_decoder() {
    let (buf, _) = single_function_module();
    let parser = wasmparser::Parser::new(0);
    let mut seen_body = false;
    for payload in parser.parse_all(&buf) {
        if let wasmparser::Payload::CodeSectionEntry(body) = payload.unwrap() {
            seen_body = true;
            assert_eq!(body.range().start, 23);
            assert_eq!(body.range().end, 27);
            let mut reader = body.get_operators_reader().unwrap();
            assert_eq!(reader.original_position(), 24);
            let first = reader.read().unwrap();
            assert!(matches!(first, wasmparser::Operator::I32Const { value: 42 }));
            assert_eq!(reader.original_position(), 26);
            let second = reader.read().unwrap();
            assert!(matches!(second, wasmparser::Operator::End));
        }
    }
    assert!(seen_body);
}

/// `(module (func $a (result i32) i32.const 1) (func $b (result i32) call $a))`
fn two_function_module() -> (Vec<u8>, ModuleInfo) {
    let mut buf = header();
    buf.extend_from_slice(&[0x01, 0x05, 0x01, 0x60, 0x00, 0x01, 0x7f]);
    buf.extend_from_slice(&[0x03, 0x03, 0x02, 0x00, 0x00]);
    buf.extend_from_slice(&[
        0x0a, 0x0b, 0x02, 0x04, 0x00, 0x41, 0x01, 0x0b, 0x04, 0x00, 0x10, 0x00, 0x0b,
    ]);
    let module = ModuleInfo {
        types: vec![FuncType { params: vec![], results: vec![ValType::I32] }],
        globals: vec![],
        func_types: vec![0, 0],
        functions: vec![
            FuncBody {
                func_index: 0,
                start: 24,
                end: 28,
                events: vec![ev(25, Op::Const { ty: ValType::I32 }), ev(27, Op::End)],
            },
            FuncBody {
                func_index: 1,
                start: 29,
                end: 33,
                events: vec![ev(30, Op::Call { func: 0 }), ev(32, Op::End)],
            },
        ],
    };
    (buf, module)
}

#[test]
fn two_functions_one_call() {
    let (buf, module) = two_function_module();
    assert!(module_is_valid(&buf));
    let mut mapper = new_mapper();
    let nodes = mapper.map(&buf, &module).unwrap();
    assert_eq!(nodes.len(), 2);
    let b = &nodes[1];
    assert_eq!(b.get_calls().len(), 1);
    assert_eq!(b.get_calls().get(30), Some(0));
    assert!(b.has_child(0));
    let child = b.get_child(0).unwrap();
    assert_eq!(child.id, 0);
    assert_eq!(child.get_constants().len(), 1);
    assert_eq!(child.get_instrs().as_slice(), &buf[24..28]);
    // the expanded tree has exactly the two functions: one child below b,
    // none below a
    assert_eq!(nodes[0].children_count(), 0);
    assert_eq!(b.children_count(), 1);
}

/// `(module (func $r call $r))`
fn self_recursive_module() -> (Vec<u8>, ModuleInfo) {
    let mut buf = header();
    buf.extend_from_slice(&[0x01, 0x04, 0x01, 0x60, 0x00, 0x00]);
    buf.extend_from_slice(&[0x03, 0x02, 0x01, 0x00]);
    buf.extend_from_slice(&[0x0a, 0x06, 0x01, 0x04, 0x00, 0x10, 0x00, 0x0b]);
    let module = ModuleInfo {
        types: vec![FuncType { params: vec![], results: vec![] }],
        globals: vec![],
        func_types: vec![0],
        functions: vec![FuncBody {
            func_index: 0,
            start: 22,
            end: 26,
            events: vec![ev(23, Op::Call { func: 0 }), ev(25, Op::End)],
        }],
    };
    (buf, module)
}

#[test]
fn self_recursive_function() {
    let (buf, module) = self_recursive_module();
    assert!(module_is_valid(&buf));
    let mut mapper = new_mapper();
    let nodes = mapper.map(&buf, &module).unwrap();
    assert_eq!(nodes.len(), 1);
    let r = &nodes[0];
    // the self reference is pruned: the call edge stays, no child appears
    assert_eq!(r.get_calls().len(), 1);
    assert_eq!(r.get_calls().get(23), Some(0));
    assert_eq!(r.children_count(), 0);
    // collapsing leaves the dangling edge and the bytes untouched
    let collapsed = r.collapse();
    assert_eq!(collapsed.get_instrs().as_slice(), r.get_instrs().as_slice());
    assert_eq!(collapsed.get_calls().len(), 1);
}

/// `(module (func $a call $b) (func $b call $a))`
fn mutual_recursion_module() -> (Vec<u8>, ModuleInfo) {
    let mut buf = header();
    buf.extend_from_slice(&[0x01, 0x04, 0x01, 0x60, 0x00, 0x00]);
    buf.extend_from_slice(&[0x03, 0x03, 0x02, 0x00, 0x00]);
    buf.extend_from_slice(&[
        0x0a, 0x0b, 0x02, 0x04, 0x00, 0x10, 0x01, 0x0b, 0x04, 0x00, 0x10, 0x00, 0x0b,
    ]);
    let module = ModuleInfo {
        types: vec![FuncType { params: vec![], results: vec![] }],
        globals: vec![],
        func_types: vec![0, 0],
        functions: vec![
            FuncBody {
                func_index: 0,
                start: 23,
                end: 27,
                events: vec![ev(24, Op::Call { func: 1 }), ev(26, Op::End)],
            },
            FuncBody {
                func_index: 1,
                start: 28,
                end: 32,
                events: vec![ev(29, Op::Call { func: 0 }), ev(31, Op::End)],
            },
        ],
    };
    (buf, module)
}

#[test]
fn mutual_recursion_prunes_loops() {
    let (buf, module) = mutual_recursion_module();
    assert!(module_is_valid(&buf));
    let mut mapper = new_mapper();
    let nodes = mapper.map(&buf, &module).unwrap();
    assert_eq!(nodes.len(), 2);
    // a includes b as a child; b's recursive expansion meets a on the path
    // and prunes, so the nested b holds no child, only its retained edge
    let a = &nodes[0];
    assert!(a.has_child(1));
    let nested_b = a.get_child(1).unwrap();
    assert_eq!(nested_b.children_count(), 0);
    assert_eq!(nested_b.get_calls().len(), 1);
    // and symmetrically from b
    let b = &nodes[1];
    assert!(b.has_child(0));
    let nested_a = b.get_child(0).unwrap();
    assert_eq!(nested_a.children_count(), 0);
    assert_eq!(nested_a.get_calls().len(), 1);
}

/// `(module (func (param i32) (result i32) get_local 0
///    if (result i32) i32.const 1 else i32.const 2 end))`
fn if_else_module() -> (Vec<u8>, ModuleInfo) {
    let mut buf = header();
    buf.extend_from_slice(&[0x01, 0x06, 0x01, 0x60, 0x01, 0x7f, 0x01, 0x7f]);
    buf.extend_from_slice(&[0x03, 0x02, 0x01, 0x00]);
    buf.extend_from_slice(&[
        0x0a, 0x0e, 0x01, 0x0c, 0x00, 0x20, 0x00, 0x04, 0x7f, 0x41, 0x01, 0x05, 0x41, 0x02, 0x0b,
        0x0b,
    ]);
    let module = ModuleInfo {
        types: vec![FuncType { params: vec![ValType::I32], results: vec![ValType::I32] }],
        globals: vec![],
        func_types: vec![0],
        functions: vec![FuncBody {
            func_index: 0,
            start: 24,
            end: 36,
            events: vec![
                ev(25, Op::LocalGet { index: 0 }),
                ev(27, Op::If { ty: ValType::I32 }),
                ev(29, Op::Const { ty: ValType::I32 }),
                ev(31, Op::Else),
                ev(32, Op::Const { ty: ValType::I32 }),
                ev(34, Op::End),
                ev(35, Op::End),
            ],
        }],
    };
    (buf, module)
}

#[test]
fn if_else_clauses() {
    let (buf, module) = if_else_module();
    assert!(module_is_valid(&buf));
    let mut mapper = new_mapper();
    let nodes = mapper.map(&buf, &module).unwrap();
    assert_eq!(nodes.len(), 1);
    let root = &nodes[0];
    assert_eq!(root.get_end(), 36);
    // the condition became one internal variable of type i32
    assert_eq!(root.get_internal_variables().len(), 1);
    // the if-clause hangs below the root; the else-clause below the
    // if-clause, since the else is discovered while walking the clause
    assert_eq!(root.children_count(), 1);
    let if_clause = root.get_child(1).unwrap();
    assert_eq!(if_clause.get_input_variables().len(), 1);
    assert_eq!(if_clause.get_flow_control_couplings().len(), 1);
    // the coupling points back to the root's internal variable
    let internal_id = root.get_internal_variables().key_at(0);
    assert_eq!(if_clause.get_flow_control_couplings().key_at(0), internal_id);
    let coupling_target = if_clause.get_first_flow_control_coupling();
    // the else-clause shares the coupling target
    assert_eq!(if_clause.children_count(), 1);
    let else_clause = if_clause.get_child(2).unwrap();
    assert_eq!(else_clause.get_input_variables().len(), 1);
    assert_eq!(else_clause.get_flow_control_couplings().len(), 1);
    assert_eq!(else_clause.get_flow_control_couplings().key_at(0), coupling_target);
    // the else's end also ends the if-clause
    assert_eq!(if_clause.get_end(), 35);
    assert_eq!(else_clause.get_end(), 35);
    // the parameter read became a spin of the parameter's variable id, and
    // the condition a spin of the internal variable in the root and of the
    // clause's input variable in the clause
    assert_eq!(root.operations.get(1), Some(AbstractExpression::Spin { id: 0 }));
    assert_eq!(root.operations.get(2), Some(AbstractExpression::Spin { id: internal_id }));
    assert_eq!(if_clause.operations.get(2), Some(AbstractExpression::Spin { id: 0 }));
}

#[test]
fn collapse_rebuilds_function_bytes() {
    let (buf, module) = if_else_module();
    let mut mapper = new_mapper();
    let nodes = mapper.map(&buf, &module).unwrap();
    let root = &nodes[0];
    // the lifted clauses carved their bytes out of the root
    assert!(root.get_instrs().len() < 12);
    // collapsing splices every clause back at its call site and restores
    // the function body byte for byte
    let collapsed = root.collapse();
    assert_eq!(collapsed.get_instrs().as_slice(), &buf[24..36]);
    assert_eq!(collapsed.get_calls().len(), 0);
}

#[test]
fn expansion_is_idempotent() {
    let (buf, module) = two_function_module();
    let mut mapper = new_mapper();
    let nodes = mapper.map(&buf, &module).unwrap();
    let copies: Vec<Node> = nodes.iter().map(|n| n.duplicate()).collect();
    let mut second = new_mapper();
    let again = second.expand_tree(copies).unwrap();
    assert_eq!(again.len(), nodes.len());
    for (a, b) in nodes.iter().zip(again.iter()) {
        assert_eq!(a.id, b.id);
        assert_eq!(a.get_instrs().as_slice(), b.get_instrs().as_slice());
        assert_eq!(a.get_calls().len(), b.get_calls().len());
        assert_eq!(a.children_count(), b.children_count());
        assert_eq!(a.get_blocks().len(), b.get_blocks().len());
    }
}

#[test]
fn garbage_is_not_a_module() {
    let buf = vec![0x42, 0x42, 0x42, 0x42];
    assert!(!module_is_valid(&buf));
}

/// `(module (func loop br 0 end))`
fn loop_module() -> (Vec<u8>, ModuleInfo) {
    let mut buf = header();
    buf.extend_from_slice(&[0x01, 0x04, 0x01, 0x60, 0x00, 0x00]);
    buf.extend_from_slice(&[0x03, 0x02, 0x01, 0x00]);
    buf.extend_from_slice(&[0x0a, 0x09, 0x01, 0x07, 0x00, 0x03, 0x40, 0x0c, 0x00, 0x0b, 0x0b]);
    let module = ModuleInfo {
        types: vec![FuncType { params: vec![], results: vec![] }],
        globals: vec![],
        func_types: vec![0],
        functions: vec![FuncBody {
            func_index: 0,
            start: 22,
            end: 29,
            events: vec![
                ev(23, Op::Loop),
                ev(25, Op::Br { depth: 0 }),
                ev(27, Op::End),
                ev(28, Op::End),
            ],
        }],
    };
    (buf, module)
}

#[test]
fn loop_is_lifted_with_its_branch() {
    let (buf, module) = loop_module();
    assert!(module_is_valid(&buf));
    let mut mapper = new_mapper();
    let nodes = mapper.map(&buf, &module).unwrap();
    let root = &nodes[0];
    // the loop left the root as a first-class child reached by a call edge
    // at its byte position
    assert_eq!(root.get_blocks().len(), 0);
    assert_eq!(root.children_count(), 1);
    assert_eq!(root.get_calls().get(23), Some(1));
    let lifted = root.get_child(1).unwrap();
    assert_eq!(lifted.get_start(), 23);
    assert_eq!(lifted.get_end(), 28);
    assert_eq!(lifted.get_instrs().as_slice(), &buf[23..28]);
    // the branch was recorded at its position with its depth
    assert!(lifted.has_branch(25));
    assert_eq!(lifted.branches.get(25), Some(0));
    // splicing the loop back restores the body
    let collapsed = root.collapse();
    assert_eq!(collapsed.get_instrs().as_slice(), &buf[22..29]);
}

/// `(module (global i32 (i32.const 0)) (func global.get 0 drop))`
fn global_module() -> (Vec<u8>, ModuleInfo) {
    let mut buf = header();
    buf.extend_from_slice(&[0x01, 0x04, 0x01, 0x60, 0x00, 0x00]);
    buf.extend_from_slice(&[0x03, 0x02, 0x01, 0x00]);
    buf.extend_from_slice(&[0x06, 0x06, 0x01, 0x7f, 0x00, 0x41, 0x00, 0x0b]);
    buf.extend_from_slice(&[0x0a, 0x07, 0x01, 0x05, 0x00, 0x23, 0x00, 0x1a, 0x0b]);
    let module = ModuleInfo {
        types: vec![FuncType { params: vec![], results: vec![] }],
        globals: vec![ValType::I32],
        func_types: vec![0],
        functions: vec![FuncBody {
            func_index: 0,
            start: 30,
            end: 35,
            events: vec![
                ev(31, Op::GlobalGet { index: 0 }),
                ev(33, Op::Other),
                ev(34, Op::End),
            ],
        }],
    };
    (buf, module)
}

#[test]
fn global_read_couples_an_input_variable() {
    let (buf, module) = global_module();
    assert!(module_is_valid(&buf));
    let mut mapper = new_mapper();
    let nodes = mapper.map(&buf, &module).unwrap();
    let root = &nodes[0];
    assert_eq!(root.get_input_variables().len(), 1);
    assert_eq!(root.get_first_input_variable(), ValType::I32);
    assert_eq!(root.global_input_data_couplings.get(0), Some(0));
    // a globally coupled input variable is not a parameter
    assert!(!root.input_variable_is_param(0));
}

/// `(module (memory 1) (func i32.const 0 i32.load drop))`
fn load_module() -> (Vec<u8>, ModuleInfo) {
    let mut buf = header();
    buf.extend_from_slice(&[0x01, 0x04, 0x01, 0x60, 0x00, 0x00]);
    buf.extend_from_slice(&[0x03, 0x02, 0x01, 0x00]);
    buf.extend_from_slice(&[0x05, 0x03, 0x01, 0x00, 0x01]);
    buf.extend_from_slice(&[0x0a, 0x0a, 0x01, 0x08, 0x00, 0x41, 0x00, 0x28, 0x02, 0x00, 0x1a, 0x0b]);
    let module = ModuleInfo {
        types: vec![FuncType { params: vec![], results: vec![] }],
        globals: vec![],
        func_types: vec![0],
        functions: vec![FuncBody {
            func_index: 0,
            start: 27,
            end: 35,
            events: vec![
                ev(28, Op::Const { ty: ValType::I32 }),
                ev(30, Op::Load { ty: ValType::I32, offset: 0 }),
                ev(33, Op::Other),
                ev(34, Op::End),
            ],
        }],
    };
    (buf, module)
}

#[test]
fn memory_read_couples_an_input_variable() {
    let (buf, module) = load_module();
    assert!(module_is_valid(&buf));
    let mut mapper = new_mapper();
    let nodes = mapper.map(&buf, &module).unwrap();
    let root = &nodes[0];
    assert_eq!(root.get_constants().len(), 1);
    assert_eq!(root.get_input_variables().len(), 1);
    // the constant took id 0, so the loaded value took id 1, coupled to
    // memory offset 0
    assert_eq!(root.input_data_couplings.get(0), Some(1));
    assert!(!root.input_variable_is_param(1));
    assert!(root.input_variable_is_param(0));
}

/// `(module (func i32.const 1 i32.const 2 i32.add drop))`
fn add_module() -> (Vec<u8>, ModuleInfo) {
    let mut buf = header();
    buf.extend_from_slice(&[0x01, 0x04, 0x01, 0x60, 0x00, 0x00]);
    buf.extend_from_slice(&[0x03, 0x02, 0x01, 0x00]);
    buf.extend_from_slice(&[0x0a, 0x0a, 0x01, 0x08, 0x00, 0x41, 0x01, 0x41, 0x02, 0x6a, 0x1a, 0x0b]);
    let module = ModuleInfo {
        types: vec![FuncType { params: vec![], results: vec![] }],
        globals: vec![],
        func_types: vec![0],
        functions: vec![FuncBody {
            func_index: 0,
            start: 22,
            end: 30,
            events: vec![
                ev(23, Op::Const { ty: ValType::I32 }),
                ev(25, Op::Const { ty: ValType::I32 }),
                ev(27, Op::Add { ty: ValType::I32 }),
                ev(28, Op::Other),
                ev(29, Op::End),
            ],
        }],
    };
    (buf, module)
}

#[test]
fn add_becomes_an_abstract_operation() {
    let (buf, module) = add_module();
    assert!(module_is_valid(&buf));
    let mut mapper = new_mapper();
    let nodes = mapper.map(&buf, &module).unwrap();
    let root = &nodes[0];
    assert_eq!(root.get_constants().len(), 2);
    // the add arrived at walk step 3
    assert_eq!(root.operations.get(3), Some(AbstractExpression::Add { ty: ValType::I32 }));
}

/// `(module (func block block nop end end))`
fn nested_blocks_module() -> (Vec<u8>, ModuleInfo) {
    let mut buf = header();
    buf.extend_from_slice(&[0x01, 0x04, 0x01, 0x60, 0x00, 0x00]);
    buf.extend_from_slice(&[0x03, 0x02, 0x01, 0x00]);
    buf.extend_from_slice(&[
        0x0a, 0x0b, 0x01, 0x09, 0x00, 0x02, 0x40, 0x02, 0x40, 0x01, 0x0b, 0x0b, 0x0b,
    ]);
    let module = ModuleInfo {
        types: vec![FuncType { params: vec![], results: vec![] }],
        globals: vec![],
        func_types: vec![0],
        functions: vec![FuncBody {
            func_index: 0,
            start: 22,
            end: 31,
            events: vec![
                ev(23, Op::Block),
                ev(25, Op::Block),
                ev(27, Op::Nop),
                ev(28, Op::End),
                ev(29, Op::End),
                ev(30, Op::End),
            ],
        }],
    };
    (buf, module)
}

#[test]
fn nested_blocks_become_a_chain_of_children() {
    let (buf, module) = nested_blocks_module();
    assert!(module_is_valid(&buf));
    let mut mapper = new_mapper();
    let nodes = mapper.map(&buf, &module).unwrap();
    let root = &nodes[0];
    assert_eq!(root.children_count(), 1);
    let outer = root.get_child(1).unwrap();
    assert_eq!(outer.get_start(), 23);
    assert_eq!(outer.get_end(), 30);
    assert_eq!(outer.children_count(), 1);
    let inner = outer.get_child(2).unwrap();
    assert_eq!(inner.get_start(), 25);
    assert_eq!(inner.get_end(), 29);
    assert_eq!(inner.get_instrs().as_slice(), &buf[25..29]);
    assert_eq!(inner.children_count(), 0);
    // the blocks were normalized away at every level
    assert_eq!(root.get_blocks().len(), 0);
    assert_eq!(outer.get_blocks().len(), 0);
    assert_eq!(inner.get_blocks().len(), 0);
    // splicing the chain back restores the body byte for byte
    let collapsed = root.collapse();
    assert_eq!(collapsed.get_instrs().as_slice(), &buf[22..31]);
}

#[test]
fn truncated_stream_is_bad_wasm() {
    let (buf, mut module) = single_function_module();
    // drop the terminator: the walk runs off the operator stream
    module.functions[0].events.pop();
    let mut mapper = new_mapper();
    let r = mapper.map(&buf, &module);
    assert!(matches!(r, Err(MapError::BadWasm)));
}

#[test]
fn incoherent_positions_are_bad_wasm() {
    let (buf, mut module) = single_function_module();
    // positions must strictly increase within a body
    module.functions[0].events[1].pos = 10;
    let mut mapper = new_mapper();
    let r = mapper.map(&buf, &module);
    assert!(matches!(r, Err(MapError::BadWasm)));
}
