//! Unit tests for the keyed map, the node model and the rendering and
//! validation wrappers.

use flow_mapper::keyed_map::KeyedMap;
use flow_mapper::mapper::new_mapper;
use flow_mapper::node::Node;
use flow_mapper::types::{AbstractExpression, PhysicalExpression, ValType, QUBO};

#[test]
fn keyed_map_orders_keys() {
    let mut m: KeyedMap<usize> = KeyedMap::new();
    m.insert(30, 3);
    m.insert(10, 1);
    m.insert(20, 2);
    assert_eq!(m.len(), 3);
    assert_eq!(m.key_at(0), 10);
    assert_eq!(m.key_at(1), 20);
    assert_eq!(m.key_at(2), 30);
    assert_eq!(m.get(20), Some(2));
    assert_eq!(m.get(25), None);
    assert_eq!(m.min_key(), Some(10));
    assert_eq!(m.max_key(), Some(30));
    m.insert(20, 9);
    assert_eq!(m.len(), 3);
    assert_eq!(m.get(20), Some(9));
    m.remove(10);
    assert_eq!(m.len(), 2);
    assert_eq!(m.min_key(), Some(20));
    assert!(!m.contains_key(10));
}

#[test]
fn node_registers_variables_under_fresh_ids() {
    let mut n = Node::default();
    n.set_id(5);
    let a = n.add_input_variable(ValType::I32);
    let b = n.add_input_variable(ValType::I64);
    let c = n.add_constant(ValType::F32);
    let d = n.add_output_variable(ValType::I32);
    assert_eq!(a, 5);
    assert_eq!(b, 6);
    assert_eq!(c, 7);
    assert_eq!(d, 8);
    assert_eq!(n.get_input_variables().len(), 2);
    assert_eq!(n.get_constants().len(), 1);
    assert_eq!(n.get_first_input_variable(), ValType::I32);
}

#[test]
fn input_variable_is_param_checks_couplings() {
    let mut n = Node::default();
    let p = n.add_input_variable(ValType::I32);
    let loaded = n.add_input_variable(ValType::I64);
    n.add_input_data_coupling(64, loaded);
    assert!(n.input_variable_is_param(p));
    assert!(!n.input_variable_is_param(loaded));
    let g = n.add_input_variable(ValType::I32);
    n.add_global_input_data_coupling(2, g);
    assert!(!n.input_variable_is_param(g));
}

#[test]
fn remove_instrs_drops_the_range() {
    let mut n = Node::default();
    n.set_instrs(vec![1, 2, 3, 4, 5, 6]);
    n.remove_instrs(2, 4);
    assert_eq!(n.get_instrs().as_slice(), &[1, 2, 5, 6]);
}

#[test]
fn branches_and_calls_are_recorded() {
    let mut n = Node::default();
    n.add_branch(7, 1);
    assert!(n.has_branch(7));
    assert!(!n.has_branch(8));
    n.add_call(9, 3);
    assert!(n.has_call(9));
    assert_eq!(n.get_calls().get(9), Some(3));
    n.add_operation(1, AbstractExpression::Add { ty: ValType::I32 });
    n.add_operation(2, AbstractExpression::Spin { id: 0 });
}

#[test]
fn children_are_keyed_by_id() {
    let mut parent = Node::default();
    let mut child = Node::default();
    child.set_id(4);
    parent.add_child(4, child);
    assert!(parent.has_child(4));
    assert!(!parent.has_child(5));
    let c = parent.get_child(4).unwrap();
    assert_eq!(c.id, 4);
    let mut other = Node::default();
    other.set_id(6);
    parent.add_children(vec![(6, other)]);
    assert_eq!(parent.children_count(), 2);
    parent.set_children(Vec::new());
    assert_eq!(parent.children_count(), 0);
}

#[test]
fn qubo_default_is_empty() {
    let q = QUBO::default(3);
    assert_eq!(q.id, 3);
    assert!(q.expression.is_none());
    let e = PhysicalExpression::Num { val: 7 };
    match e {
        PhysicalExpression::Num { val } => assert_eq!(val, 7),
        _ => panic!("wrong variant"),
    }
}

#[test]
fn print_tree_renders_the_indices() {
    let mapper = new_mapper();
    let mut nodes: Vec<Node> = Vec::new();
    for id in 0..3 {
        let mut n = Node::default();
        n.set_id(id);
        nodes.push(n);
    }
    let text = mapper.print_tree(&nodes);
    assert_eq!(text, " 0─┐\n   1\n 2─┘\n");
}

#[test]
fn unique_block_id_tops_all_ids() {
    let mapper = new_mapper();
    assert_eq!(mapper.unique_block_id(), 1);
}
