use std::collections::HashMap;

use redstone_compiler::ir::logical::{
    ClockEdge, LogicalBinding, LogicalCell, LogicalCellKind, LogicalDesign, LogicalInput, LogicalInstance,
    LogicalModule, LogicalNet, LogicalOutput, LogicalPort, LogicalPortDirection, LogicalValue,
};
use redstone_compiler::ir::mapping::combinational::emit_cell;
use redstone_compiler::ir::mapping::error::LowerError;
use redstone_compiler::ir::mapping::design::logical_ports;
use redstone_compiler::ir::mapping::lowering::{
    lower_flat_module, module_is_simple_state_design, requires_general_flat_lowering,
};
use redstone_compiler::ir::mapping::nets::{self_port, single_endpoint};
use redstone_compiler::ir::mapping::scalar::{scalar_name, LeafBuilder, ScalarNets};
use redstone_compiler::ir::routable::{
    Endpoint, RoutableDesign, RoutableInstance, RoutableModule, RoutableModuleBody, RoutableNet, RoutableNode,
    RoutableNodeKind,
};
use redstone_compiler::ir::target::{MappingPolicy, TargetOp, TargetSpec, XorMapping};
use redstone_compiler::graph::GraphNode;
use redstone_compiler::logic::LogicType;

fn valid(_: &LogicalDesign) -> Result<(), String> {
    Ok(())
}

fn sound(_: &RoutableDesign) -> Result<(), String> {
    Ok(())
}

// ---------------------------------------------------------------------------
// Designs
// ---------------------------------------------------------------------------
fn input(name: &str, width: usize) -> (LogicalNet, Option<LogicalPortDirection>) {
    (net(name, width), Some(LogicalPortDirection::Input))
}

fn output(name: &str, width: usize) -> (LogicalNet, Option<LogicalPortDirection>) {
    (net(name, width), Some(LogicalPortDirection::Output))
}

fn wire(name: &str, width: usize) -> (LogicalNet, Option<LogicalPortDirection>) {
    (net(name, width), None)
}

fn net(name: &str, width: usize) -> LogicalNet {
    LogicalNet { name: name.to_owned(), width, origin: None }
}

fn module(
    name: &str,
    nets: Vec<(LogicalNet, Option<LogicalPortDirection>)>,
    cells: Vec<LogicalCell>,
) -> LogicalModule {
    let ports = nets
        .iter()
        .filter_map(|(net, direction)| {
            direction.map(|direction| LogicalPort { name: net.name.clone(), direction, net: net.name.clone() })
        })
        .collect();
    LogicalModule {
        name: name.to_owned(),
        nets: nets.into_iter().map(|(net, _)| net).collect(),
        ports,
        cells,
        instances: vec![],
    }
}

fn from_net(net: &str) -> LogicalValue {
    LogicalValue::Net { net: net.to_owned() }
}

fn slice(net: &str, bit: usize) -> LogicalValue {
    LogicalValue::Slice { net: net.to_owned(), bit }
}

fn constant(value: u128, width: usize) -> LogicalValue {
    LogicalValue::Constant { value, width }
}

fn cell(name: &str, kind: LogicalCellKind, inputs: Vec<(&str, LogicalValue)>, output: (&str, &str)) -> LogicalCell {
    LogicalCell {
        name: name.to_owned(),
        kind,
        inputs: inputs
            .into_iter()
            .map(|(pin, value)| LogicalInput { pin: pin.to_owned(), value })
            .collect(),
        outputs: vec![LogicalOutput { pin: output.0.to_owned(), net: output.1.to_owned() }],
        origin: None,
    }
}

fn binary(name: &str, kind: LogicalCellKind, lhs: LogicalValue, rhs: LogicalValue, result: &str) -> LogicalCell {
    cell(name, kind, vec![("lhs", lhs), ("rhs", rhs)], ("result", result))
}

fn mux(name: &str, select: &str, when_true: LogicalValue, when_false: LogicalValue, result: &str) -> LogicalCell {
    cell(
        name,
        LogicalCellKind::Mux,
        vec![("select", from_net(select)), ("when_true", when_true), ("when_false", when_false)],
        ("result", result),
    )
}

fn dff(name: &str, edge: ClockEdge, data: LogicalValue, q: &str) -> LogicalCell {
    cell(name, LogicalCellKind::Dff { edge }, vec![("d", data), ("clock", from_net("clk"))], ("q", q))
}

fn register(name: &str, width: usize, data: LogicalValue, q: &str) -> LogicalCell {
    cell(
        name,
        LogicalCellKind::Register { edge: ClockEdge::Posedge, width },
        vec![("d", data), ("clock", from_net("clk"))],
        ("q", q),
    )
}

fn lower(module: &LogicalModule) -> RoutableDesign {
    lower_with(module, &MappingPolicy::default())
}

fn lower_with(module: &LogicalModule, policy: &MappingPolicy) -> RoutableDesign {
    lower_flat_module(module, &TargetSpec::redstone_v1(), policy, &|nodes: &Vec<GraphNode>| Ok(nodes.len()), &sound)
        .expect("test design must lower")
}

// ---------------------------------------------------------------------------
// What leaves compute
// ---------------------------------------------------------------------------
struct LogicTruthTable {
    input_names: Vec<String>,
    output_tables: HashMap<String, Vec<bool>>,
}

fn leaf_nodes(module: &RoutableModule) -> &Vec<RoutableNode> {
    match &module.body {
        RoutableModuleBody::Leaf { nodes } => nodes,
        _ => panic!("`{}` must be a leaf", module.name),
    }
}

fn value_of(nodes: &[RoutableNode], id: usize, inputs: &HashMap<String, bool>) -> bool {
    let node = nodes.iter().find(|node| node.id == id).expect("node");
    let values: Vec<bool> = node.inputs.iter().map(|input| value_of(nodes, *input, inputs)).collect();
    match &node.kind {
        RoutableNodeKind::Input { name } => inputs[name],
        RoutableNodeKind::Constant { value } => *value,
        RoutableNodeKind::Output { .. } => values[0],
        RoutableNodeKind::Not => !values[0],
        RoutableNodeKind::And => values.iter().all(|value| *value),
        RoutableNodeKind::Or => values.iter().any(|value| *value),
        RoutableNodeKind::Xor => values.iter().fold(false, |all, value| all ^ value),
        RoutableNodeKind::Sequential { .. } => panic!("leaf holds state"),
    }
}

fn leaf_truth_table(design: &RoutableDesign, module: &str) -> LogicTruthTable {
    let nodes = leaf_nodes(design.module(module).expect("leaf module"));
    let mut input_names: Vec<String> = nodes
        .iter()
        .filter_map(|node| match &node.kind {
            RoutableNodeKind::Input { name } => Some(name.clone()),
            _ => None,
        })
        .collect();
    input_names.sort();
    let mut output_tables = HashMap::new();
    for node in nodes {
        if let RoutableNodeKind::Output { name } = &node.kind {
            let table = (0..(1usize << input_names.len()))
                .map(|mask| {
                    let inputs = input_names
                        .iter()
                        .enumerate()
                        .map(|(bit, name)| (name.clone(), (mask >> bit) & 1 == 1))
                        .collect();
                    value_of(nodes, node.id, &inputs)
                })
                .collect();
            output_tables.insert(name.clone(), table);
        }
    }
    LogicTruthTable { input_names, output_tables }
}

fn top_composite(design: &RoutableDesign) -> (&Vec<RoutableInstance>, &Vec<RoutableNet>) {
    let top = design.module(&design.top).expect("top module");
    match &top.body {
        RoutableModuleBody::Composite { instances, nets } => (instances, nets),
        _ => panic!("top module must be a composite"),
    }
}

/// The instances of the top module. All its nets lead between ports that there
/// are.
fn resolved_instances(design: &RoutableDesign) -> Vec<String> {
    let (instances, nets) = top_composite(design);
    let top = design.module(&design.top).unwrap();
    let exists = |end: &Endpoint| match end {
        Endpoint::SelfPort { port } => top.ports.iter().any(|own| &own.name == port),
        Endpoint::InstancePort { instance, port } => {
            let found = instances.iter().find(|own| &own.name == instance).expect("instance");
            design.module(&found.module).expect("module").ports.iter().any(|own| &own.name == port)
        }
    };
    for net in nets {
        assert!(exists(&net.driver), "{:?}", net.driver);
        for sink in &net.sinks {
            assert!(exists(sink), "{sink:?}");
        }
    }
    instances.iter().map(|instance| instance.name.clone()).collect()
}

fn has_sink(net: &RoutableNet, name: &str, pin: &str) -> bool {
    net.sinks.iter().any(|sink| {
        matches!(sink, Endpoint::InstancePort { instance, port } if instance == name && port == pin)
    })
}

fn driven_by<'a>(nets: &'a [RoutableNet], name: &str, pin: &str) -> &'a RoutableNet {
    nets.iter()
        .find(|net| {
            matches!(&net.driver, Endpoint::InstancePort { instance, port } if instance == name && port == pin)
        })
        .expect("net")
}

// ---------------------------------------------------------------------------
// Combinational cells
// ---------------------------------------------------------------------------
#[test]
fn add_emits_ripple_carry_without_extra_output_bits() {
    let module = module(
        "adder",
        vec![input("a", 2), input("b", 2), output("y", 2)],
        vec![binary("add", LogicalCellKind::Add, from_net("a"), from_net("b"), "y")],
    );
    let nets = ScalarNets::from_module(&module);
    let mut builder = LeafBuilder::new();
    for port in module.ports.iter().filter(|port| port.name != "y") {
        for bit in nets.bits(&port.net).unwrap() {
            builder.add_input(&bit);
        }
    }
    let add = module.cells.iter().find(|cell| matches!(cell.kind, LogicalCellKind::Add)).unwrap();

    assert!(emit_cell(add, &nets, &mut builder, &TargetSpec::redstone_v1(), &MappingPolicy::default()).unwrap());

    for bit in nets.bits("y").unwrap() {
        let producer = builder.producer(&bit).expect("adder output must be produced");
        builder.add_output(&bit, producer);
    }
    let leaf = builder.finish("adder");
    let nodes = leaf_nodes(&leaf);
    // 4 inputs + 7 logic nodes (2-bit ripple carry) + 2 outputs.
    assert_eq!(nodes.len(), 13);
}

#[test]
fn constants_are_materialized_instead_of_rejected() {
    let cell = binary("add", LogicalCellKind::Add, from_net("a"), constant(1, 1), "y");
    let module = module("m", vec![wire("a", 1), wire("y", 1)], vec![]);
    let nets = ScalarNets::from_module(&module);
    let mut builder = LeafBuilder::new();
    builder.add_input("a");

    assert!(emit_cell(&cell, &nets, &mut builder, &TargetSpec::redstone_v1(), &MappingPolicy::default()).unwrap());

    let producer = builder.producer("y").expect("adder output must be produced");
    builder.add_output("y", producer);
    let leaf = builder.finish("m");
    let nodes = leaf_nodes(&leaf);
    assert!(nodes.iter().any(|node| matches!(node.kind, RoutableNodeKind::Constant { value: true })));
}

// ---------------------------------------------------------------------------
// Leaves
// ---------------------------------------------------------------------------
#[test]
fn scalar_names_flatten_vectors_and_keep_scalars() {
    assert_eq!(scalar_name("a", 1, 0), "a");
    assert_eq!(scalar_name("a", 4, 0), "a_0");
    assert_eq!(scalar_name("a", 4, 3), "a_3");
}

#[test]
fn leaf_builder_deduplicates_inputs_and_keeps_order() {
    let mut builder = LeafBuilder::new();
    let first = builder.add_input("a");
    let again = builder.add_input("a");
    let second = builder.add_input("b");

    assert_eq!(first, again);
    assert_ne!(first, second);
    assert_eq!(builder.input_names(), &["a", "b"]);
}

#[test]
fn partition_splits_a_long_chain_and_keeps_connectivity() {
    let mut builder = LeafBuilder::new();
    let mut value = builder.add_input("a");
    for _ in 0..5 {
        value = builder.add_logic(LogicType::Not, vec![value], "chain");
    }
    builder.add_output("y", value);

    let partitioned =
        builder.partition("chain", 2, &|nodes: &Vec<GraphNode>| Ok(nodes.len())).expect("partition");
    assert!(partitioned.modules.len() >= 2, "a five-node chain with budget two must split");
    for leaf in &partitioned.instances {
        for input in &leaf.inputs {
            assert!(
                input == "a" || partitioned.intermediates.contains_key(input),
                "unresolved leaf input `{input}`"
            );
        }
    }
    let (instance, port) = partitioned.output_sources.get("y").expect("requested output must be produced");
    assert_eq!(port, "y");
    assert!(partitioned.instances.iter().any(|leaf| &leaf.instance == instance));
    for module in &partitioned.modules {
        let nodes = leaf_nodes(module);
        assert!(nodes.len() <= 5, "chunk `{}` has {} nodes", module.name, nodes.len());
    }
}

#[test]
fn partition_keeps_a_small_cone_in_one_named_leaf() {
    let mut builder = LeafBuilder::new();
    let a = builder.add_input("a");
    let b = builder.add_input("b");
    let value = builder.add_logic(LogicType::And, vec![a, b], "and");
    builder.add_output("y", value);

    let partitioned =
        builder.partition("small", 28, &|nodes: &Vec<GraphNode>| Ok(nodes.len())).expect("partition");
    assert_eq!(partitioned.instances.len(), 1);
    assert_eq!(partitioned.instances[0].instance, "small");
    assert_eq!(partitioned.intermediates.len(), 0);
    assert_eq!(partitioned.output_sources.get("y"), Some(&("small".to_owned(), "y".to_owned())));
}

// ---------------------------------------------------------------------------
// Combinational designs
// ---------------------------------------------------------------------------
#[test]
fn vector_and_is_bit_blasted_and_matches_truth_table() {
    // assign y = a & b;
    let design = lower(&module(
        "m",
        vec![input("a", 4), input("b", 4), output("y", 4)],
        vec![binary("and", LogicalCellKind::And, from_net("a"), from_net("b"), "y")],
    ));
    let table = leaf_truth_table(&design, "m");

    assert_eq!(table.input_names, ["a_0", "a_1", "a_2", "a_3", "b_0", "b_1", "b_2", "b_3"]);
    for mask in 0..(1usize << table.input_names.len()) {
        for bit in 0..4 {
            let a = (mask >> bit) & 1 == 1;
            let b = (mask >> (4 + bit)) & 1 == 1;
            assert_eq!(table.output_tables[&format!("y_{bit}")][mask], a && b, "mask {mask} bit {bit}");
        }
    }
}

#[test]
fn vector_add_lowers_to_ripple_carry_and_matches_truth_table() {
    // assign y = a + b;
    let design = lower(&module(
        "m",
        vec![input("a", 4), input("b", 4), output("y", 4)],
        vec![binary("add", LogicalCellKind::Add, from_net("a"), from_net("b"), "y")],
    ));
    let table = leaf_truth_table(&design, "m");

    for mask in 0..(1usize << table.input_names.len()) {
        let mut a = 0usize;
        let mut b = 0usize;
        for bit in 0..4 {
            if (mask >> bit) & 1 == 1 {
                a |= 1 << bit;
            }
            if (mask >> (4 + bit)) & 1 == 1 {
                b |= 1 << bit;
            }
        }
        let expected = (a + b) & 0xF;
        for bit in 0..4 {
            assert_eq!(
                table.output_tables[&format!("y_{bit}")][mask],
                (expected >> bit) & 1 == 1,
                "mask {mask} bit {bit}"
            );
        }
    }
}

#[test]
fn combinational_mux_lowers_to_and_or_not_and_matches_truth_table() {
    let design = lower(&module(
        "m",
        vec![input("s", 1), input("a", 2), input("b", 2), output("y", 2)],
        vec![mux("choose", "s", from_net("a"), from_net("b"), "y")],
    ));
    let nodes = leaf_nodes(design.module("m").expect("leaf module"));
    assert!(!nodes.iter().any(|node| matches!(node.kind, RoutableNodeKind::Xor)));
    assert!(nodes.iter().any(|node| matches!(node.kind, RoutableNodeKind::And)));
    assert!(nodes.iter().any(|node| matches!(node.kind, RoutableNodeKind::Or)));
    assert!(nodes.iter().any(|node| matches!(node.kind, RoutableNodeKind::Not)));

    let table = leaf_truth_table(&design, "m");
    assert_eq!(table.input_names, ["a_0", "a_1", "b_0", "b_1", "s"]);
    for mask in 0..(1usize << table.input_names.len()) {
        let select = (mask >> 4) & 1 == 1;
        for bit in 0..2 {
            let a = (mask >> bit) & 1 == 1;
            let b = (mask >> (2 + bit)) & 1 == 1;
            assert_eq!(
                table.output_tables[&format!("y_{bit}")][mask],
                if select { a } else { b },
                "mask {mask} bit {bit}"
            );
        }
    }
}

#[test]
fn and_or_not_xor_policy_removes_native_xor_nodes() {
    // assign y = a ^ b;
    let policy = MappingPolicy { xor: XorMapping::AndOrNot, ..MappingPolicy::default() };
    let design = lower_with(
        &module(
            "m",
            vec![input("a", 2), input("b", 2), output("y", 2)],
            vec![binary("xor", LogicalCellKind::Xor, from_net("a"), from_net("b"), "y")],
        ),
        &policy,
    );
    let nodes = leaf_nodes(design.module("m").expect("leaf module"));
    assert!(!nodes.iter().any(|node| matches!(node.kind, RoutableNodeKind::Xor)));
    assert!(nodes.iter().any(|node| matches!(node.kind, RoutableNodeKind::And)));
}

#[test]
fn constant_operands_lower_and_match_truth_tables() {
    let design = lower(&module(
        "m",
        vec![input("a", 1), output("y", 1)],
        vec![binary("g", LogicalCellKind::And, from_net("a"), constant(1, 1), "y")],
    ));
    let nodes = leaf_nodes(design.module("m").expect("leaf module"));
    assert!(nodes.iter().any(|node| matches!(node.kind, RoutableNodeKind::Constant { value: true })));

    let table = leaf_truth_table(&design, "m");
    assert_eq!(table.input_names, ["a"]);
    for mask in 0..2 {
        assert_eq!(table.output_tables["y"][mask], mask == 1, "mask {mask}");
    }
}

#[test]
fn constant_zero_is_expanded_through_an_inverter() {
    let design = lower(&module(
        "m",
        vec![input("a", 1), output("y", 1)],
        vec![binary("g", LogicalCellKind::And, from_net("a"), constant(0, 1), "y")],
    ));
    let nodes = leaf_nodes(design.module("m").expect("leaf module"));
    assert!(nodes.iter().any(|node| matches!(node.kind, RoutableNodeKind::Constant { value: true })));
    assert!(nodes.iter().any(|node| matches!(node.kind, RoutableNodeKind::Not)));

    let table = leaf_truth_table(&design, "m");
    assert!(table.output_tables["y"].iter().all(|value| !value));
}

#[test]
fn bit_select_of_a_declared_vector_lowers_and_matches_truth_table() {
    // assign y = ~a[2];
    let design = lower(&module(
        "m",
        vec![input("a", 4), output("y", 1)],
        vec![cell("not", LogicalCellKind::Not, vec![("value", slice("a", 2))], ("result", "y"))],
    ));
    let table = leaf_truth_table(&design, "m");
    // The partition keeps only the boundary bits the cone actually uses.
    assert_eq!(table.input_names, ["a_2"]);
    for mask in 0..2 {
        assert_eq!(table.output_tables["y"][mask], mask == 0, "mask {mask}");
    }
}

#[test]
fn equality_operator_lowers_through_eq_cells() {
    // assign y = a == b;
    let design = lower(&module(
        "m",
        vec![input("a", 2), input("b", 2), output("y", 1)],
        vec![binary("eq", LogicalCellKind::Eq { width: 2 }, from_net("a"), from_net("b"), "y")],
    ));
    let table = leaf_truth_table(&design, "m");
    assert_eq!(table.input_names, ["a_0", "a_1", "b_0", "b_1"]);
    for mask in 0..16 {
        let a = mask & 0b11;
        let b = (mask >> 2) & 0b11;
        assert_eq!(table.output_tables["y"][mask], a == b, "mask {mask}");
    }
}

#[test]
fn wide_combinational_add_is_partitioned_into_a_composite() {
    // assign y = a + b; over 32 bits
    let design = lower(&module(
        "m",
        vec![input("a", 32), input("b", 32), output("y", 32)],
        vec![binary("add", LogicalCellKind::Add, from_net("a"), from_net("b"), "y")],
    ));
    let top = design.module("m").expect("top module");
    assert!(matches!(top.body, RoutableModuleBody::Composite { .. }));
    for module in &design.modules {
        if let RoutableModuleBody::Leaf { nodes } = &module.body {
            assert!(
                nodes.len() <= 40,
                "leaf `{}` has {} nodes, above the local placer limit",
                module.name,
                nodes.len()
            );
        }
    }
    let instances = resolved_instances(&design);
    assert!(instances.iter().any(|name| name == "m_p0"));
    assert!(instances.iter().any(|name| name == "m_p1"));
}

#[test]
fn unsupported_operations_are_rejected() {
    let target = TargetSpec::new("small", vec![TargetOp::Buffer, TargetOp::Not]);
    let module = module(
        "m",
        vec![input("a", 1), input("b", 1), output("y", 1)],
        vec![binary("and", LogicalCellKind::And, from_net("a"), from_net("b"), "y")],
    );
    let result =
        lower_flat_module(&module, &target, &MappingPolicy::default(), &|nodes: &Vec<GraphNode>| Ok(nodes.len()), &sound);
    assert!(result.is_err());
}

// ---------------------------------------------------------------------------
// Hierarchies
// ---------------------------------------------------------------------------
fn with_instances(mut module: LogicalModule, instances: Vec<(&str, &str, Vec<(&str, &str)>)>) -> LogicalModule {
    module.instances = instances
        .into_iter()
        .map(|(name, definition, bindings)| LogicalInstance {
            name: name.to_owned(),
            module: definition.to_owned(),
            bindings: bindings
                .into_iter()
                .map(|(port, net)| LogicalBinding { port: port.to_owned(), net: net.to_owned() })
                .collect(),
        })
        .collect();
    module
}

fn flatten_and_lower(modules: Vec<LogicalModule>) -> RoutableDesign {
    let design = LogicalDesign { version: 1, top: "top".to_owned(), modules };
    let flat = design.flatten_hierarchy(&valid).expect("test design must flatten");
    lower(flat.module("top").expect("top"))
}

#[test]
fn nested_hierarchy_flattens_and_lowers() {
    let inv = module(
        "inv",
        vec![input("a", 1), output("y", 1)],
        vec![cell("not", LogicalCellKind::Not, vec![("value", from_net("a"))], ("result", "y"))],
    );
    let pair = with_instances(
        module("pair", vec![input("a", 1), output("y", 1), wire("mid", 1)], vec![]),
        vec![
            ("u0", "inv", vec![("a", "a"), ("y", "mid")]),
            ("u1", "inv", vec![("a", "mid"), ("y", "y")]),
        ],
    );
    let top = with_instances(
        module("top", vec![input("a", 1), output("y", 1)], vec![]),
        vec![("p", "pair", vec![("a", "a"), ("y", "y")])],
    );
    let design = flatten_and_lower(vec![inv, pair, top]);

    let table = leaf_truth_table(&design, "top");
    assert_eq!(table.input_names, ["a"]);
    assert_eq!(table.output_tables["y"], vec![false, true]);
}

#[test]
fn hierarchy_with_vector_ports_flattens_and_lowers() {
    let xor2 = module(
        "xor2",
        vec![input("a", 2), input("b", 2), output("y", 2)],
        vec![binary("xor", LogicalCellKind::Xor, from_net("a"), from_net("b"), "y")],
    );
    let top = with_instances(
        module("top", vec![input("a", 2), input("b", 2), output("y", 2)], vec![]),
        vec![("u", "xor2", vec![("a", "a"), ("b", "b"), ("y", "y")])],
    );
    let design = flatten_and_lower(vec![xor2, top]);

    let table = leaf_truth_table(&design, "top");
    assert_eq!(table.input_names, ["a_0", "a_1", "b_0", "b_1"]);
    for mask in 0..16 {
        for bit in 0..2 {
            let a = (mask >> bit) & 1 == 1;
            let b = (mask >> (2 + bit)) & 1 == 1;
            assert_eq!(table.output_tables[&format!("y_{bit}")][mask], a ^ b, "mask {mask} bit {bit}");
        }
    }
}

// ---------------------------------------------------------------------------
// Designs with state
// ---------------------------------------------------------------------------
fn enabled_dff() -> RoutableDesign {
    // always @(posedge clk) if (en) q <= d;
    lower(&module(
        "dff_en",
        vec![input("clk", 1), input("en", 1), input("d", 1), output("q", 1), wire("next", 1)],
        vec![mux("hold", "en", from_net("d"), from_net("q"), "next"), dff("state", ClockEdge::Posedge, from_net("next"), "q")],
    ))
}

#[test]
fn enabled_dff_lowers_with_mux_next_state() {
    let design = enabled_dff();
    let (instances, _) = top_composite(&design);
    for expected in ["q_clk_inv", "q_next", "q_master", "q_slave"] {
        assert!(instances.iter().any(|instance| instance.name == expected), "missing instance `{expected}`");
    }

    let nodes = leaf_nodes(design.module("q_next").expect("next leaf"));
    assert!(nodes.iter().any(|node| matches!(node.kind, RoutableNodeKind::And)));
    assert!(nodes.iter().any(|node| matches!(node.kind, RoutableNodeKind::Or)));
    assert!(nodes.iter().any(|node| matches!(node.kind, RoutableNodeKind::Not)));
}

#[test]
fn enabled_dff_lowers_to_a_pnr_ready_topology() {
    let instances = resolved_instances(&enabled_dff());
    for expected in ["q_next", "q_clk_inv", "q_master", "q_slave"] {
        assert!(instances.iter().any(|name| name == expected), "missing resolved instance `{expected}`");
    }
}

#[test]
fn negedge_register_swaps_master_and_slave_enables() {
    let design = lower(&module(
        "m",
        vec![input("clk", 1), input("d", 1), output("q", 1)],
        vec![dff("state", ClockEdge::Negedge, from_net("d"), "q")],
    ));
    let (_, nets) = top_composite(&design);

    let inverted = driven_by(nets, "q_clk_inv", "clk_n");
    assert!(has_sink(inverted, "q_slave", "en"));
    assert!(!has_sink(inverted, "q_master", "en"));

    let clock = nets
        .iter()
        .find(|net| matches!(&net.driver, Endpoint::SelfPort { port } if port == "clk"))
        .expect("clock net");
    assert!(has_sink(clock, "q_master", "en"));
}

#[test]
fn chained_registers_wire_directly_without_next_leaves() {
    let design = lower(&module(
        "m",
        vec![input("clk", 1), input("d", 1), output("q0", 1), output("q1", 1)],
        vec![
            dff("s0", ClockEdge::Posedge, from_net("q1"), "q0"),
            dff("s1", ClockEdge::Posedge, from_net("q0"), "q1"),
        ],
    ));
    let (instances, nets) = top_composite(&design);

    for expected in ["q0_master", "q0_slave", "q1_master", "q1_slave"] {
        assert!(instances.iter().any(|instance| instance.name == expected));
    }
    assert!(design.module("q0_next").is_none());
    assert!(design.module("q1_next").is_none());

    let q1_to_q0 = driven_by(nets, "q1_slave", "q");
    assert!(has_sink(q1_to_q0, "q0_master", "d"));
}

#[test]
fn dead_register_is_eliminated() {
    let design = lower(&module(
        "m",
        vec![input("clk", 1), input("d", 1), output("q", 1), wire("unused", 1)],
        vec![
            dff("live", ClockEdge::Posedge, from_net("d"), "q"),
            dff("dead", ClockEdge::Posedge, from_net("d"), "unused"),
        ],
    ));
    let (instances, _) = top_composite(&design);

    assert!(instances.iter().any(|instance| instance.name == "q_master"));
    assert!(!instances.iter().any(|instance| instance.name == "unused_master"));
}

#[test]
fn wide_register_next_state_is_partitioned_into_placeable_leaves() {
    let design = lower(&module(
        "m",
        vec![input("clk", 1), input("x", 32), output("q", 32), wire("next", 32)],
        vec![
            binary("add", LogicalCellKind::Add, from_net("q"), from_net("x"), "next"),
            register("state", 32, from_net("next"), "q"),
        ],
    ));

    let mut next_leaves = 0;
    for module in &design.modules {
        let RoutableModuleBody::Leaf { nodes } = &module.body else {
            continue;
        };
        assert!(
            nodes.len() <= 40,
            "leaf `{}` has {} nodes, above the local placer limit",
            module.name,
            nodes.len()
        );
        if module.name.starts_with("q_next") {
            next_leaves += 1;
        }
    }
    assert!(
        next_leaves >= 2,
        "a 32-bit next-state cone must partition into several leaves, found {next_leaves}"
    );

    let instances = resolved_instances(&design);
    assert!(instances.iter().any(|name| name == "q_next_p0"));
    assert!(instances.iter().any(|name| name == "q_0_master"));
}

#[test]
fn register_reset_constant_lowers_to_a_next_leaf_with_a_constant() {
    let design = lower(&module(
        "m",
        vec![input("clk", 1), output("q", 1)],
        vec![dff("state", ClockEdge::Posedge, constant(0, 1), "q")],
    ));

    let nodes = leaf_nodes(design.module("q_next").expect("next leaf"));
    assert!(nodes.iter().any(|node| matches!(node.kind, RoutableNodeKind::Constant { .. })));

    assert!(resolved_instances(&design).iter().any(|name| name == "q_master"));
}

#[test]
fn clocked_register_can_capture_a_vector_bit() {
    // always @(posedge clk) q <= a[1];
    let design = lower(&module(
        "m",
        vec![input("clk", 1), input("a", 4), output("q", 1)],
        vec![dff("state", ClockEdge::Posedge, slice("a", 1), "q")],
    ));
    assert!(resolved_instances(&design).iter().any(|name| name == "q_master"));
}

#[test]
fn clocked_if_with_equality_and_constants_lowers_to_a_pnr_topology() {
    // always @(posedge clk) if (a == b) q <= 1; else q <= 0;
    let design = lower(&module(
        "m",
        vec![input("clk", 1), input("a", 2), input("b", 2), output("q", 1), wire("same", 1), wire("next", 1)],
        vec![
            binary("eq", LogicalCellKind::Eq { width: 2 }, from_net("a"), from_net("b"), "same"),
            mux("choose", "same", constant(1, 1), constant(0, 1), "next"),
            dff("state", ClockEdge::Posedge, from_net("next"), "q"),
        ],
    ));
    assert!(resolved_instances(&design).iter().any(|name| name == "q_master"));
}

#[test]
fn fsm_with_case_and_combinational_output_lowers_to_a_pnr_topology() {
    // case (state) 0: if (go) state <= 1; 1, 2: state <= 3; default: state <= 0;
    // and done <= state == 3.
    let is = |name: &str, value: u128, result: &str| {
        binary(name, LogicalCellKind::Eq { width: 2 }, from_net("state"), constant(value, 2), result)
    };
    let design = lower(&module(
        "fsm",
        vec![
            input("clk", 1),
            input("go", 1),
            output("state", 2),
            output("done", 1),
            wire("is0", 1),
            wire("is1", 1),
            wire("is2", 1),
            wire("is3", 1),
            wire("is12", 1),
            wire("start", 2),
            wire("rest", 2),
            wire("next", 2),
        ],
        vec![
            is("eq0", 0, "is0"),
            is("eq1", 1, "is1"),
            is("eq2", 2, "is2"),
            is("eq3", 3, "is3"),
            binary("or12", LogicalCellKind::Or, from_net("is1"), from_net("is2"), "is12"),
            mux("on_go", "go", constant(1, 2), from_net("state"), "start"),
            mux("on_12", "is12", constant(3, 2), constant(0, 2), "rest"),
            mux("on_0", "is0", from_net("start"), from_net("rest"), "next"),
            register("state_reg", 2, from_net("next"), "state"),
            mux("on_3", "is3", constant(1, 1), constant(0, 1), "done"),
        ],
    ));

    let top = design.module("fsm").expect("top module");
    assert!(matches!(top.body, RoutableModuleBody::Composite { .. }));
    for module in &design.modules {
        if let RoutableModuleBody::Leaf { nodes } = &module.body {
            assert!(
                nodes.len() <= 40,
                "leaf `{}` has {} nodes, above the local placer limit",
                module.name,
                nodes.len()
            );
        }
    }

    let instances = resolved_instances(&design);
    for expected in ["state_0_master", "state_0_slave", "fsm_out"] {
        assert!(instances.iter().any(|name| name == expected), "missing resolved instance `{expected}`");
    }
}

// ---------------------------------------------------------------------------
// What is refused
// ---------------------------------------------------------------------------
fn refused(module: &LogicalModule) -> LowerError {
    lower_flat_module(
        module,
        &TargetSpec::redstone_v1(),
        &MappingPolicy::default(),
        &|nodes: &Vec<GraphNode>| Ok(nodes.len()),
        &sound,
    )
    .expect_err("test design must be refused")
}

fn logic_of(cells: Vec<LogicalCell>) -> LogicalModule {
    module("logic", vec![input("a", 1), input("b", 2), wire("w", 1), output("y", 1)], cells)
}

fn state_of(nets: Vec<(LogicalNet, Option<LogicalPortDirection>)>, cells: Vec<LogicalCell>) -> LogicalModule {
    let mut all = vec![input("clk", 1), input("a", 1), output("q", 1)];
    all.extend(nets);
    module("state", all, cells)
}

#[test]
fn logic_with_a_defect_is_refused() {
    let not = |value: LogicalValue, result: &str| {
        cell("g", LogicalCellKind::Not, vec![("value", value)], ("result", result))
    };

    let unknown = refused(&logic_of(vec![not(from_net("missing"), "y")]));
    assert!(matches!(unknown, LowerError::UnknownNet(net) if net == "missing"));
    let range = refused(&logic_of(vec![not(slice("b", 2), "y")]));
    assert!(matches!(range, LowerError::BitOutOfRange { net, bit: 2, width: 2 } if net == "b"));
    let pin = refused(&logic_of(vec![cell("g", LogicalCellKind::Not, vec![], ("result", "y"))]));
    assert!(matches!(pin, LowerError::MissingInput { cell, pin } if cell == "g" && pin == "value"));
    let mut silent = not(from_net("a"), "y");
    silent.outputs.clear();
    assert!(matches!(refused(&logic_of(vec![silent])), LowerError::NoOutput(name) if name == "g"));
    let select = refused(&logic_of(vec![mux("m", "b", from_net("a"), from_net("a"), "y")]));
    assert!(matches!(select, LowerError::SelectWidth(name) if name == "m"));
    let compare = LogicalModule {
        nets: vec![net("b", 2), net("y", 2)],
        ports: vec![LogicalPort { name: "b".to_owned(), direction: LogicalPortDirection::Input, net: "b".to_owned() }],
        cells: vec![binary("e", LogicalCellKind::Eq { width: 2 }, from_net("b"), from_net("b"), "y")],
        ..logic_of(vec![])
    };
    assert!(matches!(refused(&compare), LowerError::CompareResultWidth(name) if name == "e"));
    let nothing = refused(&logic_of(vec![binary(
        "e",
        LogicalCellKind::Eq { width: 0 },
        from_net("a"),
        from_net("a"),
        "y",
    )]));
    assert!(matches!(nothing, LowerError::CompareZeroWidth(name) if name == "e"));
    assert!(matches!(refused(&logic_of(vec![])), LowerError::NoProducer(port) if port == "y"));

    let mut first = not(from_net("y"), "w");
    first.name = "first".to_owned();
    let mut second = not(from_net("w"), "y");
    second.name = "second".to_owned();
    let cycle = refused(&logic_of(vec![first, second]));
    assert!(matches!(cycle, LowerError::Unresolved(names) if names == ["first", "second"]));
}

#[test]
fn state_with_a_defect_is_refused() {
    let posedge = ClockEdge::Posedge;
    let undriven = refused(&state_of(vec![wire("d", 1)], vec![dff("r", posedge, from_net("d"), "q")]));
    assert!(matches!(undriven, LowerError::NoDriver(net) if net == "d"));
    let unknown = refused(&state_of(vec![], vec![dff("r", posedge, from_net("missing"), "q")]));
    assert!(matches!(unknown, LowerError::UnknownNet(net) if net == "missing"));

    let mut headless = dff("r", posedge, from_net("a"), "q");
    headless.inputs.remove(0);
    let data = refused(&state_of(vec![], vec![headless]));
    assert!(matches!(data, LowerError::MissingInput { cell, pin } if cell == "r" && pin == "d"));
    let mut unclocked = dff("r", posedge, from_net("a"), "q");
    unclocked.inputs[1].value = constant(1, 1);
    assert!(matches!(refused(&state_of(vec![], vec![unclocked])), LowerError::NotANet(_)));

    let wide = vec![input("n", 1), wire("d", 2), output("r", 2)];
    let narrow = cell("g", LogicalCellKind::Buffer, vec![("value", from_net("n"))], ("result", "d"));
    let lost = refused(&state_of(
        wide,
        vec![narrow, register("reg", 2, from_net("d"), "r"), dff("f", posedge, from_net("a"), "q")],
    ));
    assert!(matches!(lost, LowerError::LostNet(name) if name == "d_1"));
}

#[test]
fn the_first_defect_of_logic_is_told() {
    let not = |name: &str, value: LogicalValue, result: &str| {
        cell(name, LogicalCellKind::Not, vec![("value", value)], ("result", result))
    };
    // Input ports come before cells.
    let mut strange = logic_of(vec![not("g", from_net("missing"), "y")]);
    strange.ports.push(LogicalPort {
        name: "x".to_owned(),
        direction: LogicalPortDirection::Input,
        net: "nowhere".to_owned(),
    });
    assert!(matches!(refused(&strange), LowerError::UnknownNet(net) if net == "nowhere"));
    // Cells come in order.
    let two = vec![not("g", from_net("missing"), "w"), not("h", slice("b", 2), "y")];
    assert!(matches!(refused(&logic_of(two)), LowerError::UnknownNet(net) if net == "missing"));
    let swapped = vec![not("h", slice("b", 2), "y"), not("g", from_net("missing"), "w")];
    assert!(matches!(refused(&logic_of(swapped)), LowerError::BitOutOfRange { net, .. } if net == "b"));
    // A cell that waits is told only when the others are done.
    let waiting = vec![not("g", from_net("w"), "y"), not("h", slice("b", 2), "y")];
    assert!(matches!(refused(&logic_of(waiting)), LowerError::BitOutOfRange { net, .. } if net == "b"));
    // Output ports come last.
    let stuck = vec![binary("g", LogicalCellKind::And, from_net("w"), from_net("a"), "w")];
    assert!(matches!(refused(&logic_of(stuck)), LowerError::Unresolved(names) if names == ["g"]));
}

#[test]
fn the_first_defect_of_state_is_told() {
    let posedge = ClockEdge::Posedge;
    let nets = || vec![wire("s", 1), output("p", 1)];
    // Pins come before data.
    let mut headless = dff("r", posedge, from_net("a"), "p");
    headless.inputs.remove(0);
    let pins = refused(&state_of(nets(), vec![dff("f", posedge, from_net("missing"), "q"), headless]));
    assert!(matches!(pins, LowerError::MissingInput { cell, pin } if cell == "r" && pin == "d"));
    // Data comes before clocks.
    let mut unclocked = dff("f", posedge, from_net("a"), "q");
    unclocked.inputs[1].value = from_net("tick");
    let data = refused(&state_of(nets(), vec![unclocked.clone(), dff("r", posedge, from_net("s"), "p")]));
    assert!(matches!(data, LowerError::NoDriver(net) if net == "s"));
    let clock = refused(&state_of(nets(), vec![unclocked.clone(), dff("r", posedge, from_net("a"), "p")]));
    assert!(matches!(clock, LowerError::UnknownNet(net) if net == "tick"));
    // Clocks come before outputs.
    let first = refused(&state_of(nets(), vec![unclocked]));
    assert!(matches!(first, LowerError::UnknownNet(net) if net == "tick"));
    let last = refused(&state_of(nets(), vec![dff("f", posedge, from_net("a"), "q")]));
    assert!(matches!(last, LowerError::NoProducer(port) if port == "p"));
    // Data comes in the order of the cells.
    let both = vec![dff("f", posedge, from_net("s"), "q"), dff("r", posedge, from_net("missing"), "p")];
    assert!(matches!(refused(&state_of(nets(), both)), LowerError::NoDriver(net) if net == "s"));
}

#[test]
fn narrow_logic_may_be_read_bit_by_bit() {
    // The buffer drives one bit of a net of two, and only that bit is stored.
    let narrow = cell("g", LogicalCellKind::Buffer, vec![("value", from_net("a"))], ("result", "d"));
    let module = state_of(vec![wire("d", 2)], vec![narrow, dff("f", ClockEdge::Posedge, slice("d", 0), "q")]);
    let instances = resolved_instances(&lower(&module));
    assert!(instances.iter().any(|name| name == "q_master"));
}

#[test]
fn a_leaf_that_cannot_be_prepared_is_refused() {
    let design = logic_of(vec![cell("g", LogicalCellKind::Not, vec![("value", from_net("a"))], ("result", "y"))]);
    let error = lower_flat_module(
        &design,
        &TargetSpec::redstone_v1(),
        &MappingPolicy::default(),
        &|_: &Vec<GraphNode>| Err(LowerError::NotPlaceable("leaf".to_owned())),
        &sound,
    )
    .expect_err("preparation fails");
    assert!(matches!(error, LowerError::NotPlaceable(name) if name == "leaf"));
}

#[test]
fn designs_that_are_not_valid_are_refused() {
    let refuse = |design: &RoutableDesign| Err(format!("`{}` has {} modules", design.top, design.modules.len()));
    let count = |nodes: &Vec<GraphNode>| Ok(nodes.len());
    let target = TargetSpec::redstone_v1();
    let policy = MappingPolicy::default();
    let logic = logic_of(vec![cell("g", LogicalCellKind::Not, vec![("value", from_net("a"))], ("result", "y"))]);
    let error = lower_flat_module(&logic, &target, &policy, &count, &refuse).expect_err("no design is valid");
    assert!(matches!(error, LowerError::Invalid(reason) if reason == "`logic` has 1 modules"));
    let state = state_of(vec![], vec![dff("r", ClockEdge::Posedge, from_net("a"), "q")]);
    let error = lower_flat_module(&state, &target, &policy, &count, &refuse).expect_err("no design is valid");
    assert!(matches!(error, LowerError::Invalid(reason) if reason.starts_with("`state` has")));
    // A defect of the module is told first.
    let broken = logic_of(vec![]);
    let error = lower_flat_module(&broken, &target, &policy, &count, &refuse).expect_err("nothing drives y");
    assert!(matches!(error, LowerError::NoProducer(port) if port == "y"));
}

#[test]
fn state_cells_are_not_logic() {
    let design = state_of(vec![], vec![dff("r", ClockEdge::Posedge, from_net("a"), "q")]);
    let nets = ScalarNets::from_module(&design);
    let mut builder = LeafBuilder::new();
    let error = emit_cell(
        &design.cells[0],
        &nets,
        &mut builder,
        &TargetSpec::redstone_v1(),
        &MappingPolicy::default(),
    )
    .expect_err("a state cell is no logic");
    assert!(matches!(error, LowerError::SequentialCell(name) if name == "r"));
}

#[test]
fn general_lowering_is_for_more_than_scalar_gates() {
    assert!(requires_general_flat_lowering(&logic_of(vec![])));
    let wide = module("wide", vec![input("a", 2)], vec![]);
    assert!(requires_general_flat_lowering(&wide));
    let two = state_of(
        vec![wire("w", 1)],
        vec![
            dff("first", ClockEdge::Posedge, from_net("a"), "w"),
            dff("second", ClockEdge::Posedge, from_net("w"), "q"),
        ],
    );
    assert!(requires_general_flat_lowering(&two));
    assert!(!module_is_simple_state_design(&two));
    assert!(!module_is_simple_state_design(&logic_of(vec![])));
    assert!(!requires_general_flat_lowering(&module("bare", vec![input("a", 1)], vec![])));
}

#[test]
fn single_endpoints_stand_alone() {
    assert!(single_endpoint(None).is_none());
    assert!(single_endpoint(Some(&vec![])).is_none());
    assert!(single_endpoint(Some(&vec![self_port("a"), self_port("b")])).is_none());
    let single = single_endpoint(Some(&vec![self_port("a")])).expect("one endpoint");
    assert!(single.same(&self_port("a")));
}

#[test]
fn logical_ports_are_listed_bit_by_bit() {
    let design = module("ports", vec![input("a", 2), output("y", 1)], vec![]);
    let names: Vec<String> = logical_ports(&design).expect("known nets").iter().map(|port| port.name.clone()).collect();
    assert_eq!(names, ["a_0", "a_1", "y"]);

    let mut broken = design.clone();
    broken.nets.remove(1);
    let error = logical_ports(&broken).expect_err("a net is missing");
    assert!(matches!(error, LowerError::MissingPortNet { port, net } if port == "y" && net == "y"));
}

#[test]
fn state_that_is_read_bit_by_bit_is_live() {
    // Only one bit of the first register is read, by another.
    let staged = module(
        "m",
        vec![input("clk", 1), input("d", 2), wire("s", 2), output("y", 1)],
        vec![register("r0", 2, from_net("d"), "s"), dff("f", ClockEdge::Posedge, slice("s", 1), "y")],
    );
    let instances = resolved_instances(&lower(&staged));
    assert_eq!(instances.iter().filter(|name| name.ends_with("_slave")).count(), 3);

    // Logic reads one bit of a register.
    let decoded = module(
        "m",
        vec![input("clk", 1), input("d", 2), wire("s", 2), output("y", 1)],
        vec![
            register("r0", 2, from_net("d"), "s"),
            cell("n", LogicalCellKind::Not, vec![("value", slice("s", 0))], ("result", "y")),
        ],
    );
    let instances = resolved_instances(&lower(&decoded));
    assert_eq!(instances.iter().filter(|name| name.ends_with("_slave")).count(), 2);
}

#[test]
fn logic_that_feeds_itself_may_stay_unread() {
    let ringed = module(
        "m",
        vec![input("clk", 1), input("d", 1), wire("ring", 1), output("y", 1)],
        vec![
            cell("loop", LogicalCellKind::Not, vec![("value", from_net("ring"))], ("result", "ring")),
            dff("f", ClockEdge::Posedge, from_net("d"), "y"),
        ],
    );
    let instances = resolved_instances(&lower(&ringed));
    assert_eq!(instances.iter().filter(|name| name.ends_with("_slave")).count(), 1);
}

#[test]
fn lowered_nets_and_instances_have_no_origin() {
    let staged = module(
        "m",
        vec![input("clk", 1), input("d", 1), output("y", 1)],
        vec![dff("f", ClockEdge::Posedge, from_net("d"), "y")],
    );
    let design = lower(&staged);
    let (instances, nets) = top_composite(&design);
    assert!(instances.iter().all(|instance| instance.origin.is_none()));
    assert!(nets.iter().all(|net| net.origin.is_none()));
}
