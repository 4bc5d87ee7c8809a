use redstone_compiler::ir::flatten::FlattenError;
use redstone_compiler::ir::logical::{
    LogicalBinding, LogicalCell, LogicalCellKind, LogicalDesign, LogicalInput, LogicalInstance, LogicalModule,
    LogicalNet, LogicalOutput, LogicalPort, LogicalPortDirection, LogicalValue,
};

fn valid(_: &LogicalDesign) -> Result<(), String> {
    Ok(())
}

fn net(name: &str) -> LogicalNet {
    LogicalNet { name: name.to_owned(), width: 1, origin: None }
}

fn port(name: &str, direction: LogicalPortDirection) -> LogicalPort {
    LogicalPort { name: name.to_owned(), direction, net: name.to_owned() }
}

fn instance(name: &str, module: &str, bindings: &[(&str, &str)]) -> LogicalInstance {
    LogicalInstance {
        name: name.to_owned(),
        module: module.to_owned(),
        bindings: bindings
            .iter()
            .map(|(port, net)| LogicalBinding { port: (*port).to_owned(), net: (*net).to_owned() })
            .collect(),
    }
}

/// inv(a, y): assign y = ~a;
fn inv() -> LogicalModule {
    LogicalModule {
        name: "inv".to_owned(),
        nets: vec![net("a"), net("y")],
        ports: vec![port("a", LogicalPortDirection::Input), port("y", LogicalPortDirection::Output)],
        cells: vec![LogicalCell {
            name: "not_0".to_owned(),
            kind: LogicalCellKind::Not,
            inputs: vec![LogicalInput {
                pin: "value".to_owned(),
                value: LogicalValue::Net { net: "a".to_owned() },
            }],
            outputs: vec![LogicalOutput { pin: "result".to_owned(), net: "y".to_owned() }],
            origin: None,
        }],
        instances: vec![],
    }
}

fn module(name: &str, nets: &[&str], outputs: &[&str], instances: Vec<LogicalInstance>) -> LogicalModule {
    LogicalModule {
        name: name.to_owned(),
        nets: nets.iter().map(|name| net(name)).collect(),
        ports: nets
            .iter()
            .filter(|name| **name != "mid")
            .map(|name| {
                port(
                    name,
                    if outputs.contains(name) {
                        LogicalPortDirection::Output
                    } else {
                        LogicalPortDirection::Input
                    },
                )
            })
            .collect(),
        cells: vec![],
        instances,
    }
}

fn design(modules: Vec<LogicalModule>) -> LogicalDesign {
    LogicalDesign { version: 1, top: "top".to_owned(), modules }
}

fn nested() -> LogicalDesign {
    design(vec![
        inv(),
        module(
            "pair",
            &["a", "y", "mid"],
            &["y"],
            vec![
                instance("u0", "inv", &[("a", "a"), ("y", "mid")]),
                instance("u1", "inv", &[("a", "mid"), ("y", "y")]),
            ],
        ),
        module("top", &["a", "y"], &["y"], vec![instance("p", "pair", &[("a", "a"), ("y", "y")])]),
    ])
}

#[test]
fn nested_hierarchy_flattens_deterministically() {
    let design = nested();

    let flattened = design.flatten_hierarchy(&valid).unwrap();
    let top = flattened.module("top").expect("flat top");
    assert!(top.instances.is_empty());
    assert!(top.cells.len() >= 2, "child cells must be inlined");
    assert!(top.cells.iter().any(|cell| cell.name.starts_with("p__u0__")));
    assert!(top.nets.iter().any(|net| net.name == "p__mid"));

    assert_eq!(format!("{flattened:?}"), format!("{:?}", design.flatten_hierarchy(&valid).unwrap()));
}

#[test]
fn two_instances_of_the_same_child_get_distinct_nets() {
    let design = design(vec![
        inv(),
        module(
            "top",
            &["a", "b", "y", "unused"],
            &["y", "unused"],
            vec![
                instance("u0", "inv", &[("a", "a"), ("y", "y")]),
                instance("u1", "inv", &[("a", "b"), ("y", "unused")]),
            ],
        ),
    ]);

    let flattened = design.flatten_hierarchy(&valid).unwrap();
    let top = flattened.module("top").expect("flat top");
    let outputs = top
        .cells
        .iter()
        .filter(|cell| matches!(cell.kind, LogicalCellKind::Not))
        .map(|cell| cell.output("result").unwrap().clone())
        .collect::<Vec<_>>();

    assert_eq!(outputs.len(), 2);
    assert_ne!(outputs[0], outputs[1]);
    assert!(outputs.iter().any(|net| net == "y"));
    assert!(outputs.iter().any(|net| net == "unused"));
}

#[test]
fn inlined_nets_are_declared_once_with_their_path() {
    let flattened = nested().flatten_hierarchy(&valid).unwrap();
    let top = flattened.module("top").unwrap();
    let names = top.nets.iter().map(|net| net.name.as_str()).collect::<Vec<_>>();
    assert_eq!(names, vec!["a", "y", "p__mid"]);
    assert_eq!(top.nets[2].origin.as_deref(), Some("flattened.p.mid"));
    assert_eq!(
        top.cells.iter().map(|cell| cell.name.as_str()).collect::<Vec<_>>(),
        vec!["p__u0__not_0", "p__u1__not_0"]
    );
}

#[test]
fn inlined_nets_keep_clear_of_other_nets() {
    // The top module has a net of the name that the inner one would get.
    let mut taken = nested();
    taken.modules[2].nets.push(net("p__mid"));
    let flattened = taken.flatten_hierarchy(&valid).unwrap();
    let top = flattened.module("top").unwrap();
    let names = top.nets.iter().map(|net| net.name.as_str()).collect::<Vec<_>>();
    assert_eq!(names, vec!["a", "y", "p__mid", "p__mid_1"]);
    assert_eq!(top.cells[0].outputs[0].net, "p__mid_1");
    assert!(matches!(&top.cells[1].inputs[0].value, LogicalValue::Net { net } if net == "p__mid_1"));

    // Two paths that read alike lead to two nets.
    let mut alike = nested();
    alike.modules.insert(
        2,
        module("outer", &["a", "y"], &["y"], vec![instance("b", "pair", &[("a", "a"), ("y", "y")])]),
    );
    alike.modules[3] = module(
        "top",
        &["a", "y", "z"],
        &["y", "z"],
        vec![
            instance("p", "outer", &[("a", "a"), ("y", "y")]),
            instance("p__b", "pair", &[("a", "a"), ("y", "z")]),
        ],
    );
    let flattened = alike.flatten_hierarchy(&valid).unwrap();
    let top = flattened.module("top").unwrap();
    let names = top.nets.iter().map(|net| net.name.as_str()).collect::<Vec<_>>();
    assert_eq!(names, vec!["a", "y", "z", "p__b__mid", "p__b__mid_1"]);
    assert_eq!(top.cells.len(), 4);
    assert_eq!(top.cells[0].outputs[0].net, "p__b__mid");
    assert_eq!(top.cells[2].outputs[0].net, "p__b__mid_1");
}

#[test]
fn flattening_twice_changes_nothing() {
    let once = nested().flatten_hierarchy(&valid).unwrap();
    let twice = once.flatten_hierarchy(&valid).unwrap();
    assert_eq!(format!("{once:?}"), format!("{twice:?}"));
    let flat = design(vec![LogicalModule { name: "top".to_owned(), ..inv() }]);
    assert_eq!(format!("{:?}", flat.flatten_hierarchy(&valid).unwrap()), format!("{flat:?}"));
}

#[test]
fn designs_that_cannot_be_flattened_say_why() {
    let no_top = design(vec![inv()]);
    assert!(matches!(no_top.flatten_hierarchy(&valid), Err(FlattenError::UnknownTop { name }) if name == "top"));

    let no_child = design(vec![module("top", &["a"], &[], vec![instance("u", "gone", &[])])]);
    let error = no_child.flatten_hierarchy(&valid).unwrap_err();
    assert_eq!(error.message(), "unknown logical module `gone`");

    let mut broken = inv();
    broken.nets.clear();
    let unknown = design(vec![broken, module("top", &["a"], &[], vec![instance("u", "inv", &[])])]);
    let error = unknown.flatten_hierarchy(&valid).unwrap_err();
    assert_eq!(error.message(), "unknown logical net `a` in module `inv`");

    let endless = design(vec![module("top", &["a"], &[], vec![instance("u", "top", &[])])]);
    assert!(matches!(endless.flatten_hierarchy(&valid), Err(FlattenError::Recursive { .. })));
}

#[test]
fn designs_that_are_not_valid_are_not_flattened() {
    let never = |_: &LogicalDesign| Err("no".to_owned());
    assert_eq!(nested().flatten_hierarchy(&never).unwrap_err().message(), "no");
    // What has instances is valid, and what was flattened is not.
    let nested_only = |design: &LogicalDesign| {
        if design.modules.len() > 1 {
            Ok(())
        } else {
            Err(format!("{} modules", design.modules.len()))
        }
    };
    let error = nested().flatten_hierarchy(&nested_only).unwrap_err();
    assert!(matches!(error, FlattenError::Invalid { reason } if reason == "1 modules"));
    assert!(nested().inline_hierarchy().is_ok());
}
