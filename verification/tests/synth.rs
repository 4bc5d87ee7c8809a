use redstone_compiler::verilog::rtl::{
    RtlAssignKind, RtlExpr, RtlModule, RtlProcess, RtlSensitivity, RtlSignal, RtlSignalRef, RtlStmt,
};
use redstone_compiler::verilog::synth::{synthesize_module, SynthCell, SynthEdge, SynthError};

fn module(signals: &[(&str, usize)], processes: Vec<RtlProcess>) -> RtlModule {
    RtlModule {
        signals: signals
            .iter()
            .map(|(name, width)| RtlSignal { name: (*name).to_owned(), width: *width })
            .collect(),
        processes,
    }
}

fn signal(index: usize) -> RtlSignalRef {
    RtlSignalRef(index)
}

fn expr(index: usize) -> RtlExpr {
    RtlExpr::Signal(signal(index))
}

fn assign(lhs: usize, rhs: RtlExpr) -> RtlStmt {
    RtlStmt::Assign { kind: RtlAssignKind::NonBlocking, lhs: signal(lhs), rhs }
}

fn when(condition: RtlExpr, then_branch: Vec<RtlStmt>, else_branch: Vec<RtlStmt>) -> RtlStmt {
    RtlStmt::If { condition, then_branch, else_branch }
}

fn always(statements: Vec<RtlStmt>) -> RtlProcess {
    RtlProcess { sensitivity: RtlSensitivity::Combinational, statements }
}

fn posedge(clock: usize, statements: Vec<RtlStmt>) -> RtlProcess {
    RtlProcess { sensitivity: RtlSensitivity::Posedge(signal(clock)), statements }
}

fn mux(select: RtlExpr, when_true: RtlExpr, when_false: RtlExpr) -> RtlExpr {
    RtlExpr::Mux {
        select: Box::new(select),
        when_true: Box::new(when_true),
        when_false: Box::new(when_false),
    }
}

#[test]
fn synthesizes_latch_and_dff_cells() {
    // d_latch(d, en, q): always @(*) if (en) q <= d;
    let rtl = module(
        &[("d", 1), ("en", 1), ("q", 1)],
        vec![always(vec![when(expr(1), vec![assign(2, expr(0))], vec![])])],
    );
    let netlist = synthesize_module(&rtl).unwrap();
    assert_eq!(
        netlist.cells,
        vec![SynthCell::DLatch {
            output: rtl.signal_ref("q").unwrap(),
            data: rtl.signal_ref("d").unwrap(),
            enable: rtl.signal_ref("en").unwrap(),
        }]
    );

    // dff(clk, d, q): always @(posedge clk) q <= d;
    let rtl = module(&[("clk", 1), ("d", 1), ("q", 1)], vec![posedge(0, vec![assign(2, expr(1))])]);
    let netlist = synthesize_module(&rtl).unwrap();
    assert_eq!(
        netlist.cells,
        vec![SynthCell::Dff {
            output: rtl.signal_ref("q").unwrap(),
            data: rtl.signal_expr("d").unwrap(),
            clock: rtl.signal_ref("clk").unwrap(),
            edge: SynthEdge::Posedge,
        }]
    );
}

#[test]
fn synthesizes_clocked_next_state_cells() {
    // always @(posedge clk) if (en) q <= d;
    let rtl = module(
        &[("clk", 1), ("d", 1), ("en", 1), ("q", 1)],
        vec![posedge(0, vec![when(expr(2), vec![assign(3, expr(1))], vec![])])],
    );
    let netlist = synthesize_module(&rtl).unwrap();
    assert_eq!(
        netlist.cells,
        vec![SynthCell::Dff {
            output: rtl.signal_ref("q").unwrap(),
            data: RtlExpr::Mux {
                select: Box::new(rtl.signal_expr("en").unwrap()),
                when_true: Box::new(rtl.signal_expr("d").unwrap()),
                when_false: Box::new(rtl.signal_expr("q").unwrap()),
            },
            clock: rtl.signal_ref("clk").unwrap(),
            edge: SynthEdge::Posedge,
        }]
    );

    // always @(posedge clk) q <= ~q;
    let rtl = module(
        &[("clk", 1), ("q", 1)],
        vec![posedge(0, vec![assign(1, RtlExpr::Not(Box::new(expr(1))))])],
    );
    let netlist = synthesize_module(&rtl).unwrap();
    assert_eq!(
        netlist.cells,
        vec![SynthCell::Dff {
            output: rtl.signal_ref("q").unwrap(),
            data: RtlExpr::Not(Box::new(rtl.signal_expr("q").unwrap())),
            clock: rtl.signal_ref("clk").unwrap(),
            edge: SynthEdge::Posedge,
        }]
    );

    // always @(posedge clk) q <= q + 1; with a two bit q
    let rtl = module(
        &[("clk", 1), ("q", 2)],
        vec![posedge(
            0,
            vec![assign(
                1,
                RtlExpr::Add(Box::new(expr(1)), Box::new(RtlExpr::Const { value: 1, width: 1 })),
            )],
        )],
    );
    let netlist = synthesize_module(&rtl).unwrap();
    assert_eq!(
        netlist.cells,
        vec![SynthCell::Register {
            output: rtl.signal_ref("q").unwrap(),
            data: RtlExpr::Add(
                Box::new(rtl.signal_expr("q").unwrap()),
                Box::new(RtlExpr::Const { value: 1, width: 1 }),
            ),
            clock: rtl.signal_ref("clk").unwrap(),
            edge: SynthEdge::Posedge,
        }]
    );
}

#[test]
fn synthesizes_if_else_and_negedge() {
    // always @(posedge clk) if (en) q <= d; else q <= e;
    let rtl = module(
        &[("clk", 1), ("d", 1), ("e", 1), ("en", 1), ("q", 1)],
        vec![posedge(0, vec![when(expr(3), vec![assign(4, expr(1))], vec![assign(4, expr(2))])])],
    );
    let netlist = synthesize_module(&rtl).unwrap();
    assert_eq!(
        netlist.cells,
        vec![SynthCell::Dff {
            output: rtl.signal_ref("q").unwrap(),
            data: RtlExpr::Mux {
                select: Box::new(rtl.signal_expr("en").unwrap()),
                when_true: Box::new(rtl.signal_expr("d").unwrap()),
                when_false: Box::new(rtl.signal_expr("e").unwrap()),
            },
            clock: rtl.signal_ref("clk").unwrap(),
            edge: SynthEdge::Posedge,
        }]
    );

    // always @(negedge clk) q <= d;
    let rtl = module(
        &[("clk", 1), ("d", 1), ("q", 1)],
        vec![RtlProcess {
            sensitivity: RtlSensitivity::Negedge(signal(0)),
            statements: vec![assign(2, expr(1))],
        }],
    );
    let netlist = synthesize_module(&rtl).unwrap();
    assert_eq!(
        netlist.cells,
        vec![SynthCell::Dff {
            output: rtl.signal_ref("q").unwrap(),
            data: rtl.signal_expr("d").unwrap(),
            clock: rtl.signal_ref("clk").unwrap(),
            edge: SynthEdge::Negedge,
        }]
    );
}

#[test]
fn synthesizes_multiple_assignments_in_one_process() {
    let rtl = module(
        &[("clk", 1), ("x", 1), ("y", 1), ("a", 1), ("b", 1)],
        vec![posedge(0, vec![assign(3, expr(1)), assign(4, expr(2))])],
    );
    let netlist = synthesize_module(&rtl).unwrap();

    assert_eq!(
        netlist.cells,
        vec![
            SynthCell::Dff {
                output: rtl.signal_ref("a").unwrap(),
                data: rtl.signal_expr("x").unwrap(),
                clock: rtl.signal_ref("clk").unwrap(),
                edge: SynthEdge::Posedge,
            },
            SynthCell::Dff {
                output: rtl.signal_ref("b").unwrap(),
                data: rtl.signal_expr("y").unwrap(),
                clock: rtl.signal_ref("clk").unwrap(),
                edge: SynthEdge::Posedge,
            },
        ]
    );
}

#[test]
fn expands_case_into_priority_mux_chain() {
    // A case over `state` reads as a chain of conditions on its value.
    let is = |value: u128| {
        RtlExpr::Eq(Box::new(expr(1)), Box::new(RtlExpr::Const { value, width: 2 }))
    };
    let to = |value: u128| assign(1, RtlExpr::Const { value, width: 2 });
    let rtl = module(
        &[("clk", 1), ("state", 2)],
        vec![posedge(
            0,
            vec![when(
                is(0),
                vec![to(1)],
                vec![when(is(1), vec![to(2)], vec![to(0)])],
            )],
        )],
    );
    let netlist = synthesize_module(&rtl).unwrap();
    let [SynthCell::Register { output, data, .. }] = netlist.cells.as_slice() else {
        panic!("expected one register cell, got {:?}", netlist.cells);
    };
    assert_eq!(*output, rtl.signal_ref("state").unwrap());
    assert!(matches!(data, RtlExpr::Mux { .. }));
}

#[test]
fn fully_assigned_combinational_process_becomes_logic() {
    // always @(*) if (s) y <= a; else y <= b;
    let rtl = module(
        &[("a", 1), ("b", 1), ("s", 1), ("y", 1)],
        vec![always(vec![when(expr(2), vec![assign(3, expr(0))], vec![assign(3, expr(1))])])],
    );
    let netlist = synthesize_module(&rtl).unwrap();
    assert_eq!(
        netlist.cells,
        vec![SynthCell::Combinational {
            output: rtl.signal_ref("y").unwrap(),
            data: RtlExpr::Mux {
                select: Box::new(rtl.signal_expr("s").unwrap()),
                when_true: Box::new(rtl.signal_expr("a").unwrap()),
                when_false: Box::new(rtl.signal_expr("b").unwrap()),
            },
        }]
    );
}

#[test]
fn later_assignments_win_and_branches_hold_what_they_do_not_assign() {
    // y <= a; if (s) y <= b;
    let rtl = module(
        &[("a", 1), ("b", 1), ("s", 1), ("y", 1)],
        vec![always(vec![assign(3, expr(0)), when(expr(2), vec![assign(3, expr(1))], vec![])])],
    );
    assert_eq!(
        synthesize_module(&rtl).unwrap().cells,
        vec![SynthCell::Combinational { output: signal(3), data: mux(expr(2), expr(1), expr(0)) }]
    );
}

#[test]
fn processes_that_stand_for_no_cells_say_why() {
    let signals = [("a", 1), ("b", 1), ("s", 1), ("y", 1)];
    let fails = |statements: Vec<RtlStmt>| {
        synthesize_module(&module(&signals, vec![always(statements)])).unwrap_err()
    };

    let blocking = RtlStmt::Assign { kind: RtlAssignKind::Blocking, lhs: signal(3), rhs: expr(0) };
    assert_eq!(fails(vec![blocking]), SynthError::Blocking);
    let latch = || when(expr(2), vec![assign(3, expr(0))], vec![]);
    assert_eq!(fails(vec![latch(), latch()]), SynthError::LatchNotSingle);
    assert_eq!(
        fails(vec![when(expr(2), vec![assign(3, expr(0))], vec![assign(1, expr(0))])]),
        SynthError::LatchWithElse
    );
    assert_eq!(
        fails(vec![when(expr(2), vec![assign(3, expr(0)), assign(1, expr(0))], vec![])]),
        SynthError::LatchBranchNotSingle
    );
    assert_eq!(fails(vec![when(expr(2), vec![latch()], vec![])]), SynthError::LatchNotAssigned);
    let not = || RtlExpr::Not(Box::new(expr(0)));
    assert_eq!(fails(vec![when(not(), vec![assign(3, expr(0))], vec![])]), SynthError::LatchEnable);
    assert_eq!(fails(vec![when(expr(2), vec![assign(3, not())], vec![])]), SynthError::LatchData);
    assert!(SynthError::LatchNotSingle.message().starts_with("latch inference currently supports"));

    let rtl = module(&signals, vec![posedge(0, vec![assign(9, expr(0))])]);
    assert_eq!(synthesize_module(&rtl).unwrap_err(), SynthError::UnknownSignal { signal: signal(9) });
    assert!(synthesize_module(&module(&signals, vec![always(vec![])])).unwrap().cells.is_empty());
}
