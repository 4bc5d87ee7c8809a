use redstone_compiler::ir::target::{
    MappingPolicy, MappingSpec, MappingSpecError, TargetOp, TargetSpec, XorMapping, MAPPING_SPEC_FORMAT,
    ROUTABLE_IR_TARGET,
};

fn reduced() -> TargetSpec {
    TargetSpec::new(
        ROUTABLE_IR_TARGET,
        vec![TargetOp::Buffer, TargetOp::Not, TargetOp::And, TargetOp::Or, TargetOp::DLatch],
    )
}

#[test]
fn redstone_v1_supports_every_lowering_operation() {
    let target = TargetSpec::redstone_v1();

    assert_eq!(target.name(), "redstone-v1");
    for op in TargetOp::all() {
        assert!(target.supports(op), "missing capability `{}`", op.name());
    }
    assert!(MappingPolicy::default().validate(&target).is_ok());
}

#[test]
fn reduced_target_rejects_native_xor_policy() {
    let target = reduced();
    let policy = MappingPolicy::default();

    let error = policy.validate(&target).unwrap_err().message();
    assert!(error.contains("does not support `xor`"), "unexpected error: {error}");
}

#[test]
fn and_or_not_xor_policy_passes_on_reduced_target() {
    let target = reduced();
    let policy = MappingPolicy { xor: XorMapping::AndOrNot, ..MappingPolicy::default() };

    assert!(policy.validate(&target).is_ok());
}

#[test]
fn missing_d_latch_rejects_master_slave_register_policy() {
    let target = TargetSpec::new(ROUTABLE_IR_TARGET, TargetOp::all());
    let policy = MappingPolicy::default();

    // Sanity check that a target without d_latch cannot host the default
    // register decomposition, while the full capability set can.
    assert!(target.supports(TargetOp::DLatch));
    assert!(policy.validate(&target).is_ok());
    assert!(!TargetSpec::new(ROUTABLE_IR_TARGET, vec![TargetOp::Not]).supports(TargetOp::DLatch));
}

#[test]
fn mapping_specs_name_their_format_and_target() {
    let spec = MappingSpec::redstone_v1();
    assert_eq!(spec.format, MAPPING_SPEC_FORMAT);
    assert!(spec.check_format().is_ok());
    assert_eq!(spec.target_spec().unwrap().name(), "redstone-v1");

    let other = MappingSpec { format: "other".to_owned(), ..MappingSpec::redstone_v1() };
    let error = other.check_format().unwrap_err();
    assert!(matches!(error, MappingSpecError::UnsupportedFormat(_)));
    assert!(error.message().contains("unsupported mapping spec format"), "{}", error.message());

    let unknown = MappingSpec { target: "other".to_owned(), ..MappingSpec::redstone_v1() };
    let error = unknown.target_spec().err().unwrap();
    assert!(matches!(error, MappingSpecError::UnsupportedTarget(_)));
    assert!(error.message().contains("unsupported mapping target `other`"), "{}", error.message());
}
