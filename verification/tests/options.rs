use redstone_compiler::options::{
    check_intent, design_name, input_kind, placement_engine, snapshot_extension_is_given, InputKind, PlacementEngine,
};

#[test]
fn inputs_are_told_by_their_extension() {
    assert_eq!(input_kind(Some("rcir")), Some(InputKind::Rcir));
    assert_eq!(input_kind(Some("rsnap")), Some(InputKind::Snapshot));
    assert_eq!(input_kind(Some("snapshot")), Some(InputKind::Snapshot));
    assert_eq!(input_kind(Some("v")), Some(InputKind::Verilog));
    assert_eq!(input_kind(Some("V")), None);
    assert_eq!(input_kind(None), None);
}

#[test]
fn compression_replaces_an_intent() {
    assert!(check_intent(InputKind::Verilog, true, true, false).is_ok());
    assert!(check_intent(InputKind::Verilog, true, false, true).is_ok());
    assert!(check_intent(InputKind::Rcir, false, true, true).is_ok());
    assert!(check_intent(InputKind::Snapshot, true, true, true).is_ok());
    assert!(check_intent(InputKind::Rcir, true, true, true).is_err());
    let error = check_intent(InputKind::Verilog, true, true, true).unwrap_err();
    assert!(error.message().contains("pass only one of --compress and --intent"));
}

#[test]
fn designs_are_named_after_their_files() {
    assert_eq!(design_name(Some("out"), Some("in")), "out");
    assert_eq!(design_name(None, Some("in")), "in");
    assert_eq!(design_name(None, None), "design");
    assert!(snapshot_extension_is_given(Some("snapshot")));
    assert!(!snapshot_extension_is_given(Some("rsnap")));
}

#[test]
fn engines_are_told_by_their_name() {
    assert_eq!(placement_engine("legacy"), Some(PlacementEngine::Legacy));
    assert_eq!(placement_engine("annealed"), Some(PlacementEngine::Annealed));
    assert_eq!(placement_engine("other"), None);
    assert_eq!(PlacementEngine::default(), PlacementEngine::Legacy);
}
