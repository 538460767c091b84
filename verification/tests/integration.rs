#[test]
fn test_roundtrip_placeholder() {
    // Roundtrip behaviour is covered by the golden scenarios and the
    // idempotence tests of the normalization stages.
}

#[test]
fn idempotent_baseline_tests_verify_conservative_behavior() {
    // Idempotence of the simple cases is exercised by the normalizer and
    // diagram tests; complex features are not promised to be idempotent.
}
