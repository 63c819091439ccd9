use toy_lang::compiler::{check_outcome, source_to_file_text, CheckError, CheckResult, CompileOptions, CompileProfile, CompileSource, ExecutionMode, SourceText};

#[test]
fn compile_options_default_to_debug() {
    let opts = CompileOptions::new("main.toy".to_string());
    assert_eq!(opts.profile, CompileProfile::Debug);
    assert!(matches!(opts.source, CompileSource::Script(ref p) if p == "main.toy"));
}

#[test]
fn compile_options_with_profile() {
    let opts = CompileOptions::new("main.toy".to_string()).with_profile(CompileProfile::Release);
    assert_eq!(opts.profile, CompileProfile::Release);
    assert!(matches!(opts.source, CompileSource::Script(ref p) if p == "main.toy"));
}

#[test]
fn check_outcome_by_first_result() {
    assert_eq!(check_outcome(&vec![]), Err(CheckError::TypeErrors));
    assert_eq!(check_outcome(&vec![CheckResult { has_type_errors: false }]), Ok(()));
    assert_eq!(check_outcome(&vec![CheckResult { has_type_errors: true }]), Err(CheckError::TypeErrors));
    assert_eq!(
        check_outcome(&vec![CheckResult { has_type_errors: false }, CheckResult { has_type_errors: true }]),
        Ok(())
    );
}

#[test]
fn source_text_becomes_file_text() {
    let f = source_to_file_text(&SourceText { text: "x := 42".to_string() });
    assert_eq!(f.text, "x := 42");
}

#[test]
fn default_execution_mode_is_tiered() {
    assert_eq!(ExecutionMode::default(), ExecutionMode::Tiered);
}
