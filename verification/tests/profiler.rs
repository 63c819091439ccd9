use toy_lang::profiler::Profiler;

#[test]
fn new_profiler_has_default_threshold() {
    let p = Profiler::new();
    assert_eq!(p.execution_count(), 0);
    assert_eq!(p.hot_threshold(), 100);
}

#[test]
fn profiler_with_threshold() {
    let p = Profiler::with_threshold(7);
    assert_eq!(p.execution_count(), 0);
    assert_eq!(p.hot_threshold(), 7);
}

#[test]
fn record_execution_counts() {
    let mut p = Profiler::with_threshold(3);
    for _ in 0..5 {
        p.record_execution();
    }
    assert_eq!(p.execution_count(), 5);
    assert_eq!(p.hot_threshold(), 3);
}

#[test]
fn default_profiler_has_default_threshold() {
    let p = Profiler::default();
    assert_eq!(p.execution_count(), 0);
    assert_eq!(p.hot_threshold(), 100);
}
