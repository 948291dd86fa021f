use mr_guile_lsp_server::scheduler::DebouncedScheduler;

fn key(s: &str) -> String {
    s.to_string()
}

#[test]
fn single_schedule_runs_once_after_debounce() {
    let mut s = DebouncedScheduler::new();
    let g = s.bump(&key("a"));
    // When its quiet period has elapsed the task is still the latest: it runs.
    assert!(s.is_current(&key("a"), g));
}

#[test]
fn rapid_burst_coalesces_into_single_run() {
    // Five schedules for the same key within the debounce window must
    // collapse to exactly one run of the latest task.
    let mut s = DebouncedScheduler::new();
    let mut gens = Vec::new();
    for _ in 0..5 {
        gens.push(s.bump(&key("a")));
    }
    let runs = gens.iter().filter(|g| s.is_current(&key("a"), **g)).count();
    assert_eq!(runs, 1);
    assert!(s.is_current(&key("a"), *gens.last().unwrap()));
}

#[test]
fn independent_keys_run_independently() {
    let mut s = DebouncedScheduler::new();
    let ga = s.bump(&key("a"));
    let gb = s.bump(&key("b"));
    // Two different keys -> two runs (no cross-coalescing).
    assert!(s.is_current(&key("a"), ga));
    assert!(s.is_current(&key("b"), gb));
}

#[test]
fn generations_count_the_schedules_of_a_key() {
    let mut s = DebouncedScheduler::default();
    assert_eq!(s.generation(&key("file:///a.scm")), 0);
    assert_eq!(s.bump(&key("file:///a.scm")), 1);
    assert_eq!(s.bump(&key("file:///a.scm")), 2);
    assert_eq!(s.bump(&key("file:///b.scm")), 1);
    assert_eq!(s.generation(&key("file:///a.scm")), 2);
    assert_eq!(s.generation(&key("file:///b.scm")), 1);
    assert_eq!(s.generation(&key("file:///c.scm")), 0);
}

#[test]
fn a_stale_task_is_dropped() {
    let mut s = DebouncedScheduler::new();
    let first = s.bump(&key("a"));
    let second = s.bump(&key("a"));
    assert!(!s.is_current(&key("a"), first));
    assert!(s.is_current(&key("a"), second));
    // A task of a key that was never scheduled is not current.
    assert!(!s.is_current(&key("z"), 1));
}
