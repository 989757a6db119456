use cable_bench::tally::{run_totals, sort_by_index, think_totals, PromptOutcome};

fn outcome(index: usize, b: u64, c: u64, signal: bool, tb: Option<u64>, tc: Option<u64>) -> PromptOutcome {
    PromptOutcome {
        index,
        category: "cs-technical".to_string(),
        node: "local".to_string(),
        baseline_tokens: b,
        cable_tokens: c,
        signal,
        est_think_baseline: tb,
        est_think_cable: tc,
    }
}

#[test]
fn sort_orders_by_index_and_keeps_all() {
    let v = vec![outcome(3, 1, 1, true, None, None), outcome(0, 2, 2, false, None, None), outcome(2, 3, 3, true, None, None), outcome(1, 4, 4, true, None, None)];
    let s = sort_by_index(v);
    let idx: Vec<usize> = s.iter().map(|r| r.index).collect();
    assert_eq!(idx, vec![0, 1, 2, 3]);
    let b: Vec<u64> = s.iter().map(|r| r.baseline_tokens).collect();
    assert_eq!(b, vec![2, 4, 3, 1]);
}

#[test]
fn sort_empty() {
    assert!(sort_by_index(vec![]).is_empty());
}

#[test]
fn totals_sum_and_count() {
    let v = vec![outcome(0, 100, 40, true, None, None), outcome(1, 50, 30, false, None, None), outcome(2, 10, 20, true, None, None)];
    let t = run_totals(&v);
    assert_eq!(t.baseline_tokens, 160);
    assert_eq!(t.cable_tokens, 90);
    assert_eq!(t.signal_preserved, 2);
    assert_eq!(t.prompts_run, 3);
    assert!(t.signal_preserved <= t.prompts_run);
}

#[test]
fn totals_wrap_like_release_sum() {
    let v = vec![outcome(0, u64::MAX, 0, false, None, None), outcome(1, 3, 0, false, None, None)];
    assert_eq!(run_totals(&v).baseline_tokens, 2);
}

#[test]
fn think_totals_skip_missing() {
    let v = vec![outcome(0, 0, 0, true, Some(10), None), outcome(1, 0, 0, true, None, Some(4)), outcome(2, 0, 0, true, Some(5), Some(1))];
    assert_eq!(think_totals(&v), (15, 5));
    assert_eq!(think_totals(&vec![]), (0, 0));
}

#[test]
fn sort_is_stable_for_equal_indices() {
    let v = vec![outcome(1, 10, 0, true, None, None), outcome(0, 20, 0, true, None, None), outcome(1, 30, 0, true, None, None), outcome(0, 40, 0, true, None, None)];
    let s = sort_by_index(v);
    let b: Vec<u64> = s.iter().map(|r| r.baseline_tokens).collect();
    assert_eq!(b, vec![20, 40, 10, 30]);
}
