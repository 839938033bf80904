use std::collections::HashSet;

use stratamoto::observer::{LlvmCoverage, NoObserver, Observer};

/// The regions of a small instrumented binary: the harness and the observer touch the first
/// two on every run, and the third is a branch that only the input 42 takes.
const REGIONS: usize = 3;

/// What the counters hold after a run of `planted` on `input`, starting from a reset.
fn counters_after(input: u32) -> Vec<u64> {
    let mut counters = vec![0u64; REGIONS];
    counters[0] = 1;
    counters[1] = 2;
    if input == 42 {
        counters[2] = 1;
    }
    counters
}

fn run(observer: &mut LlvmCoverage, input: u32) -> (bool, HashSet<usize>) {
    let counters = counters_after(input);
    let new = observer.observe(&counters);
    (new, observer.hits(&counters).into_iter().collect())
}

/// The observer sees a planted branch the first time an input reaches it and not the second,
/// and the next input starts from a cleared map rather than inherit the branch.
#[test]
fn in_process_coverage_smoke() {
    let mut observer = LlvmCoverage::new(REGIONS);
    assert!(observer.seen() == 0);

    let mut plain = HashSet::new();
    for _ in 0..3 {
        plain.extend(run(&mut observer, 0).1);
    }
    assert!(
        !run(&mut observer, 0).0,
        "a plain input still counts as new"
    );
    let before = observer.seen();

    let (new, with_branch) = run(&mut observer, 42);
    assert!(new, "the planted branch was not observed");
    assert!(observer.seen() > before);
    let branch: Vec<usize> = with_branch.difference(&plain).copied().collect();
    assert!(!branch.is_empty(), "the branch left no region of its own");
    assert!(!run(&mut observer, 42).0, "the branch counted as new twice");

    let (new, after) = run(&mut observer, 0);
    assert!(!new);
    let survived: Vec<usize> = branch
        .iter()
        .copied()
        .filter(|r| after.contains(r))
        .collect();
    assert!(
        survived.is_empty(),
        "regions {survived:?} of the branch survived the reset into a run that did not take it"
    );
}

#[test]
fn a_region_counts_once_however_often_it_runs() {
    let mut observer = LlvmCoverage::new(4);
    assert_eq!(observer.regions(), 4);
    assert_eq!(observer.name(), "llvm-coverage");
    assert!(!observer.observe(&[0, 0, 0, 0]));
    assert_eq!(observer.seen(), 0);
    assert!(observer.observe(&[0, 7, 0, 1]));
    assert_eq!(observer.seen(), 2);
    assert!(!observer.observe(&[0, 100, 0, 3]));
    assert_eq!(observer.seen(), 2);
    assert!(observer.observe(&[5, 0, 0, 0]));
    assert_eq!(observer.seen(), 3);
    assert_eq!(observer.hits(&[5, 0, 9, 0]), vec![0, 2]);
}

#[test]
fn no_observer_sees_nothing() {
    let mut observer = NoObserver;
    observer.reset();
    assert!(!observer.observe());
    assert_eq!(observer.seen(), 0);
    assert_eq!(observer.name(), "none");
}
