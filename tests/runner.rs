use rotor::runner::{Next, Outcome, RunFailure, Runner};

fn run(checks: &[Result<bool, ()>], applies: &[bool]) -> Result<(), RunFailure> {
    let mut r = Runner::new(checks.len());
    for (i, c) in checks.iter().enumerate() {
        if r.on_check(*c) == Next::Apply {
            r.on_apply(applies[i]);
        }
    }
    assert!(r.finished());
    r.finish()
}

#[test]
fn counts_apply_failures_anywhere() {
    let checks = [Ok(false); 5];
    assert_eq!(Err(RunFailure { failed: 2, total: 5 }), run(&checks, &[false, true, true, true, false]));
    assert_eq!(Err(RunFailure { failed: 2, total: 5 }), run(&checks, &[true, false, false, true, true]));
    assert_eq!(Ok(()), run(&checks, &[true; 5]));
}

#[test]
fn check_errors_count_and_skip_apply() {
    let mut r = Runner::new(3);
    assert_eq!(Next::Advance, r.on_check(Err(())));
    assert_eq!(Next::Advance, r.on_check(Ok(true)));
    assert_eq!(Next::Apply, r.on_check(Ok(false)));
    assert!(!r.finished());
    r.on_apply(true);
    assert_eq!(Err(RunFailure { failed: 1, total: 3 }), r.finish());
}

#[test]
fn empty_run_succeeds() {
    assert_eq!(Ok(()), run(&[], &[]));
    assert_ne!(Outcome::Applied, Outcome::ApplyFailed);
}
