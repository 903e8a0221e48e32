use ioc::{InitCtx, InitStep, IocError};

#[test]
fn ready_beans_are_served_without_rebuilding() {
    let mut ctx = InitCtx::new();
    assert!(matches!(ctx.begin(1), Ok(InitStep::Started)));
    ctx.finish(1, true);
    assert!(matches!(ctx.begin(1), Ok(InitStep::AlreadyReady)));
}

#[test]
fn circular_initialisation_is_refused() {
    // D builds F, F builds E, E asks for D again: a cycle.
    let (d, e, f) = (4u64, 5u64, 6u64);
    let mut ctx = InitCtx::new();
    assert!(matches!(ctx.begin(d), Ok(InitStep::Started)));
    assert!(matches!(ctx.begin(f), Ok(InitStep::Started)));
    assert!(matches!(ctx.begin(e), Ok(InitStep::Started)));
    assert!(matches!(ctx.begin(d), Err(IocError::CircularDependency)));
    // The failed lookup poisons the whole chain.
    ctx.finish(e, false);
    ctx.finish(f, false);
    ctx.finish(d, false);
    let guard = ctx.complete();
    assert!(guard.teardown_order().is_empty());
}

#[test]
fn teardown_order_reverses_readiness_order() {
    let mut ctx = InitCtx::new();
    for key in [10u64, 20, 30] {
        assert!(matches!(ctx.begin(key), Ok(InitStep::Started)));
        ctx.finish(key, true);
    }
    let guard = ctx.complete();
    assert_eq!(guard.teardown_order(), vec![30, 20, 10]);
}

#[test]
fn nested_initialisation_unwinds_in_order() {
    // A builds B inside its own build; B becomes ready first, so it is
    // torn down last.
    let mut ctx = InitCtx::new();
    assert!(matches!(ctx.begin(1), Ok(InitStep::Started)));
    assert!(matches!(ctx.begin(2), Ok(InitStep::Started)));
    ctx.finish(2, true);
    ctx.finish(1, true);
    let guard = ctx.complete();
    assert_eq!(guard.teardown_order(), vec![1, 2]);
}

#[test]
fn unready_bean_is_reported_by_type() {
    let mut ctx = InitCtx::new();
    assert!(matches!(ctx.begin(1), Ok(InitStep::Started)));
    ctx.finish(1, true);
    assert!(ctx.require_ready(1, "TypeA".to_string()).is_ok());
    match ctx.require_ready(2, "TypeB".to_string()) {
        Err(IocError::DependNotReady { type_label }) => assert_eq!(type_label, "TypeB"),
        other => panic!("expected a not-ready error, got {:?}", other),
    }
}
