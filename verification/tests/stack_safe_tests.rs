use oxidize_pdf::stack_safe::{
    RecursionGuard, ReferenceGuard, StackSafeContext, MAX_RECURSION_DEPTH,
};

#[test]
fn test_recursion_limits() {
    let mut context = StackSafeContext::with_limits(3, 60);

    assert!(context.enter().is_ok());
    assert_eq!(context.depth, 1);

    assert!(context.enter().is_ok());
    assert_eq!(context.depth, 2);

    assert!(context.enter().is_ok());
    assert_eq!(context.depth, 3);

    assert!(context.enter().is_err());

    context.exit();
    assert_eq!(context.depth, 2);
}

#[test]
fn test_cycle_detection() {
    let mut context = StackSafeContext::new();
    assert!(context.visit_ref(1, 0).is_ok());
    assert!(context.visit_ref(1, 0).is_err());
    assert!(context.visit_ref(2, 0).is_ok());
    context.unvisit_ref(1, 0);
    assert!(context.visit_ref(1, 0).is_ok());
}

#[test]
fn test_recursion_guard() {
    let mut context = StackSafeContext::new();
    assert_eq!(context.depth, 0);
    {
        let _guard = RecursionGuard::new(&mut context).unwrap();
    }
    assert_eq!(context.depth, 0);
}

#[test]
fn test_reference_guard() {
    let mut context = StackSafeContext::new();
    {
        let _guard = ReferenceGuard::new(&mut context, 1, 0).unwrap();
    }
    assert!(!context.visited_refs.contains(&(1, 0)));
    assert!(context.visit_ref(1, 0).is_ok());
}

#[test]
fn test_context_defaults() {
    let context = StackSafeContext::default();
    assert_eq!(context.depth, 0);
    assert_eq!(context.max_depth, MAX_RECURSION_DEPTH);
    assert_eq!(context.max_depth, 1000);
    assert!(!context.visited_refs.contains(&(1, 0)));
}

#[test]
fn test_depth_exceeded_message() {
    let mut context = StackSafeContext::with_limits(0, 60);
    let err = context.enter().unwrap_err();
    assert_eq!(
        err.message(),
        "Syntax error at position 0: Maximum recursion depth exceeded: 1 (limit: 0)"
    );
    assert_eq!(context.depth, 0);
}

#[test]
fn test_circular_reference_message() {
    let mut context = StackSafeContext::new();
    context.visit_ref(7, 2).unwrap();
    let err = context.visit_ref(7, 2).unwrap_err();
    assert_eq!(
        err.message(),
        "Syntax error at position 0: Circular reference detected: 7 2 R"
    );
}

#[test]
fn test_exit_at_zero_stays_zero() {
    let mut context = StackSafeContext::new();
    context.exit();
    assert_eq!(context.depth, 0);
}

#[test]
fn test_enter_exit_restores_depth() {
    let mut context = StackSafeContext::with_limits(10, 60);
    context.enter().unwrap();
    context.enter().unwrap();
    let before = context.depth;
    context.enter().unwrap();
    context.exit();
    assert_eq!(context.depth, before);
}

#[test]
fn test_child_context_shares_state() {
    let mut context = StackSafeContext::with_limits(5, 60);
    context.enter().unwrap();
    context.visit_ref(3, 0).unwrap();
    let child = context.child();
    assert_eq!(child.depth, 1);
    assert_eq!(child.max_depth, 5);
    assert!(child.visited_refs.contains(&(3, 0)));
    assert!(!child.visited_refs.contains(&(4, 0)));
}

#[test]
fn test_check_timeout_fresh_context() {
    let context = StackSafeContext::new();
    assert!(context.check_timeout().is_ok());
}

#[test]
fn test_zero_timeout_expires() {
    let context = StackSafeContext::with_limits(10, 0);
    let start = std::time::Instant::now();
    while start.elapsed() < std::time::Duration::from_millis(2) {}
    let err = context.check_timeout().unwrap_err();
    assert_eq!(err.message(), "Syntax error at position 0: Parsing timeout exceeded: 0s");
}

#[test]
fn test_recursion_guard_over_limit_keeps_depth() {
    let mut context = StackSafeContext::with_limits(0, 60);
    match RecursionGuard::new(&mut context) {
        Err(oxidize_pdf::error::ParseError::SyntaxError { position, message }) => {
            assert_eq!(position, 0);
            assert_eq!(message, "Maximum recursion depth exceeded: 1 (limit: 0)");
        }
        _ => panic!("expected the depth limit error"),
    }
    assert_eq!(context.depth, 0);
}

#[test]
fn test_reference_guard_on_visited_reference() {
    let mut context = StackSafeContext::new();
    assert!(context.visit_ref(7, 2).is_ok());
    match ReferenceGuard::new(&mut context, 7, 2) {
        Err(oxidize_pdf::error::ParseError::SyntaxError { position, message }) => {
            assert_eq!(position, 0);
            assert_eq!(message, "Circular reference detected: 7 2 R");
        }
        _ => panic!("expected the circular reference error"),
    }
    assert!(context.visited_refs.contains(&(7, 2)));
}

#[test]
fn test_context_timeout_seconds() {
    assert_eq!(StackSafeContext::new().timeout, 30);
    assert_eq!(StackSafeContext::with_limits(5, 7).timeout, 7);
    let context = StackSafeContext::with_limits(5, 7);
    assert_eq!(context.child().timeout, 7);
}
