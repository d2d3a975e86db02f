use dsuni::common::{Config, SolverError, SolverStats, Var};

#[test]
fn test_default_config() {
    let cfg = Config::default();
    assert_eq!(cfg.verbosity, 1);
    assert!(cfg.timeout_ms.is_none());
    assert!(cfg.check_model);
    assert!(!cfg.produce_proof);
}

#[test]
fn test_builder_methods() {
    let cfg = Config::new().with_timeout(5000).with_verbosity(2);
    assert_eq!(cfg.timeout_ms, Some(5000));
    assert_eq!(cfg.verbosity, 2);
}

#[test]
fn test_parse_error_display() {
    let err = SolverError::ParseError("unexpected token".into());
    assert_eq!(err.to_string(), "parse error: unexpected token");
}

#[test]
fn test_type_error_display() {
    let err = SolverError::TypeError("expected Bool".into());
    assert_eq!(err.to_string(), "type error: expected Bool");
}

#[test]
fn test_timeout_display() {
    let err = SolverError::Timeout;
    assert_eq!(err.to_string(), "timeout");
}

#[test]
fn test_internal_error_display() {
    let err = SolverError::InternalError("bug".into());
    assert_eq!(err.to_string(), "internal error: bug");
}

#[test]
fn error_texts_of_every_variant() {
    assert_eq!(SolverError::InvalidConstraint("c".into()).to_string(), "invalid constraint: c");
    assert_eq!(SolverError::Unsupported("u".into()).to_string(), "unsupported: u");
    assert_eq!(SolverError::MemoryExceeded.to_string(), "memory limit exceeded");
    assert_eq!(SolverError::NumericalError("n".into()).to_string(), "numerical error: n");
}

#[test]
fn stats_start_at_zero() {
    let s = SolverStats::new();
    assert_eq!(s.decisions, 0);
    assert_eq!(s.simplex_iterations, 0);
    assert!(s.memory_mb.is_none());
    assert_eq!(Var::new(7).id(), 7);
}
