//! Core data types shared across all solver modules.
use vstd::prelude::*;
use crate::parser::text::{decimal, push_decimal};

verus! {

/// A unique variable identifier.
#[derive(Debug, Clone, Copy, PartialEq, Eq, Structural, Hash)]
pub struct Var(pub usize);

impl Var {
    pub fn new(id: usize) -> (v: Self)
        ensures
            v.0 == id,
    {
        Var(id)
    }

    pub fn id(&self) -> (r: usize)
        ensures
            r == self.0,
    {
        self.0
    }
}

/// The sort (type) of a term or variable.
#[derive(Debug, Clone, Copy, PartialEq, Eq, Structural, Hash)]
pub enum Sort {
    Bool,
    Int,
    Real,
}

/// Global configuration passed to every solver.
#[derive(Debug, Clone)]
pub struct Config {
    /// Time limit in milliseconds (None = no limit).
    pub timeout_ms: Option<u64>,
    /// Memory limit in MB (None = no limit).
    pub max_memory_mb: Option<usize>,
    /// Verbosity level (0 = silent, 1 = normal, 2+ = debug).
    pub verbosity: u8,
    /// Optional random seed for reproducible runs.
    pub random_seed: Option<u64>,
    /// Whether to verify models against constraints before returning.
    pub check_model: bool,
    /// Whether to produce a proof trace.
    pub produce_proof: bool,
    /// Whether to support unsat-core extraction.
    pub produce_unsat_core: bool,
}

/// The configuration every solver starts from.
pub open spec fn default_config() -> Config {
    Config {
        timeout_ms: None,
        max_memory_mb: None,
        verbosity: 1,
        random_seed: None,
        check_model: true,
        produce_proof: false,
        produce_unsat_core: false,
    }
}

impl Default for Config {
    fn default() -> (c: Self)
        ensures
            c == default_config(),
    {
        Config {
            timeout_ms: None,
            max_memory_mb: None,
            verbosity: 1,
            random_seed: None,
            check_model: true,
            produce_proof: false,
            produce_unsat_core: false,
        }
    }
}

impl Config {
    pub fn new() -> (c: Self)
        ensures
            c == default_config(),
    {
        Self::default()
    }

    /// Builder-style: set timeout.
    pub fn with_timeout(self, ms: u64) -> (c: Self)
        ensures
            c == (Config { timeout_ms: Some(ms), ..self }),
    {
        let mut s = self;
        s.timeout_ms = Some(ms);
        s
    }

    /// Builder-style: set verbosity.
    pub fn with_verbosity(self, level: u8) -> (c: Self)
        ensures
            c == (Config { verbosity: level, ..self }),
    {
        let mut s = self;
        s.verbosity = level;
        s
    }
}

/// Errors that can occur during solving.
#[derive(Debug, Clone, PartialEq)]
pub enum SolverError {
    /// Input could not be parsed.
    ParseError(String),
    /// Type error in the input.
    TypeError(String),
    /// The constraint is invalid or malformed.
    InvalidConstraint(String),
    /// The requested feature is not supported.
    Unsupported(String),
    /// Solver exceeded the time limit.
    Timeout,
    /// Solver exceeded the memory limit.
    MemoryExceeded,
    /// Numerical error (e.g. division by zero, overflow).
    NumericalError(String),
    /// Internal solver error.
    InternalError(String),
}

/// The text of an error message: a fixed prefix followed by the payload.
pub open spec fn error_text(e: SolverError) -> Seq<char> {
    match e {
        SolverError::ParseError(m) => "parse error: "@ + m@,
        SolverError::TypeError(m) => "type error: "@ + m@,
        SolverError::InvalidConstraint(m) => "invalid constraint: "@ + m@,
        SolverError::Unsupported(m) => "unsupported: "@ + m@,
        SolverError::Timeout => "timeout"@,
        SolverError::MemoryExceeded => "memory limit exceeded"@,
        SolverError::NumericalError(m) => "numerical error: "@ + m@,
        SolverError::InternalError(m) => "internal error: "@ + m@,
    }
}

/// Prefix `msg` with `prefix`.
fn prefixed(prefix: &str, msg: &String) -> (s: String)
    ensures
        s@ == prefix@ + msg@,
{
    let mut s = String::from_str(prefix);
    s.append(msg.as_str());
    s
}

impl SolverError {
    /// Human-readable message for this error.
    pub fn to_string(&self) -> (s: String)
        ensures
            s@ == error_text(*self),
    {
        match self {
            SolverError::ParseError(m) => prefixed("parse error: ", m),
            SolverError::TypeError(m) => prefixed("type error: ", m),
            SolverError::InvalidConstraint(m) => prefixed("invalid constraint: ", m),
            SolverError::Unsupported(m) => prefixed("unsupported: ", m),
            SolverError::Timeout => String::from_str("timeout"),
            SolverError::MemoryExceeded => String::from_str("memory limit exceeded"),
            SolverError::NumericalError(m) => prefixed("numerical error: ", m),
            SolverError::InternalError(m) => prefixed("internal error: ", m),
        }
    }
}

/// The reason behind an `Unknown` result.
#[derive(Debug, Clone, PartialEq)]
pub enum UnknownReason {
    /// The feature or theory is not yet supported.
    Unsupported,
    /// The problem is undecidable for this solver.
    Undecidable,
    /// A numerical issue prevented a decision.
    NumericalIssue,
    /// A resource limit (time/memory) was hit without a decision.
    ResourceLimit,
    /// The algorithm is incomplete for this class of problems.
    IncompleteAlgorithm,
    /// Internal reason not covered above.
    InternalReason(String),
}

/// A literal-like value used for assumptions in incremental solving.
#[derive(Debug, Clone, Copy, PartialEq, Eq, Structural)]
pub enum LiteralLike {
    Pos(u32),
    Neg(u32),
}

/// Solver statistics collected during a run.
#[derive(Debug, Clone)]
pub struct SolverStats {
    /// Wall-clock elapsed time in milliseconds.
    pub elapsed_ms: u64,
    /// Number of decisions made.
    pub decisions: u64,
    /// Number of propagations.
    pub propagations: u64,
    /// Number of conflicts.
    pub conflicts: u64,
    /// Number of restarts.
    pub restarts: u64,
    /// Number of search nodes explored (MILP/CP).
    pub nodes: u64,
    /// Number of simplex iterations (LP).
    pub simplex_iterations: u64,
    /// Peak memory usage in MB, if available.
    pub memory_mb: Option<usize>,
}

/// Statistics before any work was done: every counter zero.
pub open spec fn zero_stats() -> SolverStats {
    SolverStats {
        elapsed_ms: 0,
        decisions: 0,
        propagations: 0,
        conflicts: 0,
        restarts: 0,
        nodes: 0,
        simplex_iterations: 0,
        memory_mb: None,
    }
}

impl Default for SolverStats {
    fn default() -> (s: Self)
        ensures
            s == zero_stats(),
    {
        SolverStats {
            elapsed_ms: 0,
            decisions: 0,
            propagations: 0,
            conflicts: 0,
            restarts: 0,
            nodes: 0,
            simplex_iterations: 0,
            memory_mb: None,
        }
    }
}

impl SolverStats {
    pub fn new() -> (s: Self)
        ensures
            s == zero_stats(),
    {
        Self::default()
    }
}


/// `Bool`, `Int` or `Real`.
pub open spec fn sort_text(s: Sort) -> Seq<char> {
    match s {
        Sort::Bool => "Bool"@,
        Sort::Int => "Int"@,
        Sort::Real => "Real"@,
    }
}

impl Sort {
    /// The name of the sort.
    pub fn to_string(&self) -> (s: String)
        ensures
            s@ == sort_text(*self),
    {
        match self {
            Sort::Bool => String::from_str("Bool"),
            Sort::Int => String::from_str("Int"),
            Sort::Real => String::from_str("Real"),
        }
    }
}

/// The text of an unknown-result reason.
pub open spec fn reason_text(r: UnknownReason) -> Seq<char> {
    match r {
        UnknownReason::Unsupported => "unsupported"@,
        UnknownReason::Undecidable => "undecidable"@,
        UnknownReason::NumericalIssue => "numerical issue"@,
        UnknownReason::ResourceLimit => "resource limit"@,
        UnknownReason::IncompleteAlgorithm => "incomplete algorithm"@,
        UnknownReason::InternalReason(m) => "internal: "@ + m@,
    }
}

impl UnknownReason {
    /// Human-readable text for this reason.
    pub fn to_string(&self) -> (s: String)
        ensures
            s@ == reason_text(*self),
    {
        match self {
            UnknownReason::Unsupported => String::from_str("unsupported"),
            UnknownReason::Undecidable => String::from_str("undecidable"),
            UnknownReason::NumericalIssue => String::from_str("numerical issue"),
            UnknownReason::ResourceLimit => String::from_str("resource limit"),
            UnknownReason::IncompleteAlgorithm => String::from_str("incomplete algorithm"),
            UnknownReason::InternalReason(m) => prefixed("internal: ", m),
        }
    }
}

/// One line of the statistics report: `  <label><n><unit>` and a newline.
pub open spec fn stat_line(label: Seq<char>, n: nat, unit: Seq<char>) -> Seq<char> {
    "  "@ + label + decimal(n) + unit + "\n"@
}

/// The statistics report, one counter per line; the memory line only when
/// the peak memory is known.
pub open spec fn stats_text(s: SolverStats) -> Seq<char> {
    stat_line("elapsed: "@, s.elapsed_ms as nat, " ms"@) + stat_line("decisions: "@, s.decisions as nat, ""@)
        + stat_line("propagations: "@, s.propagations as nat, ""@) + stat_line("conflicts: "@, s.conflicts as nat, ""@)
        + stat_line("restarts: "@, s.restarts as nat, ""@) + stat_line("nodes: "@, s.nodes as nat, ""@)
        + stat_line("simplex iterations: "@, s.simplex_iterations as nat, ""@) + match s.memory_mb {
        Some(m) => stat_line("memory: "@, m as nat, " MB"@),
        None => Seq::<char>::empty(),
    }
}

/// Append one line of the statistics report.
fn push_stat(out: &mut String, label: &str, n: u128, unit: &str)
    ensures
        final(out)@ == old(out)@ + stat_line(label@, n as nat, unit@),
{
    out.append("  ");
    out.append(label);
    push_decimal(out, n);
    out.append(unit);
    out.append("\n");
    assert(final(out)@ =~= old(out)@ + stat_line(label@, n as nat, unit@));
}

impl SolverStats {
    /// The statistics report.
    pub fn to_string(&self) -> (s: String)
        ensures
            s@ == stats_text(*self),
    {
        let mut s = String::new();
        push_stat(&mut s, "elapsed: ", self.elapsed_ms as u128, " ms");
        push_stat(&mut s, "decisions: ", self.decisions as u128, "");
        push_stat(&mut s, "propagations: ", self.propagations as u128, "");
        push_stat(&mut s, "conflicts: ", self.conflicts as u128, "");
        push_stat(&mut s, "restarts: ", self.restarts as u128, "");
        push_stat(&mut s, "nodes: ", self.nodes as u128, "");
        push_stat(&mut s, "simplex iterations: ", self.simplex_iterations as u128, "");
        match self.memory_mb {
            Some(m) => push_stat(&mut s, "memory: ", m as u128, " MB"),
            None => {},
        }
        assert(s@ =~= stats_text(*self));
        s
    }
}

} // verus!
