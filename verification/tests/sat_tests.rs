use dsuni::sat::{Lit, Reason, Trail, WatchList};

#[test]
fn test_positive_literal() {
    let l = Lit::positive(0);
    assert_eq!(l.var, 0);
    assert!(l.sign);
}

#[test]
fn test_negative_literal() {
    let l = Lit::negative(2);
    assert_eq!(l.var, 2);
    assert!(!l.sign);
}

#[test]
fn test_not() {
    let l = Lit::positive(1);
    let n = l.not();
    assert_eq!(n.var, 1);
    assert!(!n.sign);
    assert_eq!(n.not(), l);
}

#[test]
fn test_dimacs_roundtrip() {
    assert_eq!(Lit::from_dimacs(5).to_dimacs(), 5);
    assert_eq!(Lit::from_dimacs(-3).to_dimacs(), -3);
    assert_eq!(Lit::from_dimacs(1).to_dimacs(), 1);
}

#[test]
fn test_index() {
    assert_eq!(Lit::positive(0).index(), 1);
    assert_eq!(Lit::negative(0).index(), 0);
    assert_eq!(Lit::positive(1).index(), 3);
    assert_eq!(Lit::negative(1).index(), 2);
}

#[test]
fn test_index_count() {
    assert_eq!(Lit::index_count(3), 6);
}

#[test]
fn dimacs_extremes() {
    assert_eq!(Lit::from_dimacs(-1), Lit::negative(0));
    assert_eq!(Lit::from_dimacs(i32::MAX).to_dimacs(), i32::MAX);
    assert_eq!(Lit::new(4, false).to_dimacs(), -5);
}

#[test]
fn test_empty_trail() {
    let t = Trail::new();
    assert_eq!(t.current_level(), 0);
    assert!(t.is_empty());
}

#[test]
fn test_push_decision() {
    let mut t = Trail::new();
    let new_level = t.push_decision(Lit::positive(0));
    assert_eq!(new_level, 1);
    assert_eq!(t.current_level(), 1);
    assert_eq!(t.len(), 1);
    assert_eq!(t.get(0).level, 1);
    assert_eq!(t.get(0).reason, Reason::Decision);
}

#[test]
fn test_decision_and_propagations() {
    let mut t = Trail::new();
    t.push_propagated(Lit::positive(0), Reason::Propagation(0));
    t.push_decision(Lit::positive(1));
    t.push_propagated(Lit::positive(2), Reason::Propagation(1));
    assert_eq!(t.current_level(), 1);
    assert_eq!(t.len(), 3);
    assert_eq!(t.get(0).lit, Lit::positive(0));
    assert_eq!(t.get(0).level, 0);
    assert_eq!(t.get(1).lit, Lit::positive(1));
    assert_eq!(t.get(1).level, 1);
    assert_eq!(t.get(2).lit, Lit::positive(2));
    assert_eq!(t.get(2).level, 1);
}

#[test]
fn test_backtrack() {
    let mut t = Trail::new();
    t.push_propagated(Lit::positive(0), Reason::Propagation(1));
    t.push_decision(Lit::positive(1));
    t.push_propagated(Lit::positive(2), Reason::Propagation(2));
    t.push_decision(Lit::positive(3));
    assert_eq!(t.current_level(), 2);
    assert_eq!(t.len(), 4);
    let removed = t.backtrack(1);
    assert_eq!(removed, 1);
    assert_eq!(t.current_level(), 1);
    assert_eq!(t.len(), 3);
}

#[test]
fn test_iter_level() {
    let mut t = Trail::new();
    t.push_propagated(Lit::positive(0), Reason::Propagation(0));
    t.push_decision(Lit::positive(1));
    t.push_propagated(Lit::positive(2), Reason::Propagation(1));
    assert_eq!(t.iter_level(0).len(), 1);
    assert_eq!(t.iter_level(1).len(), 2);
}

#[test]
fn test_backtrack_to_zero() {
    let mut t = Trail::new();
    t.push_propagated(Lit::positive(0), Reason::Propagation(1));
    t.push_decision(Lit::positive(1));
    t.push_propagated(Lit::positive(2), Reason::Propagation(2));
    let removed = t.backtrack(0);
    assert_eq!(removed, 2);
    assert_eq!(t.current_level(), 0);
    assert_eq!(t.len(), 1);
}

#[test]
fn test_push_decision_returns_new_level() {
    let mut t = Trail::new();
    let lvl1 = t.push_decision(Lit::positive(0));
    assert_eq!(lvl1, 1);
    let lvl2 = t.push_decision(Lit::positive(1));
    assert_eq!(lvl2, 2);
    assert_eq!(t.current_level(), 2);
}

#[test]
fn trail_backtrack_undoes_decision() {
    let mut t = Trail::new();
    t.push_propagated(Lit::positive(0), Reason::Propagation(0));
    let before_len = t.len();
    let level = t.current_level();
    t.push_decision(Lit::negative(4));
    t.push_propagated(Lit::positive(5), Reason::Propagation(3));
    t.backtrack(level);
    assert_eq!(t.len(), before_len);
    assert_eq!(t.current_level(), level);
    assert_eq!(t.last().unwrap().lit, Lit::positive(0));
    assert_eq!(t.level_start(0), 0);
    assert_eq!(t.current_level_size(), 1);
    assert_eq!(t.iter().len(), 1);
}

#[test]
fn watch_lists() {
    let mut w = WatchList::new(2);
    assert_eq!(w.len(), 4);
    w.watch(Lit::positive(1), 7);
    w.watch(Lit::positive(1), 9);
    w.watch(Lit::negative(0), 7);
    assert_eq!(w.watches(Lit::positive(1)), &[7, 9]);
    assert!(w.remove_watch(Lit::positive(1), 7));
    assert_eq!(w.watches(Lit::positive(1)), &[9]);
    assert!(!w.remove_watch(Lit::positive(1), 7));
    w.watches_mut(Lit::negative(1)).push(3);
    assert_eq!(w.watches(Lit::negative(1)), &[3]);
    w.remove_clause(7);
    assert_eq!(w.watches(Lit::negative(0)).len(), 0);
    assert_eq!(w.watches(Lit::positive(1)), &[9]);
}
