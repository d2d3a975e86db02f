//! A complete linear system: variables, constraints, objective, domains.
use vstd::prelude::*;
use crate::common::Var;
use crate::linear::rational::Rational;
use crate::linear::bound::{Bound, Domain, bound_contains};
use crate::linear::constraint::{LinearConstraint, Objective, check_ok, satisfied};
use crate::linear::expr_ops::{valuation, as_spec_fn, value_of};

verus! {

/// The domain recorded for `v` in a list of `(variable, domain)` entries (first match).
pub open spec fn lookup_domain(s: Seq<(Var, Domain)>, v: Var) -> Option<Domain>
    decreases s.len(),
{
    if s.len() == 0 {
        None
    } else if s[0].0 == v {
        Some(s[0].1)
    } else {
        lookup_domain(s.drop_first(), v)
    }
}

/// A complete linear system: variables, constraints, objective, and domains.
///
/// This is the main input container for LP / MILP / SMT-LRA solvers.
#[derive(Debug)]
pub struct LinearSystem {
    /// All variables that have been registered.
    vars: Vec<Var>,
    /// Constraints with optional names.
    constraints: Vec<LinearConstraint>,
    /// The objective function (default: feasibility).
    objective: Objective,
    /// Variable domains (type + bounds), keyed by variable.
    domains: Vec<(Var, Domain)>,
    /// Next variable ID to assign.
    next_var_id: usize,
}

impl LinearSystem {
    /// Every registered variable's id lies below the next fresh id.
    #[verifier::type_invariant]
    spec fn ids_below_next(self) -> bool {
        forall|k: int| 0 <= k < self.vars@.len() ==> (#[trigger] self.vars@[k]).0 < self.next_var_id
    }

    /// The registered variables, in registration order.
    pub closed spec fn spec_vars(&self) -> Seq<Var> {
        self.vars@
    }

    /// The constraints, in insertion order.
    pub closed spec fn spec_constraints(&self) -> Seq<LinearConstraint> {
        self.constraints@
    }

    /// The objective.
    pub closed spec fn spec_objective(&self) -> Objective {
        self.objective
    }

    /// The domain recorded for `v`, if any.
    pub closed spec fn spec_domain(&self, v: Var) -> Option<Domain> {
        lookup_domain(self.domains@, v)
    }

    /// The id the next fresh variable receives.
    pub closed spec fn spec_next_id(&self) -> usize {
        self.next_var_id
    }

    /// Create an empty linear system.
    pub fn new() -> (s: Self)
        ensures
            s.spec_vars().len() == 0,
            s.spec_constraints().len() == 0,
            s.spec_objective() is Feasibility,
            forall|v: Var| s.spec_domain(v) is None,
            s.spec_next_id() == 0,
    {
        LinearSystem {
            vars: Vec::new(),
            constraints: Vec::new(),
            objective: Objective::Feasibility,
            domains: Vec::new(),
            next_var_id: 0,
        }
    }

    /// Record `domain` for `var`, replacing an earlier entry.
    fn insert_domain(&mut self, var: Var, domain: Domain)
        ensures
            final(self).spec_domain(var) == Some(domain),
            forall|v: Var| v != var ==> final(self).spec_domain(v) == old(self).spec_domain(v),
            final(self).vars@ == old(self).vars@,
            final(self).constraints@ == old(self).constraints@,
            final(self).objective == old(self).objective,
            final(self).next_var_id == old(self).next_var_id,
    {
        proof {
            use_type_invariant(&*self);
        }
        let mut doms: Vec<(Var, Domain)> = Vec::new();
        std::mem::swap(&mut doms, &mut self.domains);
        let ghost before = doms@;
        let mut i: usize = 0;
        while i < doms.len()
            invariant
                i <= doms.len(),
                doms@ == before,
                before == old(self).domains@,
                self.vars@ == old(self).vars@,
                self.constraints@ == old(self).constraints@,
                self.objective == old(self).objective,
                self.next_var_id == old(self).next_var_id,
                forall|k: int| 0 <= k < self.vars@.len() ==> (#[trigger] self.vars@[k]).0 < self.next_var_id,
                forall|k: int| 0 <= k < i ==> doms@[k].0 != var,
            decreases doms.len() - i,
        {
            if doms[i].0 == var {
                doms.set(i, (var, domain));
                proof {
                    lemma_lookup_update(before, i as int, var, domain);
                }
                self.domains = doms;
                return;
            }
            i = i + 1;
        }
        doms.push((var, domain));
        proof {
            lemma_lookup_push(before, var, domain);
        }
        self.domains = doms;
    }

    /// Create a new real variable and return it.
    pub fn new_var(&mut self) -> (v: Var)
        requires
            old(self).spec_next_id() < usize::MAX,
        ensures
            v == Var(old(self).spec_next_id()),
            final(self).spec_next_id() == old(self).spec_next_id() + 1,
            final(self).spec_vars() == old(self).spec_vars().push(v),
            final(self).spec_domain(v) == Some(Domain { var: v, is_integer: false, bound: Bound { lower: None, upper: None } }),
            forall|w: Var| w != v ==> final(self).spec_domain(w) == old(self).spec_domain(w),
            final(self).spec_constraints() == old(self).spec_constraints(),
            final(self).spec_objective() == old(self).spec_objective(),
            !old(self).spec_vars().contains(v),
    {
        proof {
            use_type_invariant(&*self);
        }
        let v = Var::new(self.next_var_id);
        self.next_var_id = self.next_var_id + 1;
        let mut items: Vec<Var> = Vec::new();
        std::mem::swap(&mut items, &mut self.vars);
        items.push(v);
        self.vars = items;
        self.insert_domain(v, Domain::real_var(v));
        v
    }

    /// Create a new integer variable.
    pub fn new_int_var(&mut self) -> (v: Var)
        requires
            old(self).spec_next_id() < usize::MAX,
        ensures
            v == Var(old(self).spec_next_id()),
            final(self).spec_next_id() == old(self).spec_next_id() + 1,
            final(self).spec_vars() == old(self).spec_vars().push(v),
            final(self).spec_domain(v) == Some(Domain { var: v, is_integer: true, bound: Bound { lower: None, upper: None } }),
            forall|w: Var| w != v ==> final(self).spec_domain(w) == old(self).spec_domain(w),
            final(self).spec_constraints() == old(self).spec_constraints(),
            final(self).spec_objective() == old(self).spec_objective(),
            !old(self).spec_vars().contains(v),
    {
        proof {
            use_type_invariant(&*self);
        }
        let v = Var::new(self.next_var_id);
        self.next_var_id = self.next_var_id + 1;
        let mut items: Vec<Var> = Vec::new();
        std::mem::swap(&mut items, &mut self.vars);
        items.push(v);
        self.vars = items;
        self.insert_domain(v, Domain::integer(v));
        v
    }

    /// Register an existing variable with the system.
    pub fn add_var(&mut self, var: Var, domain: Domain)
        requires
            var.0 < usize::MAX,
        ensures
            final(self).spec_vars() == (if old(self).spec_vars().contains(var) {
                old(self).spec_vars()
            } else {
                old(self).spec_vars().push(var)
            }),
            final(self).spec_domain(var) == Some(domain),
            forall|w: Var| w != var ==> final(self).spec_domain(w) == old(self).spec_domain(w),
            final(self).spec_next_id() == (if var.0 >= old(self).spec_next_id() {
                (var.0 + 1) as usize
            } else {
                old(self).spec_next_id()
            }),
            final(self).spec_constraints() == old(self).spec_constraints(),
            final(self).spec_objective() == old(self).spec_objective(),
    {
        proof {
            use_type_invariant(&*self);
        }
        let mut found = false;
        let mut i: usize = 0;
        while i < self.vars.len()
            invariant
                i <= self.vars.len(),
                *self == *old(self),
                found == (exists|k: int| 0 <= k < i && self.vars@[k] == var),
            decreases self.vars.len() - i,
        {
            if self.vars[i] == var {
                found = true;
            }
            i = i + 1;
        }
        if var.id() >= self.next_var_id {
            self.next_var_id = var.id() + 1;
        }
        if !found {
            let mut items: Vec<Var> = Vec::new();
            std::mem::swap(&mut items, &mut self.vars);
            items.push(var);
            self.vars = items;
        }
        let ghost mid = self.domains@;
        assert(mid == old(self).domains@);
        self.insert_domain(var, domain);
        assert forall|w: Var| w != var implies self.spec_domain(w) == old(self).spec_domain(w) by {
            assert(lookup_domain(mid, w) == lookup_domain(old(self).domains@, w));
        }
    }

    /// All registered variables.
    pub fn vars(&self) -> (r: &[Var])
        ensures
            r@ == self.spec_vars(),
    {
        self.vars.as_slice()
    }

    /// Number of variables.
    pub fn num_vars(&self) -> (n: usize)
        ensures
            n == self.spec_vars().len(),
    {
        self.vars.len()
    }

    /// Domain for a specific variable.
    pub fn domain(&self, var: Var) -> (r: Option<&Domain>)
        ensures
            r is Some <==> self.spec_domain(var) is Some,
            r is Some ==> *r->0 == self.spec_domain(var)->0,
    {
        let mut i: usize = 0;
        assert(self.domains@.skip(0) =~= self.domains@);
        while i < self.domains.len()
            invariant
                i <= self.domains.len(),
                lookup_domain(self.domains@, var) == lookup_domain(self.domains@.skip(i as int), var),
            decreases self.domains.len() - i,
        {
            assert(self.domains@.skip(i as int).drop_first() =~= self.domains@.skip(i + 1));
            if self.domains[i].0 == var {
                return Some(&self.domains[i].1);
            }
            i = i + 1;
        }
        None
    }

    /// Update the bound for a variable that has a domain.
    pub fn set_bound(&mut self, var: Var, bound: Bound)
        ensures
            final(self).spec_domain(var) == (match old(self).spec_domain(var) {
                Some(d) => Some(Domain { bound, ..d }),
                None => None,
            }),
            forall|w: Var| w != var ==> final(self).spec_domain(w) == old(self).spec_domain(w),
            final(self).spec_vars() == old(self).spec_vars(),
            final(self).spec_next_id() == old(self).spec_next_id(),
            final(self).spec_constraints() == old(self).spec_constraints(),
            final(self).spec_objective() == old(self).spec_objective(),
    {
        proof {
            use_type_invariant(&*self);
        }
        match self.domain(var) {
            Some(d) => {
                let nd = d.with_bound(bound);
                self.insert_domain(var, nd);
            },
            None => {},
        }
    }

    /// Set whether a variable that has a domain is integer.
    pub fn set_integer(&mut self, var: Var, is_int: bool)
        ensures
            final(self).spec_domain(var) == (match old(self).spec_domain(var) {
                Some(d) => Some(Domain { is_integer: is_int, ..d }),
                None => None,
            }),
            forall|w: Var| w != var ==> final(self).spec_domain(w) == old(self).spec_domain(w),
            final(self).spec_vars() == old(self).spec_vars(),
            final(self).spec_next_id() == old(self).spec_next_id(),
            final(self).spec_constraints() == old(self).spec_constraints(),
            final(self).spec_objective() == old(self).spec_objective(),
    {
        proof {
            use_type_invariant(&*self);
        }
        match self.domain(var) {
            Some(d) => {
                let mut nd = *d;
                nd.is_integer = is_int;
                self.insert_domain(var, nd);
            },
            None => {},
        }
    }

    /// Whether a variable is integer (false when it has no domain).
    pub fn is_integer(&self, var: Var) -> (r: bool)
        ensures
            r == (match self.spec_domain(var) {
                Some(d) => d.is_integer,
                None => false,
            }),
    {
        match self.domain(var) {
            Some(d) => d.is_integer,
            None => false,
        }
    }

    /// Add a constraint.
    pub fn add_constraint(&mut self, constraint: LinearConstraint)
        ensures
            final(self).spec_constraints() == old(self).spec_constraints().push(constraint),
            final(self).spec_vars() == old(self).spec_vars(),
            final(self).spec_next_id() == old(self).spec_next_id(),
            forall|w: Var| final(self).spec_domain(w) == old(self).spec_domain(w),
            final(self).spec_objective() == old(self).spec_objective(),
    {
        proof {
            use_type_invariant(&*self);
        }
        let mut items: Vec<LinearConstraint> = Vec::new();
        std::mem::swap(&mut items, &mut self.constraints);
        items.push(constraint);
        self.constraints = items;
    }

    /// All constraints.
    pub fn constraints(&self) -> (r: &[LinearConstraint])
        ensures
            r@ == self.spec_constraints(),
    {
        self.constraints.as_slice()
    }

    /// Number of constraints.
    pub fn num_constraints(&self) -> (n: usize)
        ensures
            n == self.spec_constraints().len(),
    {
        self.constraints.len()
    }

    /// Set the objective function.
    pub fn set_objective(&mut self, objective: Objective)
        ensures
            final(self).spec_objective() == objective,
            final(self).spec_constraints() == old(self).spec_constraints(),
            final(self).spec_vars() == old(self).spec_vars(),
            final(self).spec_next_id() == old(self).spec_next_id(),
            forall|w: Var| final(self).spec_domain(w) == old(self).spec_domain(w),
    {
        proof {
            use_type_invariant(&*self);
        }
        self.objective = objective;
    }

    /// Get the objective function.
    pub fn objective(&self) -> (r: &Objective)
        ensures
            *r == self.spec_objective(),
    {
        &self.objective
    }

    /// Check whether an assignment satisfies all domain bounds and constraints.
    pub fn check_solution<F: Fn(Var) -> Rational>(&self, get_value: F) -> (r: bool)
        requires
            valuation(get_value),
            forall|i: int| 0 <= i < self.spec_constraints().len() ==>
                check_ok(#[trigger] self.spec_constraints()[i], as_spec_fn(get_value)),
        ensures
            r == solution_holds(*self, as_spec_fn(get_value)),
    {
        let ghost val = as_spec_fn(get_value);
        let mut i: usize = 0;
        while i < self.vars.len()
            invariant
                i <= self.vars.len(),
                valuation(get_value),
                val == as_spec_fn(get_value),
                forall|k: int| 0 <= k < i ==> bound_ok(*self, #[trigger] self.vars@[k], val),
            decreases self.vars.len() - i,
        {
            let v = self.vars[i];
            match self.domain(v) {
                Some(d) => {
                    let x = get_value(v);
                    proof {
                        crate::linear::expr_ops::lemma_value_of(get_value, v, x);
                    }
                    if !d.bound.contains(x) {
                        assert(!bound_ok(*self, self.vars@[i as int], val));
                        assert(self.spec_vars()[i as int] == self.vars@[i as int]);
                        return false;
                    }
                },
                None => {},
            }
            i = i + 1;
        }
        let mut j: usize = 0;
        assert forall|k: int| 0 <= k < self.constraints@.len() implies check_ok(#[trigger] self.constraints@[k], val) by {
            assert(self.spec_constraints()[k] == self.constraints@[k]);
        }
        while j < self.constraints.len()
            invariant
                j <= self.constraints.len(),
                valuation(get_value),
                val == as_spec_fn(get_value),
                forall|k: int| 0 <= k < self.vars@.len() ==> bound_ok(*self, #[trigger] self.vars@[k], val),
                forall|k: int| 0 <= k < self.constraints@.len() ==> check_ok(#[trigger] self.constraints@[k], val),
                forall|k: int| 0 <= k < j ==> satisfied(#[trigger] self.constraints@[k], val),
            decreases self.constraints.len() - j,
        {
            assert(valuation(&get_value));
            assert forall|v: Var, r: Rational| (&get_value).ensures((v,), r) == get_value.ensures((v,), r) by {}
            assert(as_spec_fn(&get_value) =~= as_spec_fn(get_value));
            assert(check_ok(self.constraints@[j as int], as_spec_fn(&get_value)));
            let ok = self.constraints[j].check(&get_value);
            if !ok {
                assert(!satisfied(self.constraints@[j as int], val));
                assert(self.spec_constraints()[j as int] == self.constraints@[j as int]);
                return false;
            }
            j = j + 1;
        }
        true
    }

    /// Clear all data.
    pub fn clear(&mut self)
        ensures
            final(self).spec_vars().len() == 0,
            final(self).spec_constraints().len() == 0,
            final(self).spec_objective() is Feasibility,
            forall|v: Var| final(self).spec_domain(v) is None,
            final(self).spec_next_id() == 0,
    {
        self.vars = Vec::new();
        self.constraints = Vec::new();
        self.objective = Objective::Feasibility;
        self.domains = Vec::new();
        self.next_var_id = 0;
    }
}

/// Variable `v` meets its domain bound under `val` (vacuous without a domain).
pub open spec fn bound_ok(s: LinearSystem, v: Var, val: spec_fn(Var) -> Rational) -> bool {
    match s.spec_domain(v) {
        Some(d) => bound_contains(d.bound, val(v)),
        None => true,
    }
}

/// Every variable meets its bound and every constraint holds under `val`.
pub open spec fn solution_holds(s: LinearSystem, val: spec_fn(Var) -> Rational) -> bool {
    &&& forall|k: int| 0 <= k < s.spec_vars().len() ==> bound_ok(s, #[trigger] s.spec_vars()[k], val)
    &&& forall|k: int| 0 <= k < s.spec_constraints().len() ==> satisfied(#[trigger] s.spec_constraints()[k], val)
}

proof fn lemma_lookup_update(s: Seq<(Var, Domain)>, i: int, var: Var, d: Domain)
    requires
        0 <= i < s.len(),
        s[i].0 == var,
        forall|k: int| 0 <= k < i ==> s[k].0 != var,
    ensures
        lookup_domain(s.update(i, (var, d)), var) == Some(d),
        forall|v: Var| v != var ==> lookup_domain(s.update(i, (var, d)), v) == lookup_domain(s, v),
    decreases i,
{
    let u = s.update(i, (var, d));
    if i > 0 {
        assert(u.drop_first() =~= s.drop_first().update(i - 1, (var, d)));
        lemma_lookup_update(s.drop_first(), i - 1, var, d);
        assert forall|v: Var| v != var implies lookup_domain(u, v) == lookup_domain(s, v) by {
            assert(u[0] == s[0]);
            assert(lookup_domain(u.drop_first(), v) == lookup_domain(s.drop_first(), v));
        }
    } else {
        assert(u.drop_first() =~= s.drop_first());
        assert forall|v: Var| v != var implies lookup_domain(u, v) == lookup_domain(s, v) by {
            assert(u[0].0 == var);
        }
    }
}

proof fn lemma_lookup_push(s: Seq<(Var, Domain)>, var: Var, d: Domain)
    requires
        forall|k: int| 0 <= k < s.len() ==> s[k].0 != var,
    ensures
        lookup_domain(s.push((var, d)), var) == Some(d),
        forall|v: Var| v != var ==> lookup_domain(s.push((var, d)), v) == lookup_domain(s, v),
    decreases s.len(),
{
    let u = s.push((var, d));
    if s.len() > 0 {
        assert(u.drop_first() =~= s.drop_first().push((var, d)));
        lemma_lookup_push(s.drop_first(), var, d);
        assert forall|v: Var| v != var implies lookup_domain(u, v) == lookup_domain(s, v) by {
            assert(u[0] == s[0]);
            assert(lookup_domain(u.drop_first(), v) == lookup_domain(s.drop_first(), v));
        }
    } else {
        assert forall|v: Var| v != var implies lookup_domain(u, v) == lookup_domain(s, v) by {
            assert(u.drop_first().len() == 0);
            assert(lookup_domain(u.drop_first(), v) == None::<Domain>);
            assert(lookup_domain(s, v) == None::<Domain>);
        }
    }
}

impl Clone for LinearSystem {
    /// A copy with the same variables and next id; the constraints, the
    /// objective and the domains are cloned.
    fn clone(&self) -> (r: Self)
        ensures
            r.spec_vars() == self.spec_vars(),
            r.spec_next_id() == self.spec_next_id(),
    {
        proof {
            use_type_invariant(self);
        }
        let vars = self.vars.clone();
        assert(vars@ =~= self.vars@);
        LinearSystem {
            vars,
            constraints: self.constraints.clone(),
            objective: self.objective.clone(),
            domains: self.domains.clone(),
            next_var_id: self.next_var_id,
        }
    }
}

impl Default for LinearSystem {
    fn default() -> (s: Self)
        ensures
            s.spec_vars().len() == 0,
            s.spec_constraints().len() == 0,
            s.spec_objective() is Feasibility,
            forall|v: Var| s.spec_domain(v) is None,
            s.spec_next_id() == 0,
    {
        Self::new()
    }
}

} // verus!
