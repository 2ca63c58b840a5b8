//! The propagation engine: the state shared between the oracle bridge, the
//! integer variable store, and the propagators, together with the entry
//! points of the external-propagator protocol.

use vstd::prelude::*;

use crate::activation::{ActivationList, IntEvent, IntPropCond};
use crate::bool_to_int::BoolToIntMap;
use crate::config::SolverConfiguration;
use crate::int_var::{
    DirectStorage, EncodingType, IntVar, NewIntVar, OrderStorage, VarFactory,
};
use crate::domain::IntSetVal;
use crate::meaning::LitMeaning;
use crate::propagator::Reason;
use crate::queue::{PriorityLevel, PriorityQueue};
use crate::stats::SearchStatistics;
use crate::trail::Trail;
use crate::view::{is_lit, BoolView, BoolViewInner, IntView, IntViewInner};

verus! {

#[derive(Clone)]
/// The internal state of the propagation engine.
pub struct State {
    /// The solver configuration.
    pub config: SolverConfiguration,
    /// The integer variables.
    pub int_vars: Vec<IntVar>,
    /// The mapping from Boolean variables to integer conditions.
    pub bool_to_int: BoolToIntMap,
    /// The journal of reversible changes.
    pub trail: Trail,
    /// The source of fresh oracle variables; the oracle mirrors this
    /// numbering.
    pub factory: VarFactory,
    /// Literals propagated by the engine, waiting to be handed to the
    /// oracle.
    pub propagation_queue: Vec<i32>,
    /// The reasons for the propagated literals, keyed by literal.
    pub reason_map: Vec<(i32, Reason)>,
    /// The conflict clause found by the latest propagation, if any.
    pub conflict: Option<Vec<i32>>,
    /// Whether a conflict has been detected and not yet resolved by
    /// backtracking.
    pub failed: bool,
    /// Clauses waiting to be handed to the oracle.
    pub clauses: Vec<Vec<i32>>,
    /// Statistics of the search.
    pub statistics: SearchStatistics,
    /// Whether the activity-based oracle heuristic currently makes the
    /// decisions.
    pub vsids: bool,
    /// For each subscribed Boolean variable, the propagators to wake.
    pub bool_activation: Vec<(i32, Vec<usize>)>,
    /// For each integer variable, the propagators to wake per event.
    pub int_activation: Vec<ActivationList>,
    /// The queue of propagators waiting to run.
    pub propagator_queue: PriorityQueue<usize>,
    /// The priority at which each propagator runs.
    pub propagator_priority: Vec<PriorityLevel>,
    /// Whether each propagator is currently in the queue.
    pub enqueued: Vec<bool>,
}

impl State {
    /// The number of propagator slots.
    pub open spec fn n_props(self) -> int {
        self.propagator_priority@.len() as int
    }

    /// The bounds of the integer variable `i` are inside its initial
    /// domain and ordered.
    pub open spec fn bounds_ok(self, i: int) -> bool {
        let x = self.int_vars@[i];
        &&& x.dlb() <= x.lb_of(self.trail) <= x.ub_of(self.trail) <= x.dub()
        &&& x.domain.contains_spec(x.lb_of(self.trail))
        &&& x.domain.contains_spec(x.ub_of(self.trail))
    }

    /// The state of the integer variable `i` recorded for decision level
    /// `l` is valid: the lazy cursors index real nodes and the recorded
    /// bounds lie ordered inside the initial domain.
    pub open spec fn level_ok(self, i: int, l: int) -> bool {
        let x = self.int_vars@[i];
        let vals = self.trail.level_values(l);
        &&& vals.len() == self.trail.int_value@.len()
        &&& match x.order_encoding {
            OrderStorage::Eager { lower_bound, .. } => {
                &&& x.dlb() <= vals[lower_bound.idx as int] <= vals[x.upper_bound.idx as int]
                    <= x.dub()
                &&& x.domain.contains_spec(vals[lower_bound.idx as int] as int)
                &&& x.domain.contains_spec(vals[x.upper_bound.idx as int] as int)
            },
            OrderStorage::Lazy(st) => {
                let c = vals[st.lb_index.idx as int];
                let lbv = if c >= 0 {
                    st.storage@[c as int].val as int
                } else {
                    x.dlb()
                };
                &&& -1 <= c < st.size()
                &&& -1 <= vals[st.ub_index.idx as int] < st.size()
                &&& x.dlb() <= lbv <= vals[x.upper_bound.idx as int] <= x.dub()
                &&& x.domain.contains_spec(lbv)
                &&& x.domain.contains_spec(vals[x.upper_bound.idx as int] as int)
            },
        }
    }

    /// Whether the integer variable `i` owns the trail cell `c`.
    pub open spec fn owns_cell(self, i: int, c: int) -> bool {
        let x = self.int_vars@[i];
        c >= 0 && (c == x.upper_bound.idx || c == x.cursor_cell_lb() || c == x.cursor_cell_ub()
            || c == x.bound_cell_lb())
    }

    /// A lazily registered meaning is backed by the variable's storages.
    pub open spec fn reg_coupled(self, iv: int, v: int, m: LitMeaning) -> bool {
        &&& 0 <= iv < self.int_vars@.len()
        &&& match m {
            LitMeaning::Less(w) => {
                let x = self.int_vars@[iv];
                &&& x.domain.contains_spec(w as int)
                &&& x.dlb() < w <= x.dub()
                &&& match x.order_encoding {
                    OrderStorage::Lazy(st) => st.has_val(w as int) && st.var_of(w as int) == v,
                    OrderStorage::Eager { .. } => true,
                }
            },
            LitMeaning::Eq(c) => {
                let x = self.int_vars@[iv];
                &&& x.domain.contains_spec(c as int)
                &&& x.dlb() < c < x.dub()
                &&& x.direct_has(c as int)
                &&& match x.order_encoding {
                    OrderStorage::Lazy(st) => st.has_val(c as int) && st.has_val(
                        x.domain.count_next_spec(c as int),
                    ),
                    OrderStorage::Eager { .. } => true,
                }
            },
            _ => false,
        }
    }

    /// An eagerly registered range covers exactly the order and direct
    /// variable ranges of its integer variable, which are adjacent.
    pub open spec fn eager_coupled(self, range: crate::int_var::VarRange, iv: int) -> bool {
        &&& 0 <= iv < self.int_vars@.len()
        &&& ({
            let x = self.int_vars@[iv];
            match x.order_encoding {
                OrderStorage::Eager { storage, .. } => {
                    &&& range.start == storage.start
                    &&& match x.direct_encoding {
                        DirectStorage::Eager(vars) => vars.start == storage.start + storage.len
                            && range.len == storage.len + vars.len,
                        DirectStorage::Lazy(_) => range.len == storage.len,
                    }
                },
                OrderStorage::Lazy(_) => false,
            }
        })
    }

    /// The engine state invariant: a well-formed trail at its head, well
    /// formed variables with valid bounds, disjoint trail cells, and a
    /// literal map backed by the variable storages.
    pub open spec fn wf(self) -> bool {
        &&& self.trail.wf()
        &&& self.trail.redo_wf()
        &&& self.trail.pos == self.trail.trail@.len()
        &&& self.factory.wf()
        &&& self.bool_to_int.wf()
        &&& self.int_activation@.len() == self.int_vars@.len()
        &&& (forall|i: int|
            0 <= i < self.int_vars@.len() ==> (#[trigger] self.int_vars@[i]).wf())
        &&& (forall|i: int|
            0 <= i < self.int_vars@.len() ==> (#[trigger] self.int_vars@[i]).trail_wf(self.trail))
        &&& (forall|i: int| 0 <= i < self.int_vars@.len() ==> self.bounds_ok(i))
        &&& (forall|i: int|
            0 <= i < self.int_vars@.len() ==> match (#[trigger] self.int_vars@[i]).order_encoding {
                OrderStorage::Eager { .. } => true,
                OrderStorage::Lazy(st) => st.size() < self.factory.next_var,
            })
        &&& (forall|i: int, j: int, c: int|
            0 <= i < j < self.int_vars@.len() && #[trigger] self.owns_cell(i, c)
                ==> !#[trigger] self.owns_cell(j, c))
        &&& (forall|k: int|
            0 <= k < self.bool_to_int.lazy@.len() ==> self.reg_coupled(
                (#[trigger] self.bool_to_int.lazy@[k]).1.0 as int,
                self.bool_to_int.lazy@[k].0 as int,
                self.bool_to_int.lazy@[k].1.1,
            ))
        &&& (forall|k: int|
            0 <= k < self.bool_to_int.eager@.len() ==> self.eager_coupled(
                (#[trigger] self.bool_to_int.eager@[k]).0,
                self.bool_to_int.eager@[k].1 as int,
            ))
        &&& (forall|i: int, l: int|
            0 <= i < self.int_vars@.len() && 0 <= l < self.trail.prev_len@.len()
                ==> #[trigger] self.level_ok(i, l))
        &&& (forall|k: int|
            0 <= k < self.bool_to_int.eager@.len() ==> (#[trigger] self.bool_to_int.eager@[k]).0.start
                + self.bool_to_int.eager@[k].0.len <= self.factory.next_var)
        &&& self.enqueued@.len() == self.propagator_priority@.len()
        &&& self.bool_activation@.len() <= usize::MAX
    }

    /// A fresh engine state with no variables and no propagators.
    pub fn new() -> (r: State)
        ensures
            r.wf(),
            r.int_vars@.len() == 0,
            r.n_props() == 0,
            r.trail.prev_len@.len() == 0,
            r.factory.next_var == 1,
    {
        State {
            config: SolverConfiguration {
                toggle_vsids: false,
                vsids_after: None,
                vsids_only: false,
            },
            int_vars: Vec::new(),
            bool_to_int: BoolToIntMap::new(),
            trail: Trail::new(),
            factory: VarFactory::new(),
            propagation_queue: Vec::new(),
            reason_map: Vec::new(),
            conflict: None,
            failed: false,
            clauses: Vec::new(),
            statistics: SearchStatistics {
                conflicts: 0,
                oracle_decisions: 0,
                peak_depth: 0,
                propagations: 0,
                restarts: 0,
                user_decisions: 0,
            },
            vsids: false,
            bool_activation: Vec::new(),
            int_activation: Vec::new(),
            propagator_queue: PriorityQueue::new(),
            propagator_priority: Vec::new(),
            enqueued: Vec::new(),
        }
    }

    /// The value currently assigned to a Boolean view, if any.
    pub fn get_bool_val(&self, bv: BoolView) -> (r: Option<bool>)
        requires
            self.wf(),
            bv.wf(),
        ensures
            match bv.0 {
                BoolViewInner::Lit(l) => r == self.trail.sat_value_spec(l as int),
                BoolViewInner::Const(b) => r == Some(b),
            },
    {
        match bv.0 {
            BoolViewInner::Lit(l) => self.trail.get_sat_value(l),
            BoolViewInner::Const(b) => Some(b),
        }
    }

    /// Create a fresh Boolean variable, mirrored by the oracle.
    pub fn new_bool_var(&mut self) -> (r: i32)
        requires
            old(self).wf(),
            old(self).factory.next_var < i32::MAX - 4,
        ensures
            final(self).wf(),
            is_lit(r as int),
            r == old(self).factory.next_var,
            final(self).factory.next_var == r + 1,
            final(self).int_vars@ == old(self).int_vars@,
            final(self).n_props() == old(self).n_props(),
            final(self).trail.int_value@ == old(self).trail.int_value@,
            final(self).trail.prev_len@ == old(self).trail.prev_len@,
            final(self).trail.trail@ == old(self).trail.trail@,
            final(self).trail.sat_store@.len() > r,
    {
        let v = self.factory.new_var();
        self.trail.grow_to_boolvar(v);
        proof {
            lemma_state_facts(old(self), self);
        }
        v
    }

    /// Add a clause over Boolean views to be handed to the oracle.
    /// Constant-true views make the clause trivial (nothing is added);
    /// constant-false views are dropped from the clause.
    pub fn add_clause(&mut self, clause: &Vec<BoolView>)
        requires
            old(self).wf(),
        ensures
            final(self).wf(),
            final(self).int_vars@ == old(self).int_vars@,
            final(self).n_props() == old(self).n_props(),
            final(self).trail == old(self).trail,
            crate::view::has_const(clause@, true) ==> final(self).clauses@ == old(self).clauses@,
            !crate::view::has_const(clause@, true) ==> final(self).clauses@.len() == old(
                self,
            ).clauses@.len() + 1 && final(self).clauses@.last()@ =~= crate::view::lit_payloads(
                clause@,
            ) && (forall|j: int|
                0 <= j < old(self).clauses@.len() ==> #[trigger] final(self).clauses@[j] == old(
                    self,
                ).clauses@[j]),
    {
        let n = clause.len();
        let mut lits: Vec<i32> = Vec::new();
        let mut i: usize = 0;
        while i < n
            invariant
                *self == *old(self),
                old(self).wf(),
                n == clause@.len(),
                0 <= i <= n,
                lits@ =~= crate::view::lit_payloads(clause@.take(i as int)),
                forall|j: int|
                    0 <= j < i ==> (#[trigger] clause@[j]) != BoolView(
                        BoolViewInner::Const(true),
                    ),
            decreases n - i,
        {
            proof {
                crate::view::lemma_lit_payloads_take_step(clause@, i as int);
            }
            match clause[i].0 {
                BoolViewInner::Lit(l) => lits.push(l),
                BoolViewInner::Const(true) => {
                    proof {
                        assert(clause@[i as int] == BoolView(BoolViewInner::Const(true)));
                    }
                    return ;
                },
                BoolViewInner::Const(false) => (),
            }
            i = i + 1;
        }
        proof {
            assert(clause@.take(n as int) =~= clause@);
        }
        self.clauses.push(lits);
        proof {
            lemma_state_facts(old(self), self);
        }
    }
}

impl State {
    /// Create a new integer variable with the given domain and encodings,
    /// returning a view of it. Eagerly created literals are linked by their
    /// defining clauses and registered in the literal map.
    #[verifier::rlimit(100)]
    #[verifier::spinoff_prover]
    pub fn new_int_var(
        &mut self,
        domain: IntSetVal,
        order_encoding: EncodingType,
        direct_encoding: EncodingType,
    ) -> (r: IntView)
        requires
            old(self).wf(),
            domain.wf(),
            domain.ranges@.len() > 0,
            domain.card_spec() <= usize::MAX,
            old(self).factory.next_var + 2 * domain.card_spec() <= i32::MAX - 8,
            direct_encoding is Eager ==> order_encoding is Eager,
            domain.card_spec() == 2 ==> domain.ub_spec() - domain.lb_spec() <= i64::MAX,
        ensures
            final(self).wf(),
            final(self).n_props() == old(self).n_props(),
            final(self).trail.prev_len@ == old(self).trail.prev_len@,
            final(self).int_vars@.len() >= old(self).int_vars@.len(),
            match r.0 {
                IntViewInner::Const(c) => domain.card_spec() == 1 && c == domain.lb_spec()
                    && final(self).int_vars@ == old(self).int_vars@,
                IntViewInner::Bool { transformer, lit } => domain.card_spec() == 2
                    && final(self).int_vars@ == old(self).int_vars@ && lit == old(
                    self,
                ).factory.next_var && transformer.s() == domain.ub_spec() - domain.lb_spec()
                    && transformer.o() == domain.lb_spec(),
                IntViewInner::VarRef(iv) => domain.card_spec() >= 3 && iv == old(
                    self,
                ).int_vars@.len() && final(self).int_vars@.len() == old(self).int_vars@.len() + 1
                    && final(self).int_vars@[iv as int].domain == domain && (order_encoding
                    is Eager ==> final(self).int_vars@[iv as int].order_range().start == old(
                    self,
                ).factory.next_var),
                IntViewInner::Linear { .. } => false,
            },
    {
        let ghost pre = *self;
        let mut clauses_out: Vec<Vec<i32>> = Vec::new();
        std::mem::swap(&mut clauses_out, &mut self.clauses);
        let made = IntVar::new_in(
            domain,
            order_encoding,
            direct_encoding,
            &mut self.factory,
            &mut self.trail,
            &mut clauses_out,
        );
        std::mem::swap(&mut clauses_out, &mut self.clauses);
        let ghost mid = *self;
        match made {
            NewIntVar::Const(c) => {
                proof {
                    lemma_state_facts(&pre, self);
                }
                IntView(IntViewInner::Const(c))
            },
            NewIntVar::BoolLike(lit, transformer) => {
                self.trail.grow_to_boolvar(lit);
                proof {
                    lemma_state_facts(&pre, self);
                }
                IntView(IntViewInner::Bool { transformer, lit })
            },
            NewIntVar::Var(iv) => {
                let idx = self.int_vars.len();
                // Register the eager variable range in the literal map and
                // make sure the Boolean store covers it.
                match (&iv.order_encoding, &iv.direct_encoding) {
                    (OrderStorage::Eager { storage, .. }, DirectStorage::Eager(vars)) => {
                        let range = crate::int_var::VarRange {
                            start: storage.start,
                            len: storage.len + vars.len,
                        };
                        let last = range.start + (range.len as i32);
                        self.trail.grow_to_boolvar(last);
                        let ok = self.bool_to_int.insert_eager(range, idx);
                        proof {
                            if pre.bool_to_int.eager@.len() > 0 {
                                let lk = pre.bool_to_int.eager@.len() - 1;
                                assert(pre.bool_to_int.eager@[lk].0.start
                                    + pre.bool_to_int.eager@[lk].0.len <= pre.factory.next_var);
                            }
                            assert(ok);
                        }
                    },
                    (OrderStorage::Eager { storage, .. }, DirectStorage::Lazy(_)) => {
                        let range = crate::int_var::VarRange {
                            start: storage.start,
                            len: storage.len,
                        };
                        let last = range.start + (range.len as i32);
                        self.trail.grow_to_boolvar(last);
                        let ok = self.bool_to_int.insert_eager(range, idx);
                        proof {
                            if pre.bool_to_int.eager@.len() > 0 {
                                let lk = pre.bool_to_int.eager@.len() - 1;
                                assert(pre.bool_to_int.eager@[lk].0.start
                                    + pre.bool_to_int.eager@[lk].0.len <= pre.factory.next_var);
                            }
                            assert(ok);
                        }
                    },
                    (OrderStorage::Lazy(_), _) => (),
                }
                self.int_vars.push(iv);
                self.int_activation.push(ActivationList::new());
                proof {
                    let x = self.int_vars@[idx as int];
                    assert forall|l: int| 0 <= l < pre.trail.prev_len@.len() implies (
                    #[trigger] self.trail.level_values(l)).len() == self.trail.int_value@.len()
                        && (forall|c: int|
                        0 <= c < pre.trail.int_value@.len()
                            ==> #[trigger] self.trail.level_values(l)[c]
                            == pre.trail.level_values(l)[c]) by {
                        assert(self.trail.level_values(l) == mid.trail.level_values(l));
                    }
                    assert forall|l: int| 0 <= l < pre.trail.prev_len@.len() implies #[trigger] self
                        .trail.level_values(l)[x.upper_bound.idx as int] == x.dub() && (
                    match x.order_encoding {
                        OrderStorage::Eager { lower_bound, .. } => self.trail.level_values(
                            l,
                        )[lower_bound.idx as int] == x.dlb(),
                        OrderStorage::Lazy(st) => self.trail.level_values(
                            l,
                        )[st.lb_index.idx as int] == -1 && self.trail.level_values(
                            l,
                        )[st.ub_index.idx as int] == -1,
                    }) by {
                        assert(self.trail.level_values(l) == mid.trail.level_values(l));
                    }
                    lemma_new_var_wf(&pre, self, idx as int);
                }
                IntView(IntViewInner::VarRef(idx))
            },
        }
    }

    /// Access the literal with the given meaning on the integer variable
    /// `iv`, creating it if needed. Newly created literals are registered
    /// in the literal map and their defining clauses are queued for the
    /// oracle.
    #[verifier::rlimit(100)]
    #[verifier::spinoff_prover]
    pub fn get_intref_lit(&mut self, iv: usize, m: LitMeaning) -> (r: BoolView)
        requires
            old(self).wf(),
            iv < old(self).int_vars@.len(),
            old(self).factory.next_var <= i32::MAX - 8,
        ensures
            final(self).wf(),
            final(self).n_props() == old(self).n_props(),
            final(self).int_vars@.len() == old(self).int_vars@.len(),
            final(self).trail.prev_len@ == old(self).trail.prev_len@,
            final(self).trail.int_value@ == old(self).trail.int_value@,
            r.wf(),
            old(self).int_vars@[iv as int].extends(final(self).int_vars@[iv as int]),
            forall|j: int|
                0 <= j < old(self).int_vars@.len() && j != iv
                    ==> #[trigger] final(self).int_vars@[j] == old(self).int_vars@[j],
            old(self).factory.next_var <= final(self).factory.next_var <= old(
                self,
            ).factory.next_var + 4,
            final(self).clauses@.len() >= old(self).clauses@.len(),
            forall|j: int|
                0 <= j < old(self).clauses@.len() ==> #[trigger] final(self).clauses@[j] == old(
                    self,
                ).clauses@[j],
            forall|j: int|
                0 <= j < old(self).bool_to_int.lazy@.len()
                    ==> #[trigger] final(self).bool_to_int.lazy@[j] == old(
                    self,
                ).bool_to_int.lazy@[j],
            ({
                let x0 = old(self).int_vars@[iv as int];
                let x1 = final(self).int_vars@[iv as int];
                let (m2, neg) = crate::int_var::normalize_spec(m, x0.dlb(), x0.dub());
                match m2 {
                    LitMeaning::Less(i) => {
                        &&& (i <= x0.dlb() ==> r == crate::int_var::apply_neg(
                            neg,
                            BoolView(BoolViewInner::Const(false)),
                        ))
                        &&& (i > x0.dub() ==> r == crate::int_var::apply_neg(
                            neg,
                            BoolView(BoolViewInner::Const(true)),
                        ))
                        &&& (x0.dlb() < i <= x0.dub() ==> exists|l: int|
                            #![auto]
                            is_lit(l) && x1.order_lit_is(x1.resolved(i as int), l) && r
                                == crate::int_var::apply_neg(
                                neg,
                                BoolView(BoolViewInner::Lit(l as i32)),
                            ))
                    },
                    LitMeaning::Eq(i) => {
                        &&& (!x0.domain.contains_spec(i as int) ==> r == crate::int_var::apply_neg(
                            neg,
                            BoolView(BoolViewInner::Const(false)),
                        ))
                        &&& (x0.domain.contains_spec(i as int) && x0.dlb() < i < x0.dub()
                            ==> exists|l: int|
                            #![auto]
                            is_lit(l) && x1.direct_lit_is(i as int, l) && r
                                == crate::int_var::apply_neg(
                                neg,
                                BoolView(BoolViewInner::Lit(l as i32)),
                            ))
                    },
                    _ => true,
                }
            }),
    {
        let ghost pre = *self;
        let mut clauses_out: Vec<Vec<i32>> = Vec::new();
        std::mem::swap(&mut clauses_out, &mut self.clauses);
        let mut var = self.int_vars.remove(iv);
        let (bv, regs) = var.bool_lit(m, &mut self.factory, &mut clauses_out);
        self.int_vars.insert(iv, var);
        std::mem::swap(&mut clauses_out, &mut self.clauses);
        // Register the newly created literals.
        let n = regs.len();
        let mut k: usize = 0;
        proof {
            lemma_replace_var_wf(&pre, self, iv as int);
        }
        let ghost reg_start = *self;
        while k < n
            invariant
                self.wf(),
                n == regs@.len(),
                0 <= k <= n,
                iv < self.int_vars@.len(),
                self.int_vars@.len() == pre.int_vars@.len(),
                self.n_props() == pre.n_props(),
                self.trail.prev_len@ == pre.trail.prev_len@,
                self.trail.int_value@ == pre.trail.int_value@,
                self.int_vars@ == reg_start.int_vars@,
                self.factory == reg_start.factory,
                self.clauses@ == reg_start.clauses@,
                forall|j: int|
                    0 <= j < reg_start.bool_to_int.lazy@.len() ==> #[trigger] self.bool_to_int
                        .lazy@[j] == reg_start.bool_to_int.lazy@[j],
                self.bool_to_int.lazy@.len() >= reg_start.bool_to_int.lazy@.len(),
                forall|j: int|
                    0 <= j < regs@.len() ==> (match (#[trigger] regs@[j]).1 {
                        LitMeaning::Less(w) => self.int_vars@[iv as int].order_lit_is(
                            w as int,
                            regs@[j].0 as int,
                        ) && self.int_vars@[iv as int].domain.contains_spec(w as int)
                            && self.int_vars@[iv as int].dlb() < w <= self.int_vars@[iv as int].dub(),
                        LitMeaning::Eq(v) => self.int_vars@[iv as int].direct_lit_is(
                            v as int,
                            regs@[j].0 as int,
                        ) && self.int_vars@[iv as int].domain.contains_spec(v as int)
                            && self.int_vars@[iv as int].dlb() < v < self.int_vars@[iv as int].dub()
                            && lazy_eq_nodes(self.int_vars@[iv as int], v as int),
                        _ => false,
                    }) && is_lit(regs@[j].0 as int),
            decreases n - k,
        {
            let (v, meaning) = regs[k];
            let ghost mid = *self;
            self.trail.grow_to_boolvar(if v >= 0 {
                v
            } else {
                -v
            });
            let ok = self.bool_to_int.insert_lazy(v, iv, meaning);
            proof {
                lemma_register_wf(&mid, self, iv as int, v as int, regs@[k as int].1, ok);
            }
            k = k + 1;
        }
        bv
    }
}

/// The recorded event effect only depends on the variables, the literal
/// map and the trail: states equal in those see the same effect.
#[verifier::spinoff_prover]
proof fn lemma_event_transfer(a: &State, b: &State, c: &State, lit: int)
    requires
        State::event_applied(*b, *c, lit),
        a.int_vars@ == b.int_vars@,
        a.bool_to_int == b.bool_to_int,
        a.trail == b.trail,
    ensures
        State::event_applied(*a, *c, lit),
{
    assert(a.mapped_meaning(lit) == b.mapped_meaning(lit));
    assert(a.int_event_of(lit) == b.int_event_of(lit));
}

/// The recorded event effect reads only the trail of the later state:
/// further changes that leave the trail alone keep it.
#[verifier::spinoff_prover]
proof fn lemma_event_post_trail(b: &State, c: &State, c2: &State, lit: int)
    requires
        State::event_applied(*b, *c, lit),
        c2.trail == c.trail,
    ensures
        State::event_applied(*b, *c2, lit),
{
}

/// The variable of a literal: its absolute value.
pub open spec fn spec_lit_var(lit: int) -> int {
    if lit >= 0 {
        lit
    } else {
        -lit
    }
}

/// The variable index of a decoded meaning, if any.
pub open spec fn spec_mapped_var(m: Option<(usize, LitMeaning)>) -> Option<int> {
    match m {
        Some((iv, _)) => Some(iv as int),
        None => None,
    }
}

/// For a lazy order storage, an `Eq` registration is backed by the order
/// nodes bracketing the value.
pub open spec fn lazy_eq_nodes(x: IntVar, v: int) -> bool {
    match x.order_encoding {
        OrderStorage::Lazy(st) => st.has_val(v) && st.has_val(x.domain.count_next_spec(v)),
        OrderStorage::Eager { .. } => true,
    }
}

/// Replacing one integer variable by an extension of itself (with newly
/// created lazy literals) keeps the engine invariant.
#[verifier::rlimit(100)]
#[verifier::spinoff_prover]
proof fn lemma_replace_var_wf(pre: &State, post: &State, iv: int)
    requires
        pre.wf(),
        0 <= iv < pre.int_vars@.len(),
        post.int_vars@.len() == pre.int_vars@.len(),
        forall|j: int|
            0 <= j < pre.int_vars@.len() && j != iv ==> #[trigger] post.int_vars@[j]
                == pre.int_vars@[j],
        pre.int_vars@[iv].extends(post.int_vars@[iv]),
        post.int_vars@[iv].wf(),
        post.trail == pre.trail,
        post.bool_to_int == pre.bool_to_int,
        post.int_activation@.len() == pre.int_activation@.len(),
        post.factory.wf(),
        pre.factory.next_var <= post.factory.next_var,
        match post.int_vars@[iv].order_encoding {
            OrderStorage::Eager { .. } => true,
            OrderStorage::Lazy(st) => st.size() < post.factory.next_var,
        },
        post.propagator_priority@ == pre.propagator_priority@,
        post.enqueued@ == pre.enqueued@,
        post.bool_activation@ == pre.bool_activation@,
    ensures
        post.wf(),
{
    let x0 = pre.int_vars@[iv];
    let x1 = post.int_vars@[iv];
    assert(x1.domain == x0.domain && x1.upper_bound == x0.upper_bound);
    assert(x1.cursor_cell_lb() == x0.cursor_cell_lb() && x1.cursor_cell_ub()
        == x0.cursor_cell_ub() && x1.bound_cell_lb() == x0.bound_cell_lb());
    assert(x1.trail_wf(post.trail)) by {
        assert(x0.trail_wf(pre.trail));
    }
    assert(x1.lb_of(post.trail) == x0.lb_of(pre.trail)) by {
        match (x0.order_encoding, x1.order_encoding) {
            (OrderStorage::Lazy(st0), OrderStorage::Lazy(st1)) => {
                let c = pre.trail.int_value@[st0.lb_index.idx as int];
                if c >= 0 {
                    assert(st1.storage@[c as int].val == st0.storage@[c as int].val);
                }
            },
            _ => {},
        }
    }
    assert forall|j: int| 0 <= j < post.int_vars@.len() implies (
    #[trigger] post.int_vars@[j]).wf() && post.int_vars@[j].trail_wf(post.trail)
        && post.bounds_ok(j) by {
        assert(pre.int_vars@[j].wf());
        assert(pre.int_vars@[j].trail_wf(pre.trail));
        assert(pre.bounds_ok(j));
    }
    assert forall|i: int, j: int, c: int|
        0 <= i < j < post.int_vars@.len() && #[trigger] post.owns_cell(i, c) implies !#[trigger] post
        .owns_cell(j, c) by {
        assert(post.owns_cell(i, c) == pre.owns_cell(i, c));
        assert(post.owns_cell(j, c) == pre.owns_cell(j, c));
    }
    assert forall|i: int| 0 <= i < post.int_vars@.len() implies match (
    #[trigger] post.int_vars@[i]).order_encoding {
        OrderStorage::Eager { .. } => true,
        OrderStorage::Lazy(st) => st.size() < post.factory.next_var,
    } by {
        if i != iv {
            assert(post.int_vars@[i] == pre.int_vars@[i]);
        }
    }
    assert forall|k: int| 0 <= k < post.bool_to_int.lazy@.len() implies post.reg_coupled(
        (#[trigger] post.bool_to_int.lazy@[k]).1.0 as int,
        post.bool_to_int.lazy@[k].0 as int,
        post.bool_to_int.lazy@[k].1.1,
    ) by {
        assert(pre.reg_coupled(
            pre.bool_to_int.lazy@[k].1.0 as int,
            pre.bool_to_int.lazy@[k].0 as int,
            pre.bool_to_int.lazy@[k].1.1,
        ));
    }
    assert forall|k: int|
        0 <= k < post.bool_to_int.eager@.len() implies (#[trigger] post.bool_to_int.eager@[k]).0.start
        + post.bool_to_int.eager@[k].0.len <= post.factory.next_var by {
        if k < pre.bool_to_int.eager@.len() {
            assert(pre.bool_to_int.eager@[k].0.start + pre.bool_to_int.eager@[k].0.len
                <= pre.factory.next_var);
        }
    }
    assert forall|k: int| 0 <= k < post.bool_to_int.eager@.len() implies post.eager_coupled(
        (#[trigger] post.bool_to_int.eager@[k]).0,
        post.bool_to_int.eager@[k].1 as int,
    ) by {
        assert(pre.eager_coupled(pre.bool_to_int.eager@[k].0, pre.bool_to_int.eager@[k].1 as int));
    }
    assert forall|i: int, l: int|
        0 <= i < post.int_vars@.len() && 0 <= l < post.trail.prev_len@.len() implies post.level_ok(
        i,
        l,
    ) by {
        assert(pre.level_ok(i, l));
        if i == iv {
            match (pre.int_vars@[iv].order_encoding, post.int_vars@[iv].order_encoding) {
                (OrderStorage::Lazy(st0), OrderStorage::Lazy(st1)) => {
                    let c = pre.trail.level_values(l)[st0.lb_index.idx as int];
                    if c >= 0 {
                        assert(st1.storage@[c as int].val == st0.storage@[c as int].val);
                    }
                },
                _ => {},
            }
        }
    }
}

/// Registering a lazily created literal that is backed by its variable's
/// storages keeps the engine invariant.
#[verifier::rlimit(100)]
#[verifier::spinoff_prover]
proof fn lemma_register_wf(pre: &State, post: &State, iv: int, v: int, m: LitMeaning, ok: bool)
    requires
        pre.wf(),
        0 <= iv < pre.int_vars@.len(),
        iv <= usize::MAX,
        is_lit(v),
        post.int_vars@ == pre.int_vars@,
        post.bool_to_int.wf(),
        post.bool_to_int.eager@ == pre.bool_to_int.eager@,
        ok ==> post.bool_to_int.lazy@ =~= pre.bool_to_int.lazy@.push(
            (v as i32, (iv as usize, m)),
        ),
        !ok ==> post.bool_to_int.lazy@ == pre.bool_to_int.lazy@,
        post.trail.wf(),
        post.trail.redo_wf(),
        post.trail.pos == post.trail.trail@.len(),
        post.trail.int_value@ == pre.trail.int_value@,
        post.trail.prev_len@ == pre.trail.prev_len@,
        forall|l: int|
            0 <= l < pre.trail.prev_len@.len() ==> #[trigger] post.trail.level_values(l)
                == pre.trail.level_values(l),
        post.factory == pre.factory,
        post.int_activation@.len() == pre.int_activation@.len(),
        post.propagator_priority@ == pre.propagator_priority@,
        post.enqueued@ == pre.enqueued@,
        post.bool_activation@ == pre.bool_activation@,
        match m {
            LitMeaning::Less(w) => post.int_vars@[iv].order_lit_is(w as int, v)
                && post.int_vars@[iv].domain.contains_spec(w as int) && post.int_vars@[iv].dlb()
                < w <= post.int_vars@[iv].dub(),
            LitMeaning::Eq(c) => post.int_vars@[iv].direct_lit_is(c as int, v)
                && post.int_vars@[iv].domain.contains_spec(c as int) && post.int_vars@[iv].dlb()
                < c < post.int_vars@[iv].dub() && lazy_eq_nodes(post.int_vars@[iv], c as int),
            _ => false,
        },
    ensures
        post.wf(),
{
    assert forall|i: int| 0 <= i < post.int_vars@.len() implies (
    #[trigger] post.int_vars@[i]).wf() && post.int_vars@[i].trail_wf(post.trail)
        && post.bounds_ok(i) by {
        assert(pre.int_vars@[i].wf());
        assert(pre.int_vars@[i].trail_wf(pre.trail));
        assert(pre.bounds_ok(i));
    }
    assert forall|i: int, j: int, c: int|
        0 <= i < j < post.int_vars@.len() && #[trigger] post.owns_cell(i, c) implies !#[trigger] post
        .owns_cell(j, c) by {
        assert(post.owns_cell(i, c) == pre.owns_cell(i, c));
        assert(post.owns_cell(j, c) == pre.owns_cell(j, c));
    }
    assert forall|i: int| 0 <= i < post.int_vars@.len() implies match (
    #[trigger] post.int_vars@[i]).order_encoding {
        OrderStorage::Eager { .. } => true,
        OrderStorage::Lazy(st) => st.size() < post.factory.next_var,
    } by {
        assert(post.int_vars@[i] == pre.int_vars@[i]);
    }
    assert forall|k: int| 0 <= k < post.bool_to_int.lazy@.len() implies post.reg_coupled(
        (#[trigger] post.bool_to_int.lazy@[k]).1.0 as int,
        post.bool_to_int.lazy@[k].0 as int,
        post.bool_to_int.lazy@[k].1.1,
    ) by {
        if k < pre.bool_to_int.lazy@.len() {
            assert(post.bool_to_int.lazy@[k] == pre.bool_to_int.lazy@[k]);
            assert(pre.reg_coupled(
                pre.bool_to_int.lazy@[k].1.0 as int,
                pre.bool_to_int.lazy@[k].0 as int,
                pre.bool_to_int.lazy@[k].1.1,
            ));
        } else {
            assert(post.bool_to_int.lazy@[k] == (v as i32, (iv as usize, m)));
            assert((v as i32) as int == v);
            assert(((iv as usize) as int) == iv);
            assert(post.reg_coupled(iv, v, m));
        }
    }
    assert forall|i: int, l: int|
        0 <= i < post.int_vars@.len() && 0 <= l < post.trail.prev_len@.len() implies post.level_ok(
        i,
        l,
    ) by {
        assert(pre.level_ok(i, l));
    }
    assert forall|k: int|
        0 <= k < post.bool_to_int.eager@.len() implies (#[trigger] post.bool_to_int.eager@[k]).0.start
        + post.bool_to_int.eager@[k].0.len <= post.factory.next_var by {
        if k < pre.bool_to_int.eager@.len() {
            assert(pre.bool_to_int.eager@[k].0.start + pre.bool_to_int.eager@[k].0.len
                <= pre.factory.next_var);
        }
    }
    assert forall|k: int| 0 <= k < post.bool_to_int.eager@.len() implies post.eager_coupled(
        (#[trigger] post.bool_to_int.eager@[k]).0,
        post.bool_to_int.eager@[k].1 as int,
    ) by {
        assert(pre.eager_coupled(pre.bool_to_int.eager@[k].0, pre.bool_to_int.eager@[k].1 as int));
    }
}

/// Appending a freshly created integer variable, whose trail cells are new
/// and whose eager ranges are registered, keeps the engine invariant.
#[verifier::rlimit(100)]
#[verifier::spinoff_prover]
proof fn lemma_new_var_wf(pre: &State, post: &State, idx: int)
    requires
        pre.wf(),
        idx == pre.int_vars@.len(),
        post.int_vars@ =~= pre.int_vars@.push(post.int_vars@[idx]),
        post.int_vars@[idx].wf(),
        post.int_vars@[idx].trail_wf(post.trail),
        post.int_vars@[idx].lb_of(post.trail) == post.int_vars@[idx].dlb(),
        post.int_vars@[idx].ub_of(post.trail) == post.int_vars@[idx].dub(),
        post.int_vars@[idx].upper_bound.idx >= pre.trail.int_value@.len(),
        match post.int_vars@[idx].order_encoding {
            OrderStorage::Eager { lower_bound, .. } => lower_bound.idx
                >= pre.trail.int_value@.len(),
            OrderStorage::Lazy(st) => st.lb_index.idx >= pre.trail.int_value@.len()
                && st.ub_index.idx >= pre.trail.int_value@.len() && st.size()
                < post.factory.next_var,
        },
        post.trail.wf(),
        post.trail.redo_wf(),
        post.trail.pos == post.trail.trail@.len(),
        post.trail.int_value@.len() >= pre.trail.int_value@.len(),
        forall|c: int|
            0 <= c < pre.trail.int_value@.len() ==> #[trigger] post.trail.int_value@[c]
                == pre.trail.int_value@[c],
        post.bool_to_int.wf(),
        post.bool_to_int.lazy@ == pre.bool_to_int.lazy@,
        post.bool_to_int.eager@.len() >= pre.bool_to_int.eager@.len(),
        forall|k: int|
            0 <= k < pre.bool_to_int.eager@.len() ==> #[trigger] post.bool_to_int.eager@[k]
                == pre.bool_to_int.eager@[k],
        forall|k: int|
            pre.bool_to_int.eager@.len() <= k < post.bool_to_int.eager@.len()
                ==> #[trigger] post.bool_to_int.eager@[k].1 == idx && post.eager_coupled(
                post.bool_to_int.eager@[k].0,
                idx,
            ) && post.bool_to_int.eager@[k].0.start + post.bool_to_int.eager@[k].0.len
                <= post.factory.next_var,
        post.trail.prev_len@ == pre.trail.prev_len@,
        forall|l: int|
            0 <= l < pre.trail.prev_len@.len() ==> (#[trigger] post.trail.level_values(l)).len()
                == post.trail.int_value@.len() && (forall|c: int|
                0 <= c < pre.trail.int_value@.len() ==> #[trigger] post.trail.level_values(l)[c]
                    == pre.trail.level_values(l)[c]),
        forall|l: int|
            0 <= l < pre.trail.prev_len@.len() ==> #[trigger] post.trail.level_values(
                l,
            )[post.int_vars@[idx].upper_bound.idx as int] == post.int_vars@[idx].dub() && (
            match post.int_vars@[idx].order_encoding {
                OrderStorage::Eager { lower_bound, .. } => post.trail.level_values(
                    l,
                )[lower_bound.idx as int] == post.int_vars@[idx].dlb(),
                OrderStorage::Lazy(st) => post.trail.level_values(l)[st.lb_index.idx as int] == -1
                    && post.trail.level_values(l)[st.ub_index.idx as int] == -1,
            }),
        post.int_activation@.len() == post.int_vars@.len(),
        post.factory.wf(),
        pre.factory.next_var <= post.factory.next_var,
        post.propagator_priority@ == pre.propagator_priority@,
        post.enqueued@ == pre.enqueued@,
        post.bool_activation@ == pre.bool_activation@,
    ensures
        post.wf(),
{
    let x = post.int_vars@[idx];
    assert forall|j: int| 0 <= j < idx implies (#[trigger] post.int_vars@[j]) == pre.int_vars@[j] by {}
    assert forall|j: int| 0 <= j < post.int_vars@.len() implies (
    #[trigger] post.int_vars@[j]).wf() by {
        if j < idx {
            assert(pre.int_vars@[j].wf());
        }
    }
    assert forall|j: int| 0 <= j < post.int_vars@.len() implies (
    #[trigger] post.int_vars@[j]).trail_wf(post.trail) by {
        if j < idx {
            assert(pre.int_vars@[j].trail_wf(pre.trail));
        }
    }
    assert forall|j: int| 0 <= j < post.int_vars@.len() implies post.bounds_ok(j) by {
        if j < idx {
            assert(pre.int_vars@[j].trail_wf(pre.trail));
            assert(pre.bounds_ok(j));
            assert(post.int_vars@[j].lb_of(post.trail) == pre.int_vars@[j].lb_of(pre.trail));
            assert(post.int_vars@[j].ub_of(post.trail) == pre.int_vars@[j].ub_of(pre.trail));
        } else {
            assert(x.domain.contains_spec(x.dlb())) by {
                assert(x.domain.ranges@[0].0 <= x.dlb() <= x.domain.ranges@[0].1);
            }
            assert(x.domain.contains_spec(x.dub())) by {
                assert(x.domain.ranges@[x.domain.ranges@.len() - 1].0 <= x.dub() <= x.domain.ranges@[
                    x.domain.ranges@.len() - 1].1) by {
                    crate::domain::lemma_starts_sorted(&x.domain, 0, x.domain.ranges@.len() - 1);
                }
            }
        }
    }
    assert forall|i: int, j: int, c: int|
        0 <= i < j < post.int_vars@.len() && #[trigger] post.owns_cell(i, c) implies !#[trigger] post
        .owns_cell(j, c) by {
        if j < idx {
            assert(post.owns_cell(i, c) == pre.owns_cell(i, c));
            assert(post.owns_cell(j, c) == pre.owns_cell(j, c));
        } else {
            assert(pre.int_vars@[i].trail_wf(pre.trail));
            if post.owns_cell(i, c) {
                assert(c < pre.trail.int_value@.len());
            }
        }
    }
    assert forall|i: int| 0 <= i < post.int_vars@.len() implies match (
    #[trigger] post.int_vars@[i]).order_encoding {
        OrderStorage::Eager { .. } => true,
        OrderStorage::Lazy(st) => st.size() < post.factory.next_var,
    } by {
        if i < idx {
            assert(post.int_vars@[i] == pre.int_vars@[i]);
        }
    }
    assert forall|k: int| 0 <= k < post.bool_to_int.lazy@.len() implies post.reg_coupled(
        (#[trigger] post.bool_to_int.lazy@[k]).1.0 as int,
        post.bool_to_int.lazy@[k].0 as int,
        post.bool_to_int.lazy@[k].1.1,
    ) by {
        assert(pre.reg_coupled(
            pre.bool_to_int.lazy@[k].1.0 as int,
            pre.bool_to_int.lazy@[k].0 as int,
            pre.bool_to_int.lazy@[k].1.1,
        ));
    }
    assert forall|k: int|
        0 <= k < post.bool_to_int.eager@.len() implies (#[trigger] post.bool_to_int.eager@[k]).0.start
        + post.bool_to_int.eager@[k].0.len <= post.factory.next_var by {
        if k < pre.bool_to_int.eager@.len() {
            assert(pre.bool_to_int.eager@[k].0.start + pre.bool_to_int.eager@[k].0.len
                <= pre.factory.next_var);
        } else {
            assert(post.bool_to_int.eager@[k].1 == idx);
        }
    }
    assert forall|k: int| 0 <= k < post.bool_to_int.eager@.len() implies post.eager_coupled(
        (#[trigger] post.bool_to_int.eager@[k]).0,
        post.bool_to_int.eager@[k].1 as int,
    ) by {
        if k < pre.bool_to_int.eager@.len() {
            assert(pre.eager_coupled(
                pre.bool_to_int.eager@[k].0,
                pre.bool_to_int.eager@[k].1 as int,
            ));
        }
    }
    assert forall|i: int, l: int|
        0 <= i < post.int_vars@.len() && 0 <= l < post.trail.prev_len@.len() implies post.level_ok(
        i,
        l,
    ) by {
        if i < idx {
            assert(0 <= i < pre.int_vars@.len());
            assert(0 <= l < pre.trail.prev_len@.len());
            assert(pre.level_ok(i, l));
            assert(pre.int_vars@[i].trail_wf(pre.trail));
            assert(post.int_vars@[i] == pre.int_vars@[i]);
            let x0 = pre.int_vars@[i];
            assert(x0.upper_bound.idx < pre.trail.int_value@.len());
            assert(post.trail.level_values(l)[x0.upper_bound.idx as int] == pre.trail.level_values(
                l,
            )[x0.upper_bound.idx as int]);
            match x0.order_encoding {
                OrderStorage::Eager { lower_bound, .. } => {
                    assert(post.trail.level_values(l)[lower_bound.idx as int]
                        == pre.trail.level_values(l)[lower_bound.idx as int]);
                },
                OrderStorage::Lazy(st) => {
                    assert(post.trail.level_values(l)[st.lb_index.idx as int]
                        == pre.trail.level_values(l)[st.lb_index.idx as int]);
                    assert(post.trail.level_values(l)[st.ub_index.idx as int]
                        == pre.trail.level_values(l)[st.ub_index.idx as int]);
                },
            }
        } else {
            assert(x.domain.contains_spec(x.dlb())) by {
                assert(x.domain.ranges@[0].0 <= x.dlb() <= x.domain.ranges@[0].1);
            }
            assert(x.domain.contains_spec(x.dub())) by {
                assert(x.domain.ranges@[x.domain.ranges@.len() - 1].0 <= x.dub() <= x.domain.ranges@[
                    x.domain.ranges@.len() - 1].1) by {
                    crate::domain::lemma_starts_sorted(&x.domain, 0, x.domain.ranges@.len() - 1);
                }
            }
            let vals = post.trail.level_values(l);
            assert(vals[x.upper_bound.idx as int] == x.dub());
            match x.order_encoding {
                OrderStorage::Eager { lower_bound, .. } => {
                    assert(vals[lower_bound.idx as int] == x.dlb());
                },
                OrderStorage::Lazy(st) => {
                    assert(vals[st.lb_index.idx as int] == -1);
                    assert(vals[st.ub_index.idx as int] == -1);
                    assert(st.size() >= 0);
                },
            }
        }
    }
}

impl State {
    /// The integer variable and meaning that a literal decodes to through
    /// the Boolean-to-integer map, if any: an eagerly created variable is
    /// decoded by offset arithmetic, a lazily created one by its recorded
    /// meaning, negated for a negative literal.
    pub open spec fn mapped_meaning(self, lit: int) -> Option<(usize, LitMeaning)> {
        let var = if lit >= 0 {
            lit
        } else {
            -lit
        };
        if self.bool_to_int.eager_has(var) {
            let (range, iv) = self.bool_to_int.eager_entry(var);
            Some((iv, self.int_vars@[iv as int].lit_meaning_spec(lit)))
        } else if self.bool_to_int.lazy_has(var) {
            let (iv, m) = self.bool_to_int.lazy_entry(var);
            Some(
                (
                    iv,
                    if lit < 0 {
                        crate::meaning::negate_spec(m)
                    } else {
                        m
                    },
                ),
            )
        } else {
            None
        }
    }

    /// The integer event that assigning the literal triggers, if any: the
    /// decoded meaning is compared against the current bounds, conditions
    /// already entailed or contradicting the bounds (stale notifications
    /// from the oracle) trigger nothing, a meaning that meets the opposite
    /// bound fixes the variable.
    pub open spec fn int_event_of(self, lit: int) -> Option<(usize, IntEvent)> {
        match self.mapped_meaning(lit) {
            None => None,
            Some((iv, mm)) => {
                let x = self.int_vars@[iv as int];
                let lb = x.lb_of(self.trail);
                let ub = x.ub_of(self.trail);
                match mm {
                    LitMeaning::Eq(i) => if i == lb || i == ub || i < lb || i > ub {
                        None
                    } else {
                        Some((iv, IntEvent::Fixed))
                    },
                    LitMeaning::NotEq(i) => if i < lb || i > ub {
                        None
                    } else {
                        Some((iv, IntEvent::Domain))
                    },
                    LitMeaning::GreaterEq(w) => if w <= lb || w > ub {
                        None
                    } else {
                        Some(
                            (
                                iv,
                                if w == ub {
                                    IntEvent::Fixed
                                } else {
                                    IntEvent::LowerBound
                                },
                            ),
                        )
                    },
                    LitMeaning::Less(w) => if w <= lb {
                        None
                    } else {
                        let ubn = x.domain.largest_le_spec(w - 1);
                        if ubn >= ub || ubn < lb {
                            None
                        } else {
                            Some(
                                (
                                    iv,
                                    if ubn == lb {
                                        IntEvent::Fixed
                                    } else {
                                        IntEvent::UpperBound
                                    },
                                ),
                            )
                        }
                    },
                }
            },
        }
    }

    /// The bound change recorded for the event of the literal, comparing
    /// the state `pre` in which the literal arrived with the state `post`
    /// after it was processed: no event leaves the trail untouched; an
    /// `Eq` event fixes both bounds to the value; a bound event moves that
    /// bound to the decoded threshold (an upper bound is first tightened to
    /// the largest domain value below it); every other variable keeps its
    /// bounds.
    pub open spec fn event_applied(pre: State, post: State, lit: int) -> bool {
        &&& match pre.int_event_of(lit) {
            None => post.trail.int_value@ == pre.trail.int_value@,
            Some((iv, event)) => {
                let x = pre.int_vars@[iv as int];
                let lb = x.lb_of(pre.trail);
                let ub = x.ub_of(pre.trail);
                match pre.mapped_meaning(lit)->Some_0.1 {
                    LitMeaning::Eq(i) => x.lb_of(post.trail) == i && x.ub_of(post.trail) == i,
                    LitMeaning::NotEq(_) => post.trail.int_value@ == pre.trail.int_value@,
                    LitMeaning::GreaterEq(w) => x.lb_of(post.trail) == w && x.ub_of(post.trail)
                        == ub,
                    LitMeaning::Less(w) => x.ub_of(post.trail) == x.domain.largest_le_spec(w - 1)
                        && x.lb_of(post.trail) == lb,
                }
            },
        }
        &&& forall|j: int|
            0 <= j < pre.int_vars@.len() && Some(j) != spec_mapped_var(pre.mapped_meaning(lit))
                ==> (#[trigger] pre.int_vars@[j]).lb_of(post.trail) == pre.int_vars@[j].lb_of(
                pre.trail,
            ) && pre.int_vars@[j].ub_of(post.trail) == pre.int_vars@[j].ub_of(pre.trail)
    }

    /// The facts that a decoded meaning carries about its payload: the
    /// value lies in the domain (strictly inside for equality meanings) and
    /// a lazy order storage holds the nodes the meaning relies on.
    pub open spec fn meaning_facts(self, iv: int, mm: LitMeaning) -> bool {
        let x = self.int_vars@[iv];
        match mm {
            LitMeaning::Less(w) => x.domain.contains_spec(w as int) && x.dlb() < w <= x.dub()
                && (match x.order_encoding {
                OrderStorage::Lazy(st) => st.has_val(w as int),
                OrderStorage::Eager { .. } => true,
            }),
            LitMeaning::GreaterEq(w) => x.domain.contains_spec(w as int) && x.dlb() < w <= x.dub()
                && (match x.order_encoding {
                OrderStorage::Lazy(st) => st.has_val(w as int),
                OrderStorage::Eager { .. } => true,
            }),
            LitMeaning::Eq(c) => x.domain.contains_spec(c as int) && x.dlb() < c < x.dub()
                && lazy_eq_nodes(x, c as int),
            LitMeaning::NotEq(c) => x.domain.contains_spec(c as int) && x.dlb() < c < x.dub()
                && lazy_eq_nodes(x, c as int),
        }
    }

    /// Decode a literal through the Boolean-to-integer map.
    #[verifier::rlimit(100)]
    #[verifier::spinoff_prover]
    fn decode_lit(&self, lit: i32) -> (r: Option<(usize, LitMeaning)>)
        requires
            self.wf(),
            is_lit(lit as int),
        ensures
            r == self.mapped_meaning(lit as int),
            match r {
                Some((iv, mm)) => iv < self.int_vars@.len() && self.meaning_facts(iv as int, mm),
                None => true,
            },
    {
        let var: i32 = if lit >= 0 {
            lit
        } else {
            -lit
        };
        let looked = self.bool_to_int.get(var);
        match looked {
            None => None,
            Some((iv, Some(m))) => {
                proof {
                    let k0 = choose|k0: int|
                        0 <= k0 < self.bool_to_int.lazy@.len() && (
                        #[trigger] self.bool_to_int.lazy@[k0]).0 == var as int;
                    assert(self.reg_coupled(
                        self.bool_to_int.lazy@[k0].1.0 as int,
                        self.bool_to_int.lazy@[k0].0 as int,
                        self.bool_to_int.lazy@[k0].1.1,
                    ));
                    assert(self.bool_to_int.lazy_entry(var as int)
                        == self.bool_to_int.lazy@[k0].1) by {
                        let k1 = choose|k1: int|
                            0 <= k1 < self.bool_to_int.lazy@.len() && (
                            #[trigger] self.bool_to_int.lazy@[k1]).0 == var as int;
                        if k1 != k0 {
                            if k1 < k0 {
                                assert(self.bool_to_int.lazy@[k1].0
                                    != self.bool_to_int.lazy@[k0].0);
                            } else {
                                assert(self.bool_to_int.lazy@[k0].0
                                    != self.bool_to_int.lazy@[k1].0);
                            }
                        }
                    }
                }
                let m2 = if lit < 0 {
                    m.negate()
                } else {
                    m
                };
                Some((iv, m2))
            },
            Some((iv, None)) => {
                proof {
                    let k = choose|k: int|
                        0 <= k < self.bool_to_int.eager@.len() && (
                        #[trigger] self.bool_to_int.eager@[k]).0.contains_var(var as int);
                    assert(self.eager_coupled(
                        self.bool_to_int.eager@[k].0,
                        self.bool_to_int.eager@[k].1 as int,
                    ));
                    assert(self.bool_to_int.eager_entry(var as int)
                        == self.bool_to_int.eager@[k]);
                }
                let m = self.int_vars[iv].lit_meaning(lit);
                Some((iv, m))
            },
        }
    }

    /// Determine whether assigning a literal triggers an event on an
    /// integer variable, and record the implied bound change.
    ///
    /// Returns `None` if the literal does not describe an integer
    /// condition, if the condition is already entailed by the current
    /// bounds, or if it contradicts them (a stale notification from the
    /// oracle; the contradiction surfaces through propagation instead).
    #[verifier::rlimit(100)]
    #[verifier::spinoff_prover]
    pub fn determine_int_event(&mut self, lit: i32) -> (r: Option<(usize, IntEvent)>)
        requires
            old(self).wf(),
            is_lit(lit as int),
        ensures
            final(self).wf(),
            final(self).n_props() == old(self).n_props(),
            final(self).int_vars@.len() == old(self).int_vars@.len(),
            final(self).int_vars@ == old(self).int_vars@,
            final(self).trail.prev_len@ == old(self).trail.prev_len@,
            final(self).propagator_queue == old(self).propagator_queue,
            final(self).enqueued@ == old(self).enqueued@,
            r is Some ==> r->Some_0.0 < old(self).int_vars@.len(),
            old(self).mapped_meaning(lit as int) is None ==> r is None && *final(self) == *old(
                self,
            ),
            old(self).int_event_of(lit as int) is None ==> *final(self) == *old(self),
            r == old(self).int_event_of(lit as int),
            State::event_applied(*old(self), *final(self), lit as int),
            final(self).trail.sat_store@ == old(self).trail.sat_store@,
            final(self).bool_to_int == old(self).bool_to_int,
            final(self).int_activation@ == old(self).int_activation@,
            final(self).bool_activation@ == old(self).bool_activation@,
    {
        let ghost pre = *self;
        let decoded = self.decode_lit(lit);
        let (iv, meaning): (usize, LitMeaning) = match decoded {
            None => {
                return None;
            },
            Some(d) => d,
        };
        let (lb, ub) = self.int_vars[iv].get_bounds(&self.trail);
        let event: IntEvent = match meaning {
            LitMeaning::Eq(i) => {
                if i == lb || i == ub || i < lb || i > ub {
                    return None;
                }
                let ghost mid0 = *self;
                let _ = IntVar::notify_lower_bound(&self.int_vars[iv], &mut self.trail, i);
                proof {
                    assert(mid0.bounds_ok(iv as int));
                    lemma_notify_frame(&mid0, self, iv as int);
                }
                let ghost mid1 = *self;
                let _ = IntVar::notify_upper_bound(&self.int_vars[iv], &mut self.trail, i);
                proof {
                    assert(mid1.bounds_ok(iv as int));
                    lemma_notify_frame(&mid1, self, iv as int);
                }
                IntEvent::Fixed
            },
            LitMeaning::NotEq(i) => {
                if i < lb || i > ub {
                    return None;
                }
                IntEvent::Domain
            },
            LitMeaning::GreaterEq(w) => {
                if w <= lb || w > ub {
                    return None;
                }
                let ghost mid0 = *self;
                let _ = IntVar::notify_lower_bound(&self.int_vars[iv], &mut self.trail, w);
                proof {
                    assert(mid0.bounds_ok(iv as int));
                    let x = mid0.int_vars@[iv as int];
                    assert(x.trail_wf(self.trail));
                    assert(x.lb_of(self.trail) == w as int);
                    assert(x.ub_of(self.trail) == ub as int);
                    assert(x.dlb() <= w);
                    assert(w <= ub);
                    assert(ub <= x.dub());
                    assert(x.domain.contains_spec(w as int));
                    assert(x.domain.contains_spec(ub as int));
                    lemma_notify_frame(&mid0, self, iv as int);
                }
                if w == ub {
                    IntEvent::Fixed
                } else {
                    IntEvent::LowerBound
                }
            },
            LitMeaning::Less(w) => {
                if w <= lb {
                    return None;
                }
                let new_ub = self.int_vars[iv].tighten_upper_bound(w - 1);
                if new_ub >= ub || new_ub < lb {
                    return None;
                }
                proof {
                    let x = self.int_vars@[iv as int];
                    if new_ub < x.dub() {
                        let nw = x.domain.count_next_spec(new_ub as int);
                        assert(x.domain.contains_spec(nw) && nw > new_ub && forall|y: int|
                            x.domain.contains_spec(y) && y > new_ub ==> nw <= y) by {
                            assert(x.domain.contains_spec(w as int) && w > new_ub && forall|
                                y: int,
                            |
                                x.domain.contains_spec(y) && y > new_ub ==> w <= y) by {
                                assert forall|y: int|
                                    x.domain.contains_spec(y) && y > new_ub implies w <= y by {
                                    if y <= w - 1 {
                                        assert(y <= new_ub);
                                    }
                                }
                            }
                        }
                        assert(nw == w);
                    }
                }
                let ghost mid0 = *self;
                let _ = IntVar::notify_upper_bound(&self.int_vars[iv], &mut self.trail, new_ub);
                proof {
                    assert(mid0.bounds_ok(iv as int));
                    lemma_notify_frame(&mid0, self, iv as int);
                }
                if new_ub == lb {
                    IntEvent::Fixed
                } else {
                    IntEvent::UpperBound
                }
            },
        };
        Some((iv, event))
    }
}

impl State {
    /// Enqueue a propagator at its priority, unless it is already queued,
    /// out of range, or the propagator to skip.
    pub fn enqueue_prop(&mut self, p: usize, skip: Option<usize>)
        requires
            old(self).wf(),
        ensures
            final(self).wf(),
            final(self).n_props() == old(self).n_props(),
            final(self).int_vars@ == old(self).int_vars@,
            final(self).trail == old(self).trail,
            final(self).bool_to_int == old(self).bool_to_int,
            final(self).factory == old(self).factory,
            final(self).int_activation@ == old(self).int_activation@,
            final(self).bool_activation@ == old(self).bool_activation@,
            skip == Some(p) || p >= old(self).n_props() || old(self).enqueued@[p as int]
                ==> *final(self) == *old(self),
            skip != Some(p) && p < old(self).n_props() && !old(self).enqueued@[p as int] ==> ({
                let rank = crate::queue::level_rank(old(self).propagator_priority@[p as int]);
                &&& final(self).enqueued@ =~= old(self).enqueued@.update(p as int, true)
                &&& final(self).propagator_queue.level(rank) =~= old(self).propagator_queue.level(
                    rank,
                ).push(p)
                &&& (forall|i: int|
                    0 <= i < 6 && i != rank ==> #[trigger] final(self).propagator_queue.level(i)
                        =~= old(self).propagator_queue.level(i))
                &&& final(self).propagator_priority@ == old(self).propagator_priority@
            }),
            forall|q: int|
                0 <= q < old(self).n_props() && old(self).enqueued@[q]
                    ==> #[trigger] final(self).enqueued@[q],
    {
        let skipped = match skip {
            Some(sp) => sp == p,
            None => false,
        };
        if !skipped && p < self.enqueued.len() && !self.enqueued[p] {
            let prio = self.propagator_priority[p];
            self.propagator_queue.insert(prio, p);
            self.enqueued.set(p, true);
            proof {
                lemma_state_facts(old(self), self);
            }
        }
    }

    /// Enqueue all propagators subscribed to the event on the variable:
    /// afterwards every in-range subscriber whose condition is triggered by
    /// the event (other than the one to skip) is marked enqueued, and no
    /// propagator loses its place in the queue.
    pub fn enqueue_int_propagators(&mut self, iv: usize, event: IntEvent, skip: Option<usize>)
        requires
            old(self).wf(),
            iv < old(self).int_vars@.len(),
        ensures
            final(self).wf(),
            final(self).n_props() == old(self).n_props(),
            final(self).int_vars@ == old(self).int_vars@,
            final(self).trail == old(self).trail,
            final(self).bool_to_int == old(self).bool_to_int,
            final(self).factory == old(self).factory,
            final(self).int_activation@ == old(self).int_activation@,
            final(self).bool_activation@ == old(self).bool_activation@,
            forall|q: int|
                0 <= q < old(self).n_props() && old(self).enqueued@[q]
                    ==> #[trigger] final(self).enqueued@[q],
            forall|k: int|
                0 <= k < old(self).int_activation@[iv as int].subscriptions@.len() && ({
                    let (q, cond) = #[trigger] old(
                        self,
                    ).int_activation@[iv as int].subscriptions@[k];
                    crate::activation::triggers(cond, event) && Some(q) != skip && q < old(
                        self,
                    ).n_props()
                }) ==> final(self).enqueued@[old(
                    self,
                ).int_activation@[iv as int].subscriptions@[k].0 as int],
    {
        let ghost subs = self.int_activation@[iv as int].subscriptions@;
        let woken = self.int_activation[iv].activated_by(event);
        let n = woken.len();
        let mut k: usize = 0;
        while k < n
            invariant
                self.wf(),
                n == woken@.len(),
                0 <= k <= n,
                self.n_props() == old(self).n_props(),
                self.int_vars@ == old(self).int_vars@,
                self.trail == old(self).trail,
                self.bool_to_int == old(self).bool_to_int,
                self.factory == old(self).factory,
                self.int_activation@ == old(self).int_activation@,
                self.bool_activation@ == old(self).bool_activation@,
                woken@ =~= subs.filter(
                    |s: (usize, IntPropCond)| crate::activation::triggers(s.1, event),
                ).map_values(|s: (usize, IntPropCond)| s.0),
                forall|q: int|
                    0 <= q < old(self).n_props() && old(self).enqueued@[q]
                        ==> #[trigger] self.enqueued@[q],
                forall|j: int|
                    0 <= j < k && Some(woken@[j]) != skip && woken@[j] < old(self).n_props()
                        ==> self.enqueued@[#[trigger] woken@[j] as int],
            decreases n - k,
        {
            let p = woken[k];
            self.enqueue_prop(p, skip);
            k = k + 1;
        }
        proof {
            let f = |s: (usize, IntPropCond)| crate::activation::triggers(s.1, event);
            assert forall|j: int|
                0 <= j < subs.len() && ({
                    let (q, cond) = #[trigger] subs[j];
                    crate::activation::triggers(cond, event) && Some(q) != skip && q < old(
                        self,
                    ).n_props()
                }) implies self.enqueued@[subs[j].0 as int] by {
                subs.lemma_filter_contains(f, j);
                let fs = subs.filter(f);
                let jj = choose|jj: int| 0 <= jj < fs.len() && fs[jj] == subs[j];
                assert(woken@[jj] == subs[j].0);
            }
        }
    }

    /// Enqueue the propagators subscribed to assignments of the Boolean
    /// variable `var`: afterwards every in-range subscriber of every
    /// matching activation entry (other than the one to skip) is marked
    /// enqueued.
    #[verifier::rlimit(100)]
    #[verifier::spinoff_prover]
    fn wake_bool_subscribers(&mut self, var: i32, skip: Option<usize>)
        requires
            old(self).wf(),
        ensures
            final(self).wf(),
            final(self).n_props() == old(self).n_props(),
            final(self).int_vars@ == old(self).int_vars@,
            final(self).trail == old(self).trail,
            final(self).bool_to_int == old(self).bool_to_int,
            final(self).factory == old(self).factory,
            final(self).int_activation@ == old(self).int_activation@,
            final(self).bool_activation@ == old(self).bool_activation@,
            forall|q: int|
                0 <= q < old(self).n_props() && old(self).enqueued@[q]
                    ==> #[trigger] final(self).enqueued@[q],
            forall|b: int, j: int|
                0 <= b < old(self).bool_activation@.len() && (#[trigger] old(
                    self,
                ).bool_activation@[b]).0 == var && 0 <= j < old(self).bool_activation@[b].1@.len()
                    && ({
                    let q = #[trigger] old(self).bool_activation@[b].1@[j];
                    Some(q) != skip && q < old(self).n_props()
                }) ==> final(self).enqueued@[old(self).bool_activation@[b].1@[j] as int],
    {
        let nb = self.bool_activation.len();
        let mut bi: usize = 0;
        while bi < nb
            invariant
                self.wf(),
                nb == self.bool_activation@.len(),
                0 <= bi <= nb,
                self.n_props() == old(self).n_props(),
                self.int_vars@ == old(self).int_vars@,
                self.trail == old(self).trail,
                self.bool_to_int == old(self).bool_to_int,
                self.factory == old(self).factory,
                self.int_activation@ == old(self).int_activation@,
                self.bool_activation@ == old(self).bool_activation@,
                forall|q: int|
                    0 <= q < old(self).n_props() && old(self).enqueued@[q]
                        ==> #[trigger] self.enqueued@[q],
                forall|b: int, j: int|
                    0 <= b < bi && (#[trigger] old(self).bool_activation@[b]).0 == var && 0 <= j
                        < old(self).bool_activation@[b].1@.len() && ({
                        let q = #[trigger] old(self).bool_activation@[b].1@[j];
                        Some(q) != skip && q < old(self).n_props()
                    }) ==> self.enqueued@[old(self).bool_activation@[b].1@[j] as int],
            decreases nb - bi,
        {
            if self.bool_activation[bi].0 == var {
                let nl = self.bool_activation[bi].1.len();
                let mut li: usize = 0;
                while li < nl
                    invariant
                        self.wf(),
                        0 <= bi < self.bool_activation@.len(),
                        nl == self.bool_activation@[bi as int].1@.len(),
                        0 <= li <= nl,
                        self.n_props() == old(self).n_props(),
                        self.int_vars@ == old(self).int_vars@,
                        self.trail == old(self).trail,
                        self.bool_to_int == old(self).bool_to_int,
                        self.factory == old(self).factory,
                        self.int_activation@ == old(self).int_activation@,
                        self.bool_activation@ == old(self).bool_activation@,
                        old(self).bool_activation@ == self.bool_activation@,
                        forall|q: int|
                            0 <= q < old(self).n_props() && old(self).enqueued@[q]
                                ==> #[trigger] self.enqueued@[q],
                        forall|b: int, j: int|
                            0 <= b < bi && (#[trigger] old(self).bool_activation@[b]).0 == var && 0
                                <= j < old(self).bool_activation@[b].1@.len() && ({
                                let q = #[trigger] old(self).bool_activation@[b].1@[j];
                                Some(q) != skip && q < old(self).n_props()
                            }) ==> self.enqueued@[old(self).bool_activation@[b].1@[j] as int],
                        forall|j: int|
                            0 <= j < li && ({
                                let q = #[trigger] old(self).bool_activation@[bi as int].1@[j];
                                Some(q) != skip && q < old(self).n_props()
                            }) ==> self.enqueued@[old(
                                self,
                            ).bool_activation@[bi as int].1@[j] as int],
                    decreases nl - li,
                {
                    let q = self.bool_activation[bi].1[li];
                    self.enqueue_prop(q, skip);
                    li = li + 1;
                }
            }
            bi = bi + 1;
        }
    }

    /// Enqueue all propagators activated by the assignment of a literal:
    /// its Boolean subscribers, and the subscribers of the integer event it
    /// implies. The implied bound change is recorded on the trail.
    #[verifier::rlimit(100)]
    #[verifier::spinoff_prover]
    pub fn enqueue_propagators(&mut self, lit: i32, skip: Option<usize>)
        requires
            old(self).wf(),
            is_lit(lit as int),
        ensures
            final(self).wf(),
            final(self).n_props() == old(self).n_props(),
            final(self).int_vars@ == old(self).int_vars@,
            final(self).bool_to_int == old(self).bool_to_int,
            final(self).int_activation@ == old(self).int_activation@,
            final(self).bool_activation@ == old(self).bool_activation@,
            final(self).trail.prev_len@ == old(self).trail.prev_len@,
            final(self).trail.sat_store@ == old(self).trail.sat_store@,
            State::event_applied(*old(self), *final(self), lit as int),
            forall|q: int|
                0 <= q < old(self).n_props() && old(self).enqueued@[q]
                    ==> #[trigger] final(self).enqueued@[q],
            forall|b: int, j: int|
                0 <= b < old(self).bool_activation@.len() && (#[trigger] old(
                    self,
                ).bool_activation@[b]).0 == spec_lit_var(lit as int) && 0 <= j < old(
                    self,
                ).bool_activation@[b].1@.len() && ({
                    let q = #[trigger] old(self).bool_activation@[b].1@[j];
                    Some(q) != skip && q < old(self).n_props()
                }) ==> final(self).enqueued@[old(self).bool_activation@[b].1@[j] as int],
            old(self).int_event_of(lit as int) matches Some((iv, event)) ==> forall|k: int|
                0 <= k < old(self).int_activation@[iv as int].subscriptions@.len() && ({
                    let (q, cond) = #[trigger] old(
                        self,
                    ).int_activation@[iv as int].subscriptions@[k];
                    crate::activation::triggers(cond, event) && Some(q) != skip && q < old(
                        self,
                    ).n_props()
                }) ==> final(self).enqueued@[old(
                    self,
                ).int_activation@[iv as int].subscriptions@[k].0 as int],
    {
        let var: i32 = if lit >= 0 {
            lit
        } else {
            -lit
        };
        self.wake_bool_subscribers(var, skip);
        // Translate the assignment into an integer event and wake the
        // integer subscribers.
        let ghost mid = *self;
        let ev = self.determine_int_event(lit);
        proof {
            lemma_event_transfer(old(self), &mid, self, lit as int);
            assert(mid.int_event_of(lit as int) == old(self).int_event_of(lit as int)) by {
                assert(mid.mapped_meaning(lit as int) == old(self).mapped_meaning(lit as int));
            }
        }
        match ev {
            Some((iv, event)) => {
                let ghost mid2 = *self;
                self.enqueue_int_propagators(iv, event, skip);
                proof {
                    lemma_event_post_trail(old(self), &mid2, self, lit as int);
                }
            },
            None => (),
        }
    }

    /// Record the assignments reported by the oracle: append them to the
    /// trail, and enqueue the propagators they wake (unless a conflict is
    /// already pending). Afterwards every usable literal of the list is
    /// assigned true, unless a later entry assigns the same variable again.
    #[verifier::rlimit(100)]
    #[verifier::spinoff_prover]
    pub fn notify_assignments(&mut self, lits: &Vec<i32>)
        requires
            old(self).wf(),
        ensures
            final(self).wf(),
            final(self).n_props() == old(self).n_props(),
            final(self).int_vars@ == old(self).int_vars@,
            final(self).bool_to_int == old(self).bool_to_int,
            final(self).int_activation@ == old(self).int_activation@,
            final(self).bool_activation@ == old(self).bool_activation@,
            final(self).trail.prev_len@ == old(self).trail.prev_len@,
            forall|k: int|
                0 <= k < lits@.len() && is_lit(#[trigger] lits@[k] as int) && (forall|j: int|
                    k < j < lits@.len() ==> spec_lit_var(#[trigger] lits@[j] as int)
                        != spec_lit_var(lits@[k] as int)) ==> final(self).trail.sat_value_spec(
                    lits@[k] as int,
                ) == Some(true),
    {
        let n = lits.len();
        let mut k: usize = 0;
        while k < n
            invariant
                self.wf(),
                n == lits@.len(),
                0 <= k <= n,
                self.n_props() == old(self).n_props(),
                self.int_vars@ == old(self).int_vars@,
                self.bool_to_int == old(self).bool_to_int,
                self.int_activation@ == old(self).int_activation@,
                self.bool_activation@ == old(self).bool_activation@,
                self.trail.prev_len@ == old(self).trail.prev_len@,
                forall|j: int|
                    0 <= j < k && is_lit(#[trigger] lits@[j] as int) && (forall|j2: int|
                        j < j2 < k ==> spec_lit_var(#[trigger] lits@[j2] as int) != spec_lit_var(
                            lits@[j] as int,
                        )) ==> self.trail.sat_value_spec(lits@[j] as int) == Some(true),
            decreases n - k,
        {
            let lit = lits[k];
            if lit != 0 && lit != i32::MIN {
                let var: i32 = if lit >= 0 {
                    lit
                } else {
                    -lit
                };
                let ghost pre = *self;
                self.trail.grow_to_boolvar(var);
                proof {
                    lemma_state_facts(&pre, self);
                }
                let ghost pre2 = *self;
                let already = self.trail.assign_lit(lit);
                proof {
                    lemma_state_facts(&pre2, self);
                }
                if already.is_none() && !self.failed {
                    self.enqueue_propagators(lit, None);
                }
            }
            k = k + 1;
        }
    }

    /// Record a new decision level to which the engine can later backtrack:
    /// the current trail length is pushed onto the level stack (and the
    /// peak-depth statistic updated).
    pub fn notify_new_decision_level(&mut self)
        requires
            old(self).wf(),
        ensures
            final(self).wf(),
            final(self).n_props() == old(self).n_props(),
            final(self).int_vars@ == old(self).int_vars@,
            final(self).trail.int_value@ == old(self).trail.int_value@,
            final(self).trail.trail@ == old(self).trail.trail@,
            final(self).trail.sat_store@ == old(self).trail.sat_store@,
            old(self).trail.prev_len@.len() < u32::MAX ==> final(self).trail.prev_len@
                =~= old(self).trail.prev_len@.push(old(self).trail.trail@.len() as usize)
                && final(self).trail.level_values(old(self).trail.prev_len@.len() as int)
                == old(self).trail.int_value@,
    {
        if self.trail.prev_len.len() >= (u32::MAX as usize) {
            return ;
        }
        let ghost pre = *self;
        self.trail.notify_new_decision_level();
        proof {
            lemma_state_facts_levels(&pre, self);
            assert forall|i: int, l: int|
                0 <= i < self.int_vars@.len() && 0 <= l < self.trail.prev_len@.len() implies self
                .level_ok(i, l) by {
                if l < pre.trail.prev_len@.len() {
                    assert(pre.level_ok(i, l));
                } else {
                    assert(self.trail.level_values(l) == pre.trail.int_value@);
                    assert(pre.bounds_ok(i));
                    assert(pre.int_vars@[i].trail_wf(pre.trail));
                }
            }
        }
        let ghost pre2 = *self;
        let depth = self.trail.decision_level();
        if depth > self.statistics.peak_depth {
            self.statistics.peak_depth = depth;
            proof {
                lemma_state_facts(&pre2, self);
            }
        }
    }

    /// Backtrack to an earlier decision level: drop the pending
    /// propagations and any unreported conflict, restore every trailed
    /// value to the state it held when the level began, and empty the
    /// propagator queue.
    #[verifier::rlimit(100)]
    #[verifier::spinoff_prover]
    pub fn notify_backtrack(&mut self, level: usize, restart: bool)
        requires
            old(self).wf(),
        ensures
            final(self).wf(),
            final(self).n_props() == old(self).n_props(),
            final(self).int_vars@.len() == old(self).int_vars@.len(),
            final(self).propagation_queue@.len() == 0,
            !final(self).failed,
            final(self).conflict is None,
            final(self).propagator_queue.total_len() == 0,
            final(self).int_vars@ == old(self).int_vars@,
            final(self).bool_to_int == old(self).bool_to_int,
            level < old(self).trail.prev_len@.len() ==> final(self).trail.int_value@ == old(
                self,
            ).trail.level_values(level as int) && final(self).trail.prev_len@ =~= old(
                self,
            ).trail.prev_len@.take(level as int),
            old(self).statistics.conflicts < u64::MAX ==> final(self).statistics.conflicts == old(
                self,
            ).statistics.conflicts + 1,
            restart && old(self).statistics.restarts < u32::MAX
                ==> final(self).statistics.restarts == old(self).statistics.restarts + 1,
            !restart ==> final(self).statistics.restarts == old(self).statistics.restarts,
            restart && level == 0 ==> final(self).reason_map@.len() == 0,
            level < old(self).trail.prev_len@.len() ==> (forall|v: i32|
                0 <= v < old(self).trail.sat_store@.len() ==> ((crate::trail::no_sat_between(
                    old(self).trail.trail@,
                    v,
                    old(self).trail.prev_len@[level as int] as int,
                    old(self).trail.trail@.len() as int,
                ) ==> #[trigger] final(self).trail.sat_store@[v as int] == old(
                    self,
                ).trail.sat_store@[v as int]) && (!crate::trail::no_sat_between(
                    old(self).trail.trail@,
                    v,
                    old(self).trail.prev_len@[level as int] as int,
                    old(self).trail.trail@.len() as int,
                ) ==> final(self).trail.sat_store@[v as int].value is None))),
    {
        let ghost pre0 = *self;
        self.failed = false;
        self.conflict = None;
        self.propagation_queue = Vec::new();
        proof {
            lemma_state_facts(&pre0, self);
        }
        let ghost pre = *self;
        self.trail.notify_backtrack(level);
        proof {
            if level >= pre.trail.prev_len@.len() {
                lemma_state_facts(&pre, self);
            } else {
                lemma_backtrack_wf(&pre, self, level as int);
            }
        }
        // Empty the propagator queue and clear the enqueued flags.
        let ghost drained = *self;
        loop
            invariant
                self.wf(),
                self.n_props() == old(self).n_props(),
                self.int_vars@ == pre.int_vars@,
                self.bool_to_int == drained.bool_to_int,
                self.trail == drained.trail,
                self.statistics == drained.statistics,
                self.reason_map@ == drained.reason_map@,
                self.propagation_queue@.len() == 0,
                !self.failed,
                self.conflict is None,
                level < pre.trail.prev_len@.len() ==> self.trail.int_value@ == pre.trail
                    .level_values(level as int),
            ensures
                self.propagator_queue.total_len() == 0,
            decreases self.propagator_queue.total_len(),
        {
            let ghost qpre = *self;
            let popped = self.propagator_queue.pop();
            proof {
                lemma_state_facts(&qpre, self);
            }
            match popped {
                Some(p) => {
                    if p < self.enqueued.len() {
                        self.enqueued.set(p, true);
                        self.enqueued.set(p, false);
                    }
                    proof {
                        lemma_state_facts(&qpre, self);
                    }
                },
                None => {
                    proof {
                        assert(qpre.propagator_queue.total_len() == 0);
                    }
                    break ;
                },
            }
        }
        // Update the statistics and the heuristic configuration.
        let ghost done = *self;
        if self.statistics.conflicts < u64::MAX {
            self.statistics.conflicts = self.statistics.conflicts + 1;
        }
        match self.config.vsids_after {
            Some(limit) => {
                if !self.config.vsids_only && !self.config.toggle_vsids && self.statistics.conflicts
                    > (limit as u64) {
                    self.vsids = true;
                }
            },
            None => (),
        }
        if restart {
            if self.statistics.restarts < u32::MAX {
                self.statistics.restarts = self.statistics.restarts + 1;
            }
            if self.config.toggle_vsids && !self.config.vsids_only {
                self.vsids = !self.vsids;
            }
            if level == 0 {
                self.reason_map = Vec::new();
            }
        }
        proof {
            lemma_state_facts(&done, self);
        }
    }
}

impl State {
    /// Register a propagator slot with the given priority and
    /// subscriptions, returning its reference. The propagator object
    /// itself is kept by the caller, indexed by the returned reference.
    pub fn add_propagator(
        &mut self,
        priority: PriorityLevel,
        int_subs: &Vec<(usize, IntPropCond)>,
        bool_subs: &Vec<i32>,
        enqueue_now: bool,
    ) -> (r: usize)
        requires
            old(self).wf(),
            old(self).n_props() < usize::MAX,
        ensures
            final(self).wf(),
            r == old(self).n_props(),
            final(self).n_props() == old(self).n_props() + 1,
            final(self).int_vars@ == old(self).int_vars@,
            final(self).trail == old(self).trail,
            final(self).propagator_priority@ =~= old(self).propagator_priority@.push(priority),
            final(self).enqueued@[r as int] == enqueue_now,
            forall|k: int|
                0 <= k < int_subs@.len() && (#[trigger] int_subs@[k]).0 < old(
                    self,
                ).int_vars@.len() ==> final(self).int_activation@[int_subs@[k].0 as int].subscriptions@
                    .contains((r, int_subs@[k].1)),
            enqueue_now ==> final(self).propagator_queue.level(
                crate::queue::level_rank(priority),
            ).last() == r,
    {
        let p = self.propagator_priority.len();
        self.propagator_priority.push(priority);
        self.enqueued.push(false);
        proof {
            lemma_state_facts(old(self), self);
        }
        // Subscribe to the integer events.
        let n = int_subs.len();
        let mut k: usize = 0;
        while k < n
            invariant
                self.wf(),
                n == int_subs@.len(),
                0 <= k <= n,
                p == old(self).n_props(),
                self.n_props() == old(self).n_props() + 1,
                self.int_vars@ == old(self).int_vars@,
                self.trail == old(self).trail,
                self.propagator_queue == old(self).propagator_queue,
                self.propagator_priority@ =~= old(self).propagator_priority@.push(priority),
                self.enqueued@.len() == old(self).enqueued@.len() + 1,
                self.enqueued@[p as int] == false,
                forall|j: int|
                    0 <= j < k && (#[trigger] int_subs@[j]).0 < old(self).int_vars@.len()
                        ==> self.int_activation@[int_subs@[j].0 as int].subscriptions@.contains(
                        (p, int_subs@[j].1),
                    ),
            decreases n - k,
        {
            let (iv, cond) = int_subs[k];
            if iv < self.int_activation.len() {
                let ghost pre = *self;
                let mut list = self.int_activation.remove(iv);
                list.add(p, cond);
                self.int_activation.insert(iv, list);
                proof {
                    lemma_state_facts(&pre, self);
                    assert(self.int_activation@[iv as int].subscriptions@.contains(
                        (p, cond),
                    )) by {
                        let sq = self.int_activation@[iv as int].subscriptions@;
                        assert(sq[sq.len() - 1] == (p, cond));
                    }
                    assert forall|j: int|
                        0 <= j < k + 1 && (#[trigger] int_subs@[j]).0 < old(
                            self,
                        ).int_vars@.len() implies self.int_activation@[int_subs@[j].0 as int]
                        .subscriptions@.contains((p, int_subs@[j].1)) by {
                        if j < k {
                            let jv = int_subs@[j].0 as int;
                            if jv != iv {
                                assert(self.int_activation@[jv] == pre.int_activation@[jv]);
                            } else {
                                let sq0 = pre.int_activation@[jv].subscriptions@;
                                let jj = choose|jj: int|
                                    0 <= jj < sq0.len() && sq0[jj] == (p, int_subs@[j].1);
                                assert(self.int_activation@[jv].subscriptions@[jj] == (
                                p,
                                int_subs@[j].1,
                                ));
                            }
                        }
                    }
                }
            }
            k = k + 1;
        }
        // Subscribe to the Boolean variables.
        let nb = bool_subs.len();
        let mut bk: usize = 0;
        while bk < nb
            invariant
                self.wf(),
                nb == bool_subs@.len(),
                0 <= bk <= nb,
                p == old(self).n_props(),
                self.n_props() == old(self).n_props() + 1,
                self.int_vars@ == old(self).int_vars@,
                self.trail == old(self).trail,
                self.propagator_queue == old(self).propagator_queue,
                self.propagator_priority@ =~= old(self).propagator_priority@.push(priority),
                self.int_activation@.len() == old(self).int_activation@.len(),
                forall|j: int|
                    0 <= j < int_subs@.len() && (#[trigger] int_subs@[j]).0 < old(
                        self,
                    ).int_vars@.len() ==> self.int_activation@[int_subs@[j].0 as int].subscriptions@
                        .contains((p, int_subs@[j].1)),
                self.enqueued@.len() == old(self).enqueued@.len() + 1,
                self.enqueued@[p as int] == false,
            decreases nb - bk,
        {
            let lit = bool_subs[bk];
            let var: i32 = if lit >= 0 {
                lit
            } else if lit == i32::MIN {
                0
            } else {
                -lit
            };
            if var != 0 && self.bool_activation.len() < usize::MAX {
                let ghost pre = *self;
                self.bool_activation.push((var, vec![p]));
                proof {
                    lemma_state_facts(&pre, self);
                }
            }
            bk = bk + 1;
        }
        if enqueue_now {
            let ghost pre = *self;
            self.propagator_queue.insert(priority, p);
            self.enqueued.set(p, true);
            proof {
                lemma_state_facts(&pre, self);
                assert forall|j: int|
                    0 <= j < int_subs@.len() && (#[trigger] int_subs@[j]).0 < old(
                        self,
                    ).int_vars@.len() implies self.int_activation@[int_subs@[j].0 as int]
                    .subscriptions@.contains((p, int_subs@[j].1)) by {
                    assert(pre.int_activation@[int_subs@[j].0 as int].subscriptions@.contains(
                        (p, int_subs@[j].1),
                    ));
                }
            }
        }
        p
    }
}

/// Restoring the trail to a recorded decision level restores every
/// variable's bounds to the valid state captured for that level, keeping
/// the engine invariant.
#[verifier::rlimit(100)]
#[verifier::spinoff_prover]
proof fn lemma_backtrack_wf(pre: &State, post: &State, level: int)
    requires
        pre.wf(),
        0 <= level < pre.trail.prev_len@.len(),
        post.int_vars@ == pre.int_vars@,
        post.bool_to_int == pre.bool_to_int,
        post.factory == pre.factory,
        post.int_activation@.len() == pre.int_activation@.len(),
        post.propagator_priority@ == pre.propagator_priority@,
        post.enqueued@ == pre.enqueued@,
        post.bool_activation@ == pre.bool_activation@,
        post.trail.wf(),
        post.trail.redo_wf(),
        post.trail.pos == post.trail.trail@.len(),
        post.trail.int_value@ == pre.trail.level_values(level),
        post.trail.int_value@.len() == pre.trail.int_value@.len(),
        post.trail.sat_store@.len() == pre.trail.sat_store@.len(),
        post.trail.prev_len@ =~= pre.trail.prev_len@.take(level),
        forall|l: int|
            0 <= l < level ==> #[trigger] post.trail.level_values(l) == pre.trail.level_values(l),
    ensures
        post.wf(),
{
    assert forall|i: int| 0 <= i < post.int_vars@.len() implies (
    #[trigger] post.int_vars@[i]).trail_wf(post.trail) && post.bounds_ok(i) by {
        assert(pre.int_vars@[i].trail_wf(pre.trail));
        assert(pre.level_ok(i, level));
    }
    assert forall|i: int, j: int, c: int|
        0 <= i < j < post.int_vars@.len() && #[trigger] post.owns_cell(i, c) implies !#[trigger] post
        .owns_cell(j, c) by {
        assert(post.owns_cell(i, c) == pre.owns_cell(i, c));
        assert(post.owns_cell(j, c) == pre.owns_cell(j, c));
    }
    assert forall|k: int| 0 <= k < post.bool_to_int.lazy@.len() implies post.reg_coupled(
        (#[trigger] post.bool_to_int.lazy@[k]).1.0 as int,
        post.bool_to_int.lazy@[k].0 as int,
        post.bool_to_int.lazy@[k].1.1,
    ) by {
        assert(pre.reg_coupled(
            pre.bool_to_int.lazy@[k].1.0 as int,
            pre.bool_to_int.lazy@[k].0 as int,
            pre.bool_to_int.lazy@[k].1.1,
        ));
    }
    assert forall|k: int|
        0 <= k < post.bool_to_int.eager@.len() implies (#[trigger] post.bool_to_int.eager@[k]).0.start
        + post.bool_to_int.eager@[k].0.len <= post.factory.next_var by {
        if k < pre.bool_to_int.eager@.len() {
            assert(pre.bool_to_int.eager@[k].0.start + pre.bool_to_int.eager@[k].0.len
                <= pre.factory.next_var);
        }
    }
    assert forall|k: int| 0 <= k < post.bool_to_int.eager@.len() implies post.eager_coupled(
        (#[trigger] post.bool_to_int.eager@[k]).0,
        post.bool_to_int.eager@[k].1 as int,
    ) by {
        assert(pre.eager_coupled(pre.bool_to_int.eager@[k].0, pre.bool_to_int.eager@[k].1 as int));
    }
    assert forall|i: int, l: int|
        0 <= i < post.int_vars@.len() && 0 <= l < post.trail.prev_len@.len() implies post.level_ok(
        i,
        l,
    ) by {
        assert(pre.level_ok(i, l));
    }
    assert forall|i: int| 0 <= i < post.int_vars@.len() implies match (
    #[trigger] post.int_vars@[i]).order_encoding {
        OrderStorage::Eager { .. } => true,
        OrderStorage::Lazy(st) => st.size() < post.factory.next_var,
    } by {
        assert(post.int_vars@[i] == pre.int_vars@[i]);
    }
}

/// A bound notification on one integer variable, which writes only that
/// variable's trail cells, preserves the engine invariant.
#[verifier::rlimit(100)]
#[verifier::spinoff_prover]
proof fn lemma_notify_frame(pre: &State, post: &State, iv: int)
    requires
        0 <= iv < pre.int_vars@.len(),
        pre.wf(),
        post.int_vars@ == pre.int_vars@,
        post.bool_to_int == pre.bool_to_int,
        post.factory == pre.factory,
        post.int_activation@.len() == pre.int_activation@.len(),
        post.propagator_priority@ == pre.propagator_priority@,
        post.enqueued@ == pre.enqueued@,
        post.bool_activation@ == pre.bool_activation@,
        post.trail.wf(),
        post.trail.redo_wf(),
        post.trail.pos == post.trail.trail@.len(),
        post.trail.int_value@.len() == pre.trail.int_value@.len(),
        post.trail.sat_store@.len() == pre.trail.sat_store@.len(),
        post.trail.prev_len@ == pre.trail.prev_len@,
        forall|l: int|
            0 <= l < pre.trail.prev_len@.len() ==> #[trigger] post.trail.level_values(l)
                == pre.trail.level_values(l),
        forall|c: int|
            0 <= c < pre.trail.int_value@.len() && !pre.owns_cell(iv, c)
                ==> #[trigger] post.trail.int_value@[c] == pre.trail.int_value@[c],
        pre.int_vars@[iv].trail_wf(post.trail),
        pre.int_vars@[iv].dlb() <= pre.int_vars@[iv].lb_of(post.trail) <= pre.int_vars@[iv].ub_of(
            post.trail,
        ) <= pre.int_vars@[iv].dub(),
        pre.int_vars@[iv].domain.contains_spec(pre.int_vars@[iv].lb_of(post.trail)),
        pre.int_vars@[iv].domain.contains_spec(pre.int_vars@[iv].ub_of(post.trail)),
    ensures
        post.wf(),
        forall|j: int|
            0 <= j < pre.int_vars@.len() && j != iv ==> (#[trigger] pre.int_vars@[j]).lb_of(
                post.trail,
            ) == pre.int_vars@[j].lb_of(pre.trail) && pre.int_vars@[j].ub_of(post.trail)
                == pre.int_vars@[j].ub_of(pre.trail),
{
    assert forall|i: int| 0 <= i < post.int_vars@.len() implies (
    #[trigger] post.int_vars@[i]).trail_wf(post.trail) && post.bounds_ok(i) && (i != iv
        ==> pre.int_vars@[i].lb_of(post.trail) == pre.int_vars@[i].lb_of(pre.trail)
        && pre.int_vars@[i].ub_of(post.trail) == pre.int_vars@[i].ub_of(pre.trail)) by {
        assert(pre.int_vars@[i].trail_wf(pre.trail));
        assert(pre.bounds_ok(i));
        if i != iv {
            let x = pre.int_vars@[i];
            assert(!pre.owns_cell(iv, x.upper_bound.idx as int)) by {
                if pre.owns_cell(iv, x.upper_bound.idx as int) {
                    assert(pre.owns_cell(i, x.upper_bound.idx as int));
                }
            }
            assert(post.trail.int_value@[x.upper_bound.idx as int]
                == pre.trail.int_value@[x.upper_bound.idx as int]);
            match x.order_encoding {
                OrderStorage::Eager { lower_bound, .. } => {
                    assert(!pre.owns_cell(iv, lower_bound.idx as int)) by {
                        if pre.owns_cell(iv, lower_bound.idx as int) {
                            assert(pre.owns_cell(i, lower_bound.idx as int));
                        }
                    }
                },
                OrderStorage::Lazy(st) => {
                    assert(!pre.owns_cell(iv, st.lb_index.idx as int)) by {
                        if pre.owns_cell(iv, st.lb_index.idx as int) {
                            assert(pre.owns_cell(i, st.lb_index.idx as int));
                        }
                    }
                    assert(!pre.owns_cell(iv, st.ub_index.idx as int)) by {
                        if pre.owns_cell(iv, st.ub_index.idx as int) {
                            assert(pre.owns_cell(i, st.ub_index.idx as int));
                        }
                    }
                },
            }
        }
    }
    assert forall|i: int, j: int, c: int|
        0 <= i < j < post.int_vars@.len() && #[trigger] post.owns_cell(i, c) implies !#[trigger] post
        .owns_cell(j, c) by {
        assert(post.owns_cell(i, c) == pre.owns_cell(i, c));
        assert(post.owns_cell(j, c) == pre.owns_cell(j, c));
    }
    assert forall|k: int| 0 <= k < post.bool_to_int.lazy@.len() implies post.reg_coupled(
        (#[trigger] post.bool_to_int.lazy@[k]).1.0 as int,
        post.bool_to_int.lazy@[k].0 as int,
        post.bool_to_int.lazy@[k].1.1,
    ) by {
        assert(pre.reg_coupled(
            pre.bool_to_int.lazy@[k].1.0 as int,
            pre.bool_to_int.lazy@[k].0 as int,
            pre.bool_to_int.lazy@[k].1.1,
        ));
    }
    assert forall|k: int|
        0 <= k < post.bool_to_int.eager@.len() implies (#[trigger] post.bool_to_int.eager@[k]).0.start
        + post.bool_to_int.eager@[k].0.len <= post.factory.next_var by {
        if k < pre.bool_to_int.eager@.len() {
            assert(pre.bool_to_int.eager@[k].0.start + pre.bool_to_int.eager@[k].0.len
                <= pre.factory.next_var);
        }
    }
    assert forall|k: int| 0 <= k < post.bool_to_int.eager@.len() implies post.eager_coupled(
        (#[trigger] post.bool_to_int.eager@[k]).0,
        post.bool_to_int.eager@[k].1 as int,
    ) by {
        assert(pre.eager_coupled(pre.bool_to_int.eager@[k].0, pre.bool_to_int.eager@[k].1 as int));
    }
    assert forall|i: int, l: int|
        0 <= i < post.int_vars@.len() && 0 <= l < post.trail.prev_len@.len() implies post.level_ok(
        i,
        l,
    ) by {
        assert(pre.level_ok(i, l));
    }
    assert forall|i: int| 0 <= i < post.int_vars@.len() implies match (
    #[trigger] post.int_vars@[i]).order_encoding {
        OrderStorage::Eager { .. } => true,
        OrderStorage::Lazy(st) => st.size() < post.factory.next_var,
    } by {
        assert(post.int_vars@[i] == pre.int_vars@[i]);
    }
}

/// Like [`lemma_state_facts`], but for operations that may add decision
/// levels whose recorded state is the current one.
proof fn lemma_state_facts_levels(pre: &State, post: &State)
    requires
        pre.wf(),
        post.int_vars@ == pre.int_vars@,
        post.bool_to_int.eager@ == pre.bool_to_int.eager@,
        post.bool_to_int.lazy@ == pre.bool_to_int.lazy@,
        post.int_activation@.len() == pre.int_activation@.len(),
        post.trail.wf(),
        post.trail.redo_wf(),
        post.trail.pos == post.trail.trail@.len(),
        post.trail.int_value@ == pre.trail.int_value@,
        forall|l: int|
            0 <= l < post.trail.prev_len@.len() ==> #[trigger] post.trail.level_values(l)
                == pre.trail.int_value@ || (l < pre.trail.prev_len@.len()
                && post.trail.level_values(l) == pre.trail.level_values(l)),
        post.factory.wf(),
        pre.factory.next_var <= post.factory.next_var,
        post.enqueued@.len() == post.propagator_priority@.len(),
        post.bool_activation@.len() <= usize::MAX,
    ensures
        post.wf(),
{
    assert forall|i: int| 0 <= i < post.int_vars@.len() implies (
    #[trigger] post.int_vars@[i]).trail_wf(post.trail) && post.bounds_ok(i) by {
        assert(pre.int_vars@[i].trail_wf(pre.trail));
        assert(pre.bounds_ok(i));
    }
    assert forall|i: int, j: int, c: int|
        0 <= i < j < post.int_vars@.len() && #[trigger] post.owns_cell(i, c) implies !#[trigger] post
        .owns_cell(j, c) by {
        assert(post.owns_cell(i, c) == pre.owns_cell(i, c));
        assert(post.owns_cell(j, c) == pre.owns_cell(j, c));
    }
    assert forall|k: int| 0 <= k < post.bool_to_int.lazy@.len() implies post.reg_coupled(
        (#[trigger] post.bool_to_int.lazy@[k]).1.0 as int,
        post.bool_to_int.lazy@[k].0 as int,
        post.bool_to_int.lazy@[k].1.1,
    ) by {
        assert(pre.reg_coupled(
            pre.bool_to_int.lazy@[k].1.0 as int,
            pre.bool_to_int.lazy@[k].0 as int,
            pre.bool_to_int.lazy@[k].1.1,
        ));
    }
    assert forall|k: int|
        0 <= k < post.bool_to_int.eager@.len() implies (#[trigger] post.bool_to_int.eager@[k]).0.start
        + post.bool_to_int.eager@[k].0.len <= post.factory.next_var by {
        if k < pre.bool_to_int.eager@.len() {
            assert(pre.bool_to_int.eager@[k].0.start + pre.bool_to_int.eager@[k].0.len
                <= pre.factory.next_var);
        }
    }
    assert forall|k: int| 0 <= k < post.bool_to_int.eager@.len() implies post.eager_coupled(
        (#[trigger] post.bool_to_int.eager@[k]).0,
        post.bool_to_int.eager@[k].1 as int,
    ) by {
        assert(pre.eager_coupled(pre.bool_to_int.eager@[k].0, pre.bool_to_int.eager@[k].1 as int));
    }
    assert forall|i: int, l: int|
        0 <= i < post.int_vars@.len() && 0 <= l < post.trail.prev_len@.len() implies post.level_ok(
        i,
        l,
    ) by {
        if l < pre.trail.prev_len@.len() && post.trail.level_values(l) == pre.trail.level_values(
            l,
        ) {
            assert(pre.level_ok(i, l));
        } else {
            assert(post.trail.level_values(l) == pre.trail.int_value@);
            assert(pre.bounds_ok(i));
            assert(pre.int_vars@[i].trail_wf(pre.trail));
        }
    }
}

/// Mutations that touch only the bookkeeping outside the trail, the
/// variables, the factory, and the literal map keep the state invariant.
proof fn lemma_state_facts(pre: &State, post: &State)
    requires
        pre.wf(),
        post.int_vars@ == pre.int_vars@,
        post.bool_to_int.eager@ == pre.bool_to_int.eager@,
        post.bool_to_int.lazy@ == pre.bool_to_int.lazy@,
        post.int_activation@.len() == pre.int_activation@.len(),
        post.trail.wf(),
        post.trail.redo_wf(),
        post.trail.pos == post.trail.trail@.len(),
        post.trail.int_value@ == pre.trail.int_value@,
        post.trail.prev_len@ == pre.trail.prev_len@,
        forall|l: int|
            0 <= l < pre.trail.prev_len@.len() ==> #[trigger] post.trail.level_values(l)
                == pre.trail.level_values(l),
        post.factory.wf(),
        pre.factory.next_var <= post.factory.next_var,
        post.enqueued@.len() == post.propagator_priority@.len(),
        post.bool_activation@.len() <= usize::MAX,
    ensures
        post.wf(),
{
    assert forall|i: int, l: int|
        0 <= i < post.int_vars@.len() && 0 <= l < post.trail.prev_len@.len() implies post.level_ok(
        i,
        l,
    ) by {
        assert(pre.level_ok(i, l));
    }
    assert forall|i: int| 0 <= i < post.int_vars@.len() implies (
    #[trigger] post.int_vars@[i]).trail_wf(post.trail) by {
        assert(pre.int_vars@[i].trail_wf(pre.trail));
    }
    assert forall|i: int| 0 <= i < post.int_vars@.len() implies post.bounds_ok(i) by {
        assert(pre.bounds_ok(i));
    }
    assert forall|i: int, j: int, c: int|
        0 <= i < j < post.int_vars@.len() && #[trigger] post.owns_cell(i, c) implies !#[trigger] post
        .owns_cell(j, c) by {
        assert(post.owns_cell(i, c) == pre.owns_cell(i, c));
        assert(post.owns_cell(j, c) == pre.owns_cell(j, c));
    }
    assert forall|k: int| 0 <= k < post.bool_to_int.lazy@.len() implies post.reg_coupled(
        (#[trigger] post.bool_to_int.lazy@[k]).1.0 as int,
        post.bool_to_int.lazy@[k].0 as int,
        post.bool_to_int.lazy@[k].1.1,
    ) by {
        assert(pre.reg_coupled(
            pre.bool_to_int.lazy@[k].1.0 as int,
            pre.bool_to_int.lazy@[k].0 as int,
            pre.bool_to_int.lazy@[k].1.1,
        ));
    }
    assert forall|k: int|
        0 <= k < post.bool_to_int.eager@.len() implies (#[trigger] post.bool_to_int.eager@[k]).0.start
        + post.bool_to_int.eager@[k].0.len <= post.factory.next_var by {
        if k < pre.bool_to_int.eager@.len() {
            assert(pre.bool_to_int.eager@[k].0.start + pre.bool_to_int.eager@[k].0.len
                <= pre.factory.next_var);
        }
    }
    assert forall|k: int| 0 <= k < post.bool_to_int.eager@.len() implies post.eager_coupled(
        (#[trigger] post.bool_to_int.eager@[k]).0,
        post.bool_to_int.eager@[k].1 as int,
    ) by {
        assert(pre.eager_coupled(pre.bool_to_int.eager@[k].0, pre.bool_to_int.eager@[k].1 as int));
    }
}

} // verus!
