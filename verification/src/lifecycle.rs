//! Subsystem lifecycle manager: sequences init/start/stop of driver
//! subsystems respecting dependency order.
//!
//! A subsystem is registered with the ids of the subsystems it depends on; a
//! registration that would close a dependency cycle is rejected on the spot,
//! with no side effect, so the registered graph is acyclic at all times.
//! `start_all` performs a topological walk and only ever moves a subsystem
//! out of `Unstarted` once every dependency is `Running`; `stop_all` walks
//! the same order strictly in reverse.

use vstd::prelude::*;
use crate::errors::EngineError;

verus! {

/// Where a subsystem stands in its lifecycle.
#[derive(Clone, Copy, PartialEq, Eq, Structural, Debug)]
pub enum SubsystemState {
    /// Registered, not yet touched by a startup walk.
    Unstarted,
    /// Dependencies are `Running`; the subsystem's own init is under way.
    Initializing,
    /// Init finished; the subsystem serves requests.
    Running,
    /// A teardown walk reached the subsystem.
    Stopping,
    /// Teardown finished.
    Stopped,
    /// Init or operation reported a failure.
    Failed,
}

/// One managed driver subsystem.
pub struct Subsystem {
    /// Human-readable name, for reporting only; ids are the identity.
    pub name: String,
    /// Current lifecycle state.
    pub state: SubsystemState,
    /// Ids of the subsystems this one depends on.
    pub deps: Vec<usize>,
}

/// The `k`-th dependency edge of `v`, if it points at a registered
/// subsystem, strictly descends in `rank`.
pub open spec fn edge_descends(g: Seq<Seq<usize>>, rank: Seq<nat>, v: int, k: int) -> bool {
    g[v][k] < g.len() ==> rank[g[v][k] as int] < rank[v]
}

/// Every in-range dependency edge in `g` strictly descends in `rank`.
pub open spec fn rank_ok(g: Seq<Seq<usize>>, rank: Seq<nat>) -> bool {
    &&& rank.len() == g.len()
    &&& forall|v: int, k: int|
        0 <= v < g.len() && 0 <= k < g[v].len() ==> #[trigger] edge_descends(g, rank, v, k)
}

/// The dependency graph has no cycle among registered subsystems: some rank
/// assignment strictly descends along every in-range edge.
pub open spec fn acyclic(g: Seq<Seq<usize>>) -> bool {
    exists|rank: Seq<nat>| rank_ok(g, rank)
}

/// The `k`-th dependency of `order[i]`, if in range, appears earlier in
/// `order`.
pub open spec fn dep_listed(g: Seq<Seq<usize>>, order: Seq<usize>, i: int, k: int) -> bool {
    g[order[i] as int][k] < g.len()
        ==> exists|j: int| 0 <= j < i && order[j] == g[order[i] as int][k]
}

/// Every in-range dependency of `order[i]` appears earlier in `order`.
pub open spec fn deps_before(g: Seq<Seq<usize>>, order: Seq<usize>, i: int) -> bool {
    forall|k: int|
        0 <= k < g[order[i] as int].len() ==> #[trigger] dep_listed(g, order, i, k)
}

/// `order` lists every subsystem exactly once, dependencies always before
/// dependents: the order a startup walk may use.
pub open spec fn is_start_order(order: Seq<usize>, g: Seq<Seq<usize>>) -> bool {
    &&& order.len() == g.len()
    &&& order.no_duplicates()
    &&& forall|i: int| 0 <= i < order.len() ==> #[trigger] order[i] < g.len()
    &&& forall|i: int| 0 <= i < order.len() ==> #[trigger] deps_before(g, order, i)
    &&& forall|v: usize| v < g.len() ==> order.contains(v)
}

/// The `k`-th dependency of `v`, if in range, is picked.
pub open spec fn dep_picked(g: Seq<Seq<usize>>, picked: Seq<bool>, v: int, k: int) -> bool {
    g[v][k] < g.len() ==> picked[g[v][k] as int]
}

/// Subsystem `v` has all in-range dependencies picked; a Kahn walk may take
/// it next.
pub open spec fn ready_picked(g: Seq<Seq<usize>>, picked: Seq<bool>, v: int) -> bool {
    forall|k: int| 0 <= k < g[v].len() ==> #[trigger] dep_picked(g, picked, v, k)
}

/// The walk can make no progress: every unpicked subsystem waits on an
/// unpicked in-range dependency.
pub open spec fn walk_stuck(g: Seq<Seq<usize>>, picked: Seq<bool>) -> bool {
    forall|u: int| #![auto]
        0 <= u < g.len() && !picked[u]
        ==> exists|k: int| 0 <= k < g[u].len() && !(#[trigger] dep_picked(g, picked, u, k))
}

/// Number of `true` entries.
pub open spec fn count_true(s: Seq<bool>) -> int
    decreases s.len(),
{
    if s.len() == 0 {
        0
    } else {
        count_true(s.drop_last()) + if s.last() {
            1int
        } else {
            0int
        }
    }
}

proof fn lemma_count_true_bounds(s: Seq<bool>)
    ensures
        0 <= count_true(s) <= s.len(),
    decreases s.len(),
{
    if s.len() > 0 {
        lemma_count_true_bounds(s.drop_last());
    }
}

proof fn lemma_count_true_update(s: Seq<bool>, i: int)
    requires
        0 <= i < s.len(),
        !s[i],
    ensures
        count_true(s.update(i, true)) == count_true(s) + 1,
    decreases s.len(),
{
    if i == s.len() - 1 {
        assert(s.update(i, true).drop_last() =~= s.drop_last());
    } else {
        assert(s.update(i, true).drop_last() =~= s.drop_last().update(i, true));
        lemma_count_true_update(s.drop_last(), i);
    }
}

proof fn lemma_count_true_full(s: Seq<bool>)
    requires
        count_true(s) == s.len(),
    ensures
        forall|i: int| 0 <= i < s.len() ==> s[i],
    decreases s.len(),
{
    if s.len() > 0 {
        lemma_count_true_bounds(s.drop_last());
        lemma_count_true_full(s.drop_last());
        assert forall|i: int| 0 <= i < s.len() implies s[i] by {
            if i < s.len() - 1 {
                assert(s.drop_last()[i]);
            }
        }
    }
}

proof fn lemma_count_true_partial(s: Seq<bool>) -> (w: int)
    requires
        count_true(s) < s.len(),
    ensures
        0 <= w < s.len(),
        !s[w],
    decreases s.len(),
{
    if !s.last() {
        s.len() - 1
    } else {
        lemma_count_true_bounds(s.drop_last());
        let w = lemma_count_true_partial(s.drop_last());
        w
    }
}

/// A stuck walk refutes every rank assignment: following unpicked in-range
/// dependencies descends in rank forever, which a well-founded rank cannot.
proof fn lemma_stuck_refutes_rank(g: Seq<Seq<usize>>, rank: Seq<nat>, picked: Seq<bool>, v: int)
    requires
        rank.len() == g.len(),
        picked.len() == g.len(),
        walk_stuck(g, picked),
        0 <= v < g.len(),
        !picked[v],
    ensures
        !rank_ok(g, rank),
    decreases rank[v],
{
    if rank_ok(g, rank) {
        let k = choose|k: int| 0 <= k < g[v].len() && !(#[trigger] dep_picked(g, picked, v, k));
        let d = g[v][k] as int;
        assert(edge_descends(g, rank, v, k));
        assert(rank[d] < rank[v]);
        lemma_stuck_refutes_rank(g, rank, picked, d);
    }
}

/// The states a startup walk has after starting the first `i` subsystems of
/// `order`: those are `Running`, the rest keep their prior state.
pub open spec fn walk_states(
    states0: Seq<SubsystemState>,
    order: Seq<usize>,
    i: int,
) -> Seq<SubsystemState> {
    Seq::new(states0.len(), |v: int| if order.subrange(0, i).contains(v as usize) {
        SubsystemState::Running
    } else {
        states0[v]
    })
}

/// Sequences init, start and stop of the registered subsystems.
pub struct LifecycleManager {
    subsystems: Vec<Subsystem>,
}

impl LifecycleManager {
    /// Number of registered subsystems; ids are `0..` this count.
    pub closed spec fn count_spec(self) -> int {
        self.subsystems@.len() as int
    }

    /// The dependency graph: for each id, the ids it depends on.
    pub closed spec fn deps_model(self) -> Seq<Seq<usize>> {
        Seq::new(self.subsystems@.len(), |v: int| self.subsystems@[v].deps@)
    }

    /// The lifecycle state of each subsystem, by id.
    pub closed spec fn states_model(self) -> Seq<SubsystemState> {
        Seq::new(self.subsystems@.len(), |v: int| self.subsystems@[v].state)
    }

    /// The name of each subsystem, by id.
    pub closed spec fn names_model(self) -> Seq<Seq<char>> {
        Seq::new(self.subsystems@.len(), |v: int| self.subsystems@[v].name@)
    }

    /// The registered graph is always acyclic: a cycle is rejected at
    /// registration time.
    pub open spec fn wf(self) -> bool {
        acyclic(self.deps_model())
    }

    /// The `k`-th dependency of `v` is a registered id and reports
    /// `Running`.
    pub open spec fn dep_running(self, v: int, k: int) -> bool {
        &&& self.deps_model()[v][k] < self.count_spec()
        &&& self.states_model()[self.deps_model()[v][k] as int] is Running
    }

    /// Every dependency of `v` reports `Running`.
    pub open spec fn spec_deps_running(self, v: int) -> bool {
        forall|k: int|
            0 <= k < self.deps_model()[v].len() ==> #[trigger] self.dep_running(v, k)
    }

    /// The `k`-th dependency of `v` is a registered id.
    pub open spec fn dep_known(self, v: int, k: int) -> bool {
        self.deps_model()[v][k] < self.count_spec()
    }

    /// No subsystem depends on an id that was never registered.
    pub open spec fn spec_deps_known(self) -> bool {
        forall|v: int, k: int|
            0 <= v < self.count_spec() && 0 <= k < self.deps_model()[v].len()
            ==> #[trigger] self.dep_known(v, k)
    }

    /// A manager with no subsystems.
    pub fn new() -> (r: Self)
        ensures
            r.wf(),
            r.count_spec() == 0,
    {
        let r = LifecycleManager { subsystems: Vec::new() };
        proof {
            let rank = Seq::<nat>::empty();
            assert(rank_ok(r.deps_model(), rank));
        }
        r
    }

    /// Number of registered subsystems.
    pub fn subsystem_count(&self) -> (r: usize)
        ensures
            r == self.count_spec(),
    {
        self.subsystems.len()
    }

    /// The state of subsystem `v`, or `None` for an unknown id.
    pub fn state_of(&self, v: usize) -> (r: Option<SubsystemState>)
        ensures
            r is Some <==> v < self.count_spec(),
            r matches Some(st) ==> st == self.states_model()[v as int],
    {
        if v < self.subsystems.len() {
            Some(self.subsystems[v].state)
        } else {
            None
        }
    }

    /// The name of subsystem `v`, or `None` for an unknown id.
    pub fn name_of(&self, v: usize) -> (r: Option<&String>)
        ensures
            r is Some <==> v < self.count_spec(),
            r matches Some(n) ==> n@ == self.names_model()[v as int],
    {
        if v < self.subsystems.len() {
            Some(&self.subsystems[v].name)
        } else {
            None
        }
    }

    /// Replaces the state of a known subsystem, leaving everything else as
    /// it was.
    fn set_state(&mut self, v: usize, st: SubsystemState)
        requires
            v < old(self).count_spec(),
        ensures
            final(self).count_spec() == old(self).count_spec(),
            final(self).deps_model() == old(self).deps_model(),
            final(self).names_model() == old(self).names_model(),
            final(self).states_model() == old(self).states_model().update(v as int, st),
    {
        let mut sub = self.subsystems.remove(v);
        sub.state = st;
        self.subsystems.insert(v, sub);
        proof {
            assert(self.subsystems@ =~= old(self).subsystems@.update(v as int,
                Subsystem { state: st, ..old(self).subsystems@[v as int] }));
            assert(final(self).deps_model() =~= old(self).deps_model());
            assert(final(self).names_model() =~= old(self).names_model());
            assert(final(self).states_model() =~= old(self).states_model().update(v as int, st));
        }
    }

    /// Whether every in-range dependency of `v` is picked; out-of-range ids
    /// cannot lie on a cycle among registered subsystems and are skipped.
    fn deps_all_picked(&self, v: usize, picked: &Vec<bool>) -> (r: bool)
        requires
            v < self.count_spec(),
            picked@.len() == self.count_spec(),
        ensures
            r == ready_picked(self.deps_model(), picked@, v as int),
    {
        let n = self.subsystems.len();
        let sub = &self.subsystems[v];
        proof {
            assert(self.deps_model()[v as int] == sub.deps@);
        }
        let mut k: usize = 0;
        while k < sub.deps.len()
            invariant
                k <= sub.deps@.len(),
                self.deps_model()[v as int] == sub.deps@,
                self.deps_model().len() == n,
                picked@.len() == n,
                forall|k2: int| 0 <= k2 < k ==> #[trigger] dep_picked(self.deps_model(), picked@, v as int, k2),
            decreases sub.deps@.len() - k,
        {
            let d = sub.deps[k];
            if d < n && !picked[d] {
                proof {
                    assert(self.deps_model()[v as int][k as int] == d);
                    assert(!dep_picked(self.deps_model(), picked@, v as int, k as int));
                    assert(!ready_picked(self.deps_model(), picked@, v as int));
                    assert(!ready_picked(self.deps_model(), picked@, v as int));
                }
                return false;
            }
            proof {
                assert(self.deps_model()[v as int][k as int] == d);
                assert(dep_picked(self.deps_model(), picked@, v as int, k as int));
            }
            k = k + 1;
        }
        true
    }

    /// Finds a subsystem the walk can pick next, or reports the walk stuck.
    fn find_ready(&self, picked: &Vec<bool>) -> (r: Option<usize>)
        requires
            picked@.len() == self.count_spec(),
        ensures
            r matches Some(v) ==> v < self.count_spec() && !picked@[v as int]
                && ready_picked(self.deps_model(), picked@, v as int),
            r is None ==> walk_stuck(self.deps_model(), picked@),
    {
        let n = self.subsystems.len();
        let mut v: usize = 0;
        while v < n
            invariant
                v <= n,
                self.deps_model().len() == n,
                picked@.len() == n,
                forall|u: int| #![auto]
                    0 <= u < v && !picked@[u] ==> !ready_picked(self.deps_model(), picked@, u),
            decreases n - v,
        {
            if !picked[v] && self.deps_all_picked(v, picked) {
                return Some(v);
            }
            v = v + 1;
        }
        proof {
            assert forall|u: int| #![auto] 0 <= u < self.deps_model().len() && !picked@[u]
                implies exists|k: int|
                    0 <= k < self.deps_model()[u].len() && !(#[trigger] dep_picked(self.deps_model(), picked@, u, k)) by {
                assert(!ready_picked(self.deps_model(), picked@, u));
                let k = choose|k: int|
                    0 <= k < self.deps_model()[u].len() && !(#[trigger] dep_picked(self.deps_model(), picked@, u, k));
                assert(0 <= k < self.deps_model()[u].len() && !dep_picked(self.deps_model(), picked@, u, k));
            }
        }
        None
    }

    /// Kahn's walk over the registered graph: returns a start order exactly
    /// when the graph is acyclic.
    fn try_order(&self) -> (r: Option<Vec<usize>>)
        ensures
            r is Some <==> acyclic(self.deps_model()),
            r matches Some(o) ==> is_start_order(o@, self.deps_model()),
    {
        let n = self.subsystems.len();
        let mut picked: Vec<bool> = Vec::new();
        let mut i: usize = 0;
        while i < n
            invariant
                i <= n,
                picked@.len() == i,
                forall|u: int| 0 <= u < i ==> !(#[trigger] picked@[u]),
            decreases n - i,
        {
            picked.push(false);
            i = i + 1;
        }
        proof {
            assert(count_true(picked@) == 0) by {
                lemma_count_all_false(picked@);
            }
        }
        let mut order: Vec<usize> = Vec::new();
        let ghost mut rank: Seq<nat> = Seq::new(n as nat, |v: int| 0nat);
        let mut done = false;
        while !done
            invariant
                self.deps_model().len() == n,
                picked@.len() == n,
                order@.len() <= n,
                order@.no_duplicates(),
                forall|j: int| 0 <= j < order@.len() ==> #[trigger] order@[j] < n,
                count_true(picked@) == order@.len(),
                forall|v: usize| v < n ==> ((#[trigger] picked@[v as int]) <==> order@.contains(v)),
                forall|j: int| 0 <= j < order@.len() ==> #[trigger] deps_before(self.deps_model(), order@, j),
                rank.len() == n,
                forall|j: int| 0 <= j < order@.len() ==> rank[#[trigger] order@[j] as int] == j,
                done ==> order@.len() == n || walk_stuck(self.deps_model(), picked@),
            decreases n - order@.len() + if done { 0int } else { 1int },
        {
            match self.find_ready(&picked) {
                Some(v) => {
                    proof {
                        lemma_count_true_update(picked@, v as int);
                        assert(!order@.contains(v));
                        lemma_count_true_bounds(picked@);
                        if count_true(picked@) == picked@.len() {
                            lemma_count_true_full(picked@);
                            assert(picked@[v as int]);
                        }
                        assert(order@.len() < n);
                    }
                    let ghost old_picked = picked@;
                    let ghost old_order = order@;
                    picked[v] = true;
                    order.push(v);
                    proof {
                        rank = rank.update(v as int, old_order.len() as nat);
                        let m = old_order.len() as int;
                        assert(order@ == old_order.push(v));
                        assert forall|v2: usize| v2 < n
                            implies ((#[trigger] picked@[v2 as int]) <==> order@.contains(v2)) by {
                            if v2 == v {
                                assert(order@[m] == v);
                                assert(order@.contains(v));
                            } else {
                                assert(picked@[v2 as int] == old_picked[v2 as int]);
                                if order@.contains(v2) {
                                    let j = choose|j: int|
                                        0 <= j < order@.len() && order@[j] == v2;
                                    assert(old_order[j] == v2);
                                } else if old_order.contains(v2) {
                                    let j = choose|j: int|
                                        0 <= j < old_order.len() && old_order[j] == v2;
                                    assert(order@[j] == v2);
                                }
                            }
                        }
                        assert forall|j: int| 0 <= j < order@.len()
                            implies #[trigger] deps_before(self.deps_model(), order@, j) by {
                            if j < m {
                                assert(deps_before(self.deps_model(), old_order, j));
                                assert(order@[j] == old_order[j]);
                                assert forall|k: int| 0 <= k < self.deps_model()[order@[j] as int].len()
                                    implies #[trigger] dep_listed(self.deps_model(), order@, j, k) by {
                                    assert(dep_listed(self.deps_model(), old_order, j, k));
                                    if self.deps_model()[order@[j] as int][k] < self.deps_model().len() {
                                        let j2 = choose|j2: int|
                                            0 <= j2 < j
                                            && old_order[j2] == self.deps_model()[old_order[j] as int][k];
                                        assert(order@[j2] == self.deps_model()[order@[j] as int][k]);
                                    }
                                }
                            } else {
                                assert(order@[j] == v);
                                assert(ready_picked(self.deps_model(), old_picked, v as int));
                                assert forall|k: int| 0 <= k < self.deps_model()[order@[j] as int].len()
                                    implies #[trigger] dep_listed(self.deps_model(), order@, j, k) by {
                                    assert(dep_picked(self.deps_model(), old_picked, v as int, k));
                                    if self.deps_model()[order@[j] as int][k] < self.deps_model().len() {
                                        let d: usize = self.deps_model()[v as int][k];
                                        assert(old_picked[d as int]);
                                        assert(old_order.contains(d));
                                        let j2 = choose|j2: int|
                                            0 <= j2 < old_order.len() && old_order[j2] == d;
                                        assert(order@[j2] == self.deps_model()[order@[j] as int][k]);
                                    }
                                }
                            }
                        }
                        assert forall|j: int| 0 <= j < order@.len()
                            implies rank[#[trigger] order@[j] as int] == j by {
                            if j < m {
                                assert(order@[j] == old_order[j]);
                                assert(order@[j] != v);
                            }
                        }
                    }
                },
                None => {
                    done = true;
                },
            }
        }
        if order.len() == n {
            proof {
                lemma_count_true_full(picked@);
                assert forall|v: int, k: int|
                    0 <= v < self.deps_model().len() && 0 <= k < self.deps_model()[v].len()
                    implies #[trigger] edge_descends(self.deps_model(), rank, v, k) by {
                    assert(picked@[v]);
                    assert(order@.contains(v as usize));
                    let i1 = choose|i1: int| 0 <= i1 < order@.len() && order@[i1] == v as usize;
                    assert(rank[order@[i1] as int] == i1);
                    assert(rank[v] == i1);
                    assert(deps_before(self.deps_model(), order@, i1));
                    assert(self.deps_model()[order@[i1] as int] == self.deps_model()[v]);
                    assert(dep_listed(self.deps_model(), order@, i1, k));
                    if self.deps_model()[v][k] < self.deps_model().len() {
                        let d: usize = self.deps_model()[order@[i1] as int][k];
                        let j = choose|j: int| 0 <= j < i1 && order@[j] == d;
                        assert(rank[order@[j] as int] == j);
                        assert(rank[d as int] == j);
                    }
                }
                assert(rank_ok(self.deps_model(), rank));
                assert forall|v: usize| v < self.deps_model().len() implies order@.contains(v) by {
                    assert(picked@[v as int]);
                }
                assert(is_start_order(order@, self.deps_model()));
            }
            Some(order)
        } else {
            proof {
                lemma_count_true_bounds(picked@);
                let w = lemma_count_true_partial(picked@);
                assert forall|rk: Seq<nat>| !(#[trigger] rank_ok(self.deps_model(), rk)) by {
                    if rk.len() == self.deps_model().len() {
                        lemma_stuck_refutes_rank(self.deps_model(), rk, picked@, w);
                    }
                }
                assert(!acyclic(self.deps_model()));
            }
            None
        }
    }

    /// Registers a subsystem under a fresh id, with the ids it depends on; a
    /// dependency id may point at a subsystem registered later.
    ///
    /// Fails with `DependencyCycle` exactly when the new edges would close a
    /// dependency cycle; detection happens here, before anything starts, and
    /// a rejected registration leaves the manager exactly as it was, so
    /// repeating it is harmless and fails the same way.
    pub fn register_subsystem(&mut self, name: String, deps: Vec<usize>) -> (r: Result<
        usize,
        EngineError,
    >)
        requires
            old(self).wf(),
        ensures
            final(self).wf(),
            r is Ok <==> acyclic(old(self).deps_model().push(deps@)),
            r matches Ok(id) ==> {
                &&& id == old(self).count_spec()
                &&& final(self).count_spec() == old(self).count_spec() + 1
                &&& final(self).deps_model() == old(self).deps_model().push(deps@)
                &&& final(self).states_model() == old(self).states_model().push(
                    SubsystemState::Unstarted)
                &&& final(self).names_model() == old(self).names_model().push(name@)
            },
            r is Err ==> {
                &&& r == Err::<usize, EngineError>(EngineError::DependencyCycle)
                &&& final(self).count_spec() == old(self).count_spec()
                &&& final(self).deps_model() == old(self).deps_model()
                &&& final(self).states_model() == old(self).states_model()
                &&& final(self).names_model() == old(self).names_model()
            },
    {
        let id = self.subsystems.len();
        self.subsystems.push(Subsystem { name, state: SubsystemState::Unstarted, deps });
        proof {
            assert(self.deps_model() =~= old(self).deps_model().push(
                self.subsystems@[id as int].deps@));
            assert(self.states_model() =~= old(self).states_model().push(
                SubsystemState::Unstarted));
            assert(self.names_model() =~= old(self).names_model().push(
                self.subsystems@[id as int].name@));
        }
        match self.try_order() {
            Some(_) => Ok(id),
            None => {
                let _ = self.subsystems.pop();
                proof {
                    assert(self.subsystems@ =~= old(self).subsystems@);
                    assert(self.deps_model() =~= old(self).deps_model());
                    assert(self.states_model() =~= old(self).states_model());
                    assert(self.names_model() =~= old(self).names_model());
                }
                Err(EngineError::DependencyCycle)
            },
        }
    }

    /// Whether every dependency of a known subsystem reports `Running`.
    fn deps_running(&self, v: usize) -> (r: bool)
        requires
            v < self.count_spec(),
        ensures
            r == self.spec_deps_running(v as int),
    {
        let n = self.subsystems.len();
        let sub = &self.subsystems[v];
        proof {
            assert(self.deps_model()[v as int] == sub.deps@);
        }
        let mut k: usize = 0;
        while k < sub.deps.len()
            invariant
                k <= sub.deps@.len(),
                self.deps_model()[v as int] == sub.deps@,
                self.deps_model().len() == n,
                self.subsystems@.len() == n,
                forall|k2: int| 0 <= k2 < k ==> #[trigger] self.dep_running(v as int, k2),
            decreases sub.deps@.len() - k,
        {
            let d = sub.deps[k];
            if d >= n || !matches!(self.subsystems[d].state, SubsystemState::Running) {
                proof {
                    assert(self.deps_model()[v as int][k as int] == d);
                    assert(d < n ==> self.states_model()[d as int] == self.subsystems@[
                        d as int].state);
                    assert(!self.dep_running(v as int, k as int));
                }
                return false;
            }
            proof {
                assert(self.deps_model()[v as int][k as int] == d);
                assert(self.states_model()[d as int] == self.subsystems@[d as int].state);
                assert(self.dep_running(v as int, k as int));
            }
            k = k + 1;
        }
        true
    }

    /// Whether every dependency of every subsystem names a registered id.
    pub fn deps_known(&self) -> (r: bool)
        ensures
            r == self.spec_deps_known(),
    {
        let n = self.subsystems.len();
        let mut v: usize = 0;
        while v < n
            invariant
                v <= n,
                self.subsystems@.len() == n,
                forall|v2: int, k: int|
                    0 <= v2 < v && 0 <= k < self.deps_model()[v2].len()
                    ==> #[trigger] self.dep_known(v2, k),
            decreases n - v,
        {
            let sub = &self.subsystems[v];
            proof {
                assert(self.deps_model()[v as int] == sub.deps@);
            }
            let mut k: usize = 0;
            while k < sub.deps.len()
                invariant
                    k <= sub.deps@.len(),
                    v < n,
                    self.subsystems@.len() == n,
                    self.deps_model()[v as int] == sub.deps@,
                    forall|k2: int| 0 <= k2 < k ==> #[trigger] self.dep_known(v as int, k2),
                decreases sub.deps@.len() - k,
            {
                let d = sub.deps[k];
                if d >= n {
                    proof {
                        assert(self.deps_model()[v as int][k as int] == d);
                        assert(!self.dep_known(v as int, k as int));
                    }
                    return false;
                }
                proof {
                    assert(self.deps_model()[v as int][k as int] == d);
                    assert(self.dep_known(v as int, k as int));
                }
                k = k + 1;
            }
            v = v + 1;
        }
        true
    }

    /// Moves a subsystem from `Unstarted` to `Initializing`; the step a
    /// startup walk takes only once every dependency is `Running`.
    ///
    /// Fails with `InvalidTransition` when the id is unknown or the
    /// subsystem is not `Unstarted`, and with `DependencyFailed` exactly
    /// when some dependency is unregistered or not yet `Running`; on failure
    /// nothing changes.
    pub fn begin_init(&mut self, v: usize) -> (r: Result<(), EngineError>)
        requires
            old(self).wf(),
        ensures
            final(self).wf(),
            final(self).count_spec() == old(self).count_spec(),
            final(self).deps_model() == old(self).deps_model(),
            final(self).names_model() == old(self).names_model(),
            r is Ok <==> v < old(self).count_spec()
                && old(self).states_model()[v as int] is Unstarted
                && old(self).spec_deps_running(v as int),
            r == Err::<(), EngineError>(EngineError::InvalidTransition) <==> (
                v >= old(self).count_spec()
                || !(old(self).states_model()[v as int] is Unstarted)),
            r == Err::<(), EngineError>(EngineError::DependencyFailed) <==> (
                v < old(self).count_spec()
                && old(self).states_model()[v as int] is Unstarted
                && !old(self).spec_deps_running(v as int)),
            r is Err ==> final(self).states_model() == old(self).states_model(),
            r is Ok ==> final(self).states_model() == old(self).states_model().update(v as int,
                SubsystemState::Initializing),
    {
        if v >= self.subsystems.len() {
            return Err(EngineError::InvalidTransition);
        }
        proof {
            assert(self.states_model()[v as int] == self.subsystems@[v as int].state);
        }
        if !matches!(self.subsystems[v].state, SubsystemState::Unstarted) {
            return Err(EngineError::InvalidTransition);
        }
        if !self.deps_running(v) {
            return Err(EngineError::DependencyFailed);
        }
        self.set_state(v, SubsystemState::Initializing);
        Ok(())
    }

    /// Records the outcome of a subsystem's init: `Running` on a zero
    /// status code, `Failed` otherwise.
    ///
    /// Fails with `InvalidTransition`, changing nothing, unless the
    /// subsystem is `Initializing`.
    pub fn finish_init(&mut self, v: usize, code: i32) -> (r: Result<(), EngineError>)
        requires
            old(self).wf(),
        ensures
            final(self).wf(),
            final(self).count_spec() == old(self).count_spec(),
            final(self).deps_model() == old(self).deps_model(),
            final(self).names_model() == old(self).names_model(),
            r is Ok <==> v < old(self).count_spec()
                && old(self).states_model()[v as int] is Initializing,
            r is Err ==> r == Err::<(), EngineError>(EngineError::InvalidTransition)
                && final(self).states_model() == old(self).states_model(),
            r is Ok ==> final(self).states_model() == old(self).states_model().update(v as int,
                if code == 0 {
                    SubsystemState::Running
                } else {
                    SubsystemState::Failed
                }),
    {
        if v >= self.subsystems.len() {
            return Err(EngineError::InvalidTransition);
        }
        proof {
            assert(self.states_model()[v as int] == self.subsystems@[v as int].state);
        }
        if !matches!(self.subsystems[v].state, SubsystemState::Initializing) {
            return Err(EngineError::InvalidTransition);
        }
        if code == 0 {
            self.set_state(v, SubsystemState::Running);
        } else {
            self.set_state(v, SubsystemState::Failed);
        }
        Ok(())
    }

    /// Marks a live subsystem `Failed`, as when its driver reports an
    /// unrecoverable error while `Initializing` or `Running`.
    ///
    /// Fails with `InvalidTransition`, changing nothing, in any other state.
    pub fn mark_failed(&mut self, v: usize) -> (r: Result<(), EngineError>)
        requires
            old(self).wf(),
        ensures
            final(self).wf(),
            final(self).count_spec() == old(self).count_spec(),
            final(self).deps_model() == old(self).deps_model(),
            final(self).names_model() == old(self).names_model(),
            r is Ok <==> v < old(self).count_spec()
                && (old(self).states_model()[v as int] is Initializing
                    || old(self).states_model()[v as int] is Running),
            r is Err ==> r == Err::<(), EngineError>(EngineError::InvalidTransition)
                && final(self).states_model() == old(self).states_model(),
            r is Ok ==> final(self).states_model() == old(self).states_model().update(v as int,
                SubsystemState::Failed),
    {
        if v >= self.subsystems.len() {
            return Err(EngineError::InvalidTransition);
        }
        proof {
            assert(self.states_model()[v as int] == self.subsystems@[v as int].state);
        }
        match self.subsystems[v].state {
            SubsystemState::Initializing | SubsystemState::Running => {
                self.set_state(v, SubsystemState::Failed);
                Ok(())
            },
            _ => Err(EngineError::InvalidTransition),
        }
    }

    /// Starts every subsystem, dependencies first: a topological walk that
    /// takes each subsystem through `Initializing` to `Running` only once
    /// every dependency is `Running`, and returns the order it used.
    ///
    /// Fails with `DependencyFailed`, before any subsystem leaves
    /// `Unstarted`, exactly when some dependency id was never registered.
    pub fn start_all(&mut self) -> (r: Result<Vec<usize>, EngineError>)
        requires
            old(self).wf(),
            forall|v: int| 0 <= v < old(self).count_spec()
                ==> old(self).states_model()[v] is Unstarted,
        ensures
            final(self).wf(),
            final(self).count_spec() == old(self).count_spec(),
            final(self).deps_model() == old(self).deps_model(),
            final(self).names_model() == old(self).names_model(),
            r is Ok <==> old(self).spec_deps_known(),
            r is Err ==> r == Err::<Vec<usize>, EngineError>(EngineError::DependencyFailed)
                && final(self).states_model() == old(self).states_model(),
            r matches Ok(order) ==> {
                &&& is_start_order(order@, old(self).deps_model())
                &&& final(self).states_model() == walk_states(old(self).states_model(), order@,
                    order@.len() as int)
                &&& forall|v: int| 0 <= v < final(self).count_spec()
                    ==> final(self).states_model()[v] is Running
            },
    {
        let n = self.subsystems.len();
        // Surface a dangling dependency before any state changes.
        if !self.deps_known() {
            return Err(EngineError::DependencyFailed);
        }
        let order = match self.try_order() {
            Some(o) => o,
            None => {
                proof {
                    assert(acyclic(self.deps_model()));
                }
                return Err(EngineError::DependencyFailed);
            },
        };
        let ghost states0 = self.states_model();
        let mut i: usize = 0;
        while i < order.len()
            invariant
                i <= order@.len(),
                order@.len() == n,
                self.subsystems@.len() == n,
                self.wf(),
                self.count_spec() == old(self).count_spec(),
                self.deps_model() == old(self).deps_model(),
                self.names_model() == old(self).names_model(),
                states0 == old(self).states_model(),
                states0.len() == n,
                forall|v2: int| 0 <= v2 < n ==> states0[v2] is Unstarted,
                old(self).spec_deps_known(),
                is_start_order(order@, old(self).deps_model()),
                self.states_model() == walk_states(states0, order@, i as int),
            decreases order@.len() - i,
        {
            let v = order[i];
            let ghost g = old(self).deps_model();
            proof {
                assert(order@[i as int] < n);
                // `v` itself has not been started yet.
                if order@.subrange(0, i as int).contains(v) {
                    let j = choose|j: int|
                        0 <= j < i && (#[trigger] order@.subrange(0, i as int)[j]) == v;
                    assert(order@[j] == order@[i as int]);
                }
                assert(self.states_model()[v as int] == states0[v as int]);
                // Every dependency of `v` is already `Running`.
                assert(deps_before(g, order@, i as int));
                assert forall|k: int| 0 <= k < self.deps_model()[v as int].len()
                    implies #[trigger] self.dep_running(v as int, k) by {
                    assert(old(self).dep_known(v as int, k));
                    let d: usize = g[v as int][k];
                    assert(d < n);
                    assert(dep_listed(g, order@, i as int, k));
                    let j = choose|j: int| 0 <= j < i && order@[j] == d;
                    assert(order@.subrange(0, i as int)[j] == d);
                    assert(order@.subrange(0, i as int).contains(d));
                    assert(self.states_model()[d as int] is Running);
                }
                assert(self.spec_deps_running(v as int));
            }
            let ghost pre = *self;
            match self.begin_init(v) {
                Ok(()) => {},
                Err(_) => {
                    return Err(EngineError::DependencyFailed);
                },
            }
            match self.finish_init(v, 0) {
                Ok(()) => {},
                Err(_) => {
                    return Err(EngineError::DependencyFailed);
                },
            }
            proof {
                assert(self.states_model() =~= pre.states_model().update(v as int,
                    SubsystemState::Running));
                let w0 = walk_states(states0, order@, i as int);
                let w1 = walk_states(states0, order@, i + 1);
                assert forall|u: int| 0 <= u < n
                    implies w1[u] == self.states_model()[u] by {
                    if u == v as int {
                        assert(order@.subrange(0, i + 1)[i as int] == v);
                        assert(order@.subrange(0, i + 1).contains(v));
                    } else {
                        if order@.subrange(0, i + 1).contains(u as usize) {
                            let j = choose|j: int|
                                0 <= j < i + 1 && (#[trigger] order@.subrange(0, i + 1)[j])
                                    == u as usize;
                            assert(order@[j] == u as usize);
                            assert(j != i);
                            assert(order@.subrange(0, i as int)[j] == u as usize);
                            assert(order@.subrange(0, i as int).contains(u as usize));
                        }
                        if order@.subrange(0, i as int).contains(u as usize) {
                            let j = choose|j: int|
                                0 <= j < i && (#[trigger] order@.subrange(0, i as int)[j])
                                    == u as usize;
                            assert(order@.subrange(0, i + 1)[j] == u as usize);
                            assert(order@.subrange(0, i + 1).contains(u as usize));
                        }
                        assert(w1[u] == w0[u]);
                        assert(self.states_model()[u] == pre.states_model()[u]);
                    }
                }
                assert(self.states_model() =~= w1);
            }
            i = i + 1;
        }
        proof {
            assert forall|v2: int| 0 <= v2 < n
                implies self.states_model()[v2] is Running by {
                assert(order@.contains(v2 as usize));
                let j = choose|j: int| 0 <= j < order@.len() && order@[j] == v2 as usize;
                assert(order@.subrange(0, order@.len() as int) =~= order@);
                assert(order@.subrange(0, order@.len() as int).contains(v2 as usize));
            }
        }
        Ok(order)
    }

    /// Stops everything in strict reverse dependency order — dependents
    /// always torn down before what they depend on, never in parallel.
    /// Every `Running` subsystem goes through `Stopping` to `Stopped`;
    /// subsystems in any other state are left untouched. Returns the
    /// teardown order walked.
    pub fn stop_all(&mut self) -> (r: Vec<usize>)
        requires
            old(self).wf(),
        ensures
            final(self).wf(),
            final(self).count_spec() == old(self).count_spec(),
            final(self).deps_model() == old(self).deps_model(),
            final(self).names_model() == old(self).names_model(),
            is_start_order(r@.reverse(), old(self).deps_model()),
            final(self).states_model() == Seq::new(old(self).states_model().len(), |u: int|
                if old(self).states_model()[u] is Running {
                    SubsystemState::Stopped
                } else {
                    old(self).states_model()[u]
                }),
    {
        let n = self.subsystems.len();
        let order = match self.try_order() {
            Some(o) => o,
            None => {
                proof {
                    assert(acyclic(self.deps_model()));
                }
                return Vec::new();
            },
        };
        let ghost states0 = self.states_model();
        let mut stopped: Vec<usize> = Vec::new();
        let mut i: usize = order.len();
        while i > 0
            invariant
                i <= order@.len(),
                order@.len() == n,
                self.subsystems@.len() == n,
                self.wf(),
                self.count_spec() == old(self).count_spec(),
                self.deps_model() == old(self).deps_model(),
                self.names_model() == old(self).names_model(),
                states0 == old(self).states_model(),
                states0.len() == n,
                is_start_order(order@, old(self).deps_model()),
                stopped@.len() == order@.len() - i,
                forall|j: int| 0 <= j < stopped@.len()
                    ==> #[trigger] stopped@[j] == order@[order@.len() - 1 - j],
                self.states_model() == Seq::new(states0.len(), |u: int|
                    if order@.subrange(i as int, order@.len() as int).contains(u as usize)
                        && states0[u] is Running {
                        SubsystemState::Stopped
                    } else {
                        states0[u]
                    }),
            decreases i,
        {
            i = i - 1;
            let v = order[i];
            proof {
                assert(order@[i as int] < n);
                // `v` is not in the already-processed suffix.
                if order@.subrange(i + 1, order@.len() as int).contains(v) {
                    let j = choose|j: int| 0 <= j < order@.len() - i - 1
                        && (#[trigger] order@.subrange(i + 1, order@.len() as int)[j]) == v;
                    assert(order@[j + i + 1] == order@[i as int]);
                }
                assert(self.states_model()[v as int] == states0[v as int]);
            }
            let ghost pre = *self;
            let is_running = matches!(self.subsystems[v].state, SubsystemState::Running);
            proof {
                assert(self.states_model()[v as int] == self.subsystems@[v as int].state);
            }
            if is_running {
                self.set_state(v, SubsystemState::Stopping);
                self.set_state(v, SubsystemState::Stopped);
                proof {
                    assert(self.states_model() =~= pre.states_model().update(v as int,
                        SubsystemState::Stopped));
                }
            }
            stopped.push(v);
            proof {
                assert forall|u: int| 0 <= u < n
                    implies (Seq::new(states0.len(), |u2: int|
                        if order@.subrange(i as int, order@.len() as int).contains(u2 as usize)
                            && states0[u2] is Running {
                            SubsystemState::Stopped
                        } else {
                            states0[u2]
                        })[u]) == self.states_model()[u] by {
                    if u == v as int {
                        assert(order@.subrange(i as int, order@.len() as int)[0] == v);
                        assert(order@.subrange(i as int, order@.len() as int).contains(v));
                    } else {
                        if order@.subrange(i as int, order@.len() as int).contains(u as usize) {
                            let j = choose|j: int| 0 <= j < order@.len() - i
                                && (#[trigger] order@.subrange(i as int, order@.len() as int)[j])
                                    == u as usize;
                            assert(order@[j + i] == u as usize);
                            assert(j != 0);
                            assert(order@.subrange(i + 1, order@.len() as int)[j - 1]
                                == u as usize);
                            assert(order@.subrange(i + 1, order@.len() as int).contains(
                                u as usize));
                        }
                        if order@.subrange(i + 1, order@.len() as int).contains(u as usize) {
                            let j = choose|j: int| 0 <= j < order@.len() - i - 1
                                && (#[trigger] order@.subrange(i + 1, order@.len() as int)[j])
                                    == u as usize;
                            assert(order@.subrange(i as int, order@.len() as int)[j + 1]
                                == u as usize);
                            assert(order@.subrange(i as int, order@.len() as int).contains(
                                u as usize));
                        }
                        if is_running {
                            assert(self.states_model()[u] == pre.states_model()[u]);
                        }
                    }
                }
                assert(self.states_model() =~= Seq::new(states0.len(), |u2: int|
                    if order@.subrange(i as int, order@.len() as int).contains(u2 as usize)
                        && states0[u2] is Running {
                        SubsystemState::Stopped
                    } else {
                        states0[u2]
                    }));
            }
        }
        proof {
            assert(order@.subrange(0, order@.len() as int) =~= order@);
            assert forall|u: int| 0 <= u < n
                implies #[trigger] order@.subrange(0, order@.len() as int).contains(
                    u as usize) by {
                assert(order@.contains(u as usize));
            }
            assert(final(self).states_model() =~= Seq::new(old(self).states_model().len(),
                |u: int| if old(self).states_model()[u] is Running {
                    SubsystemState::Stopped
                } else {
                    old(self).states_model()[u]
                }));
            assert(stopped@.reverse() =~= order@);
        }
        stopped
    }
}

/// The guarantee of the startup walk, as a law over any start order: when
/// the walk is about to start `order[i]`, every dependency of `order[i]`
/// already reports `Running` in the walk's state.
pub proof fn lemma_start_respects_deps(
    states0: Seq<SubsystemState>,
    g: Seq<Seq<usize>>,
    order: Seq<usize>,
    i: int,
    k: int,
)
    requires
        is_start_order(order, g),
        states0.len() == g.len(),
        0 <= i < order.len(),
        0 <= k < g[order[i] as int].len(),
        g[order[i] as int][k] < g.len(),
    ensures
        walk_states(states0, order, i)[g[order[i] as int][k] as int] is Running,
{
    assert(deps_before(g, order, i));
    assert(dep_listed(g, order, i, k));
    let d: usize = g[order[i] as int][k];
    let j = choose|j: int| 0 <= j < i && order[j] == d;
    assert(order.subrange(0, i)[j] == d);
    assert(order.subrange(0, i).contains(d));
}

proof fn lemma_count_all_false(s: Seq<bool>)
    requires
        forall|u: int| 0 <= u < s.len() ==> !(#[trigger] s[u]),
    ensures
        count_true(s) == 0,
    decreases s.len(),
{
    if s.len() > 0 {
        lemma_count_all_false(s.drop_last());
    }
}

} // verus!
