//! The dependency graph of a reporting job: edges from a step to a product it
//! needs, the readiness test, validation, and the scheduler.

use vstd::prelude::*;
use vstd::string::StringExecFns;

use crate::types::{
    produces, ProductIdView, ReportingProductId, ReportingProductKind, ReportingStepId,
    StepIdView,
};

verus! {

broadcast use vstd::seq_lib::group_seq_properties;

/// An edge of the graph: `step` needs the product `dependency`
pub struct Dependency {
    pub step: ReportingStepId,
    pub dependency: ReportingProductId,
}

/// Abstract value of a [Dependency]
pub struct DependencyView {
    pub step: StepIdView,
    pub dependency: ProductIdView,
}

impl View for Dependency {
    type V = DependencyView;

    open spec fn view(&self) -> DependencyView {
        DependencyView { step: self.step@, dependency: self.dependency@ }
    }
}

/// The edges of a reporting job's graph, each recorded once
pub struct ReportingGraphDependencies {
    vec: Vec<Dependency>,
}

/// Abstract values of a list of edges
pub open spec fn deps_view(v: Seq<Dependency>) -> Seq<DependencyView> {
    Seq::new(v.len(), |i: int| v[i]@)
}

impl View for ReportingGraphDependencies {
    type V = Seq<DependencyView>;

    closed spec fn view(&self) -> Seq<DependencyView> {
        deps_view(self.vec@)
    }
}

/// Errors found while building or ordering the graph
pub enum ReportingCalculationError {
    /// An edge starts at a step that is not in the graph
    UnknownStep { message: String },
    /// No step in the graph makes a product that an edge needs
    NoStepForProduct { message: String },
    /// No order of the steps meets every edge
    CircularDependencies,
}

/// The graph after adding the edge `d`: unchanged if it is already there,
/// else with `d` appended
pub open spec fn with_dependency(g: Seq<DependencyView>, d: DependencyView) -> Seq<
    DependencyView,
> {
    if g.contains(d) {
        g
    } else {
        g.push(d)
    }
}

/// Whether the edge `d` is met by one of the steps `done`
pub open spec fn dependency_met(d: DependencyView, done: Seq<StepIdView>) -> bool {
    exists|j: int| 0 <= j < done.len() && produces(#[trigger] done[j], d.dependency)
}

/// Whether the step `step` may run once the steps `done` have run: each of
/// its edges is met by one of them
pub open spec fn ready(deps: Seq<DependencyView>, step: StepIdView, done: Seq<StepIdView>) -> bool {
    forall|i: int|
        0 <= i < deps.len() && (#[trigger] deps[i]).step == step ==> dependency_met(deps[i], done)
}

/// The ids of the first `k` steps of the order `o`
pub open spec fn order_ids(ids: Seq<StepIdView>, o: Seq<usize>, k: int) -> Seq<StepIdView> {
    Seq::new(k as nat, |j: int| ids[o[j] as int])
}

/// Whether `o` lists each step index once and runs each step only after
/// steps that make all of the products it needs
pub open spec fn valid_order(ids: Seq<StepIdView>, deps: Seq<DependencyView>, o: Seq<usize>) -> bool {
    &&& o.no_duplicates()
    &&& forall|p: int| 0 <= p < o.len() ==> o[p] < ids.len()
    &&& forall|i: usize| i < ids.len() ==> o.contains(i)
    &&& forall|p: int|
        0 <= p < o.len() ==> ready(deps, ids[o[p] as int], #[trigger] order_ids(ids, o, p))
}

/// Abstract values of a list of step ids
pub open spec fn ids_view(ids: Seq<ReportingStepId>) -> Seq<StepIdView> {
    Seq::new(ids.len(), |i: int| ids[i]@)
}

/// Whether every edge starts at a step among `ids`
pub open spec fn steps_known(ids: Seq<StepIdView>, deps: Seq<DependencyView>) -> bool {
    forall|i: int| 0 <= i < deps.len() ==> ids.contains(#[trigger] deps[i].step)
}

/// Whether every edge needs a product that a step among `ids` makes
pub open spec fn products_known(ids: Seq<StepIdView>, deps: Seq<DependencyView>) -> bool {
    forall|i: int| 0 <= i < deps.len() ==> dependency_met(#[trigger] deps[i], ids)
}

impl ReportingGraphDependencies {
    /// A graph with no edge
    pub fn new() -> (r: ReportingGraphDependencies)
        ensures
            r@ == Seq::<DependencyView>::empty(),
    {
        let r = ReportingGraphDependencies { vec: Vec::new() };
        assert(r@ =~= Seq::<DependencyView>::empty());
        r
    }

    /// The edges, in the order they were added
    pub fn vec(&self) -> (r: &Vec<Dependency>)
        ensures
            deps_view(r@) == self@,
    {
        &self.vec
    }

    /// Record that `step` needs `dependency`, unless that edge is already there
    pub fn add_dependency(&mut self, step: ReportingStepId, dependency: ReportingProductId)
        ensures
            final(self)@ == with_dependency(
                old(self)@,
                DependencyView { step: step@, dependency: dependency@ },
            ),
    {
        let ghost d = DependencyView { step: step@, dependency: dependency@ };
        let n = self.vec.len();
        let mut i: usize = 0;
        while i < n
            invariant
                n == self.vec@.len(),
                i <= n,
                d == (DependencyView { step: step@, dependency: dependency@ }),
                forall|j: int| 0 <= j < i ==> self@[j] != d,
            decreases n - i,
        {
            let e = &self.vec[i];
            assert(self@[i as int] == e@);
            if e.step.same_as(&step) && e.dependency.same_as(&dependency) {
                assert(self@[i as int] == d);
                return;
            }
            i = i + 1;
        }
        let ghost before = self@;
        self.vec.push(Dependency { step, dependency });
        assert(self@ =~= before.push(d));
    }

    /// Record that `target` needs, for each kind it makes, the product of that
    /// kind named like `dependency` with the arguments of `target`
    pub fn add_target_dependency(&mut self, target: ReportingStepId, dependency: ReportingStepId)
        requires
            forall|k: int|
                0 <= k < target.product_kinds@.len() ==> (#[trigger] target.product_kinds@[k]
                    == ReportingProductKind::Transactions || target.product_kinds@[k]
                    == ReportingProductKind::BalancesBetween),
        ensures
            final(self)@ == target_edges(
                old(self)@,
                target@,
                dependency.name@,
                target.product_kinds@.len() as int,
            ),
    {
        let n = target.product_kinds.len();
        let mut i: usize = 0;
        while i < n
            invariant
                n == target.product_kinds@.len(),
                i <= n,
                self@ == target_edges(old(self)@, target@, dependency.name@, i as int),
            decreases n - i,
        {
            let kind = target.product_kinds[i];
            self.add_dependency(
                target.copy(),
                ReportingProductId {
                    name: dependency.name.clone(),
                    kind,
                    args: target.args.copy(),
                },
            );
            i = i + 1;
        }
    }

    /// The edges that start at `step`, in the order they were added
    pub fn dependencies_for_step(&self, step: &ReportingStepId) -> (r: Vec<&Dependency>)
        ensures
            Seq::new(r@.len(), |i: int| r@[i]@) == step_dependencies(self@, step@),
    {
        let ghost pred = |d: DependencyView| d.step == step@;
        let mut out: Vec<&Dependency> = Vec::new();
        let n = self.vec.len();
        let mut i: usize = 0;
        while i < n
            invariant
                n == self.vec@.len(),
                i <= n,
                pred == (|d: DependencyView| d.step == step@),
                Seq::new(out@.len(), |j: int| out@[j]@) == self@.subrange(0, i as int).filter(
                    pred,
                ),
            decreases n - i,
        {
            let ghost before = Seq::new(out@.len(), |j: int| out@[j]@);
            let e = &self.vec[i];
            assert(self@[i as int] == e@);
            proof {
                assert(self@.subrange(0, i + 1) =~= self@.subrange(0, i as int).push(self@[i as int]));
                self@.subrange(0, i as int).lemma_filter_push(self@[i as int], pred);
            }
            if e.step.same_as(step) {
                out.push(e);
                assert(Seq::new(out@.len(), |j: int| out@[j]@) =~= before.push(e@));
            }
            i = i + 1;
        }
        assert(self@.subrange(0, n as int) =~= self@);
        out
    }
}

/// The edges of `deps` that start at the step `sid`, in order
pub open spec fn step_dependencies(deps: Seq<DependencyView>, sid: StepIdView) -> Seq<DependencyView> {
    deps.filter(|d: DependencyView| d.step == sid)
}

/// The graph `g` after the edges that `add_target_dependency` adds for the
/// first `k` kinds of `target`
pub open spec fn target_edges(
    g: Seq<DependencyView>,
    target: StepIdView,
    name: Seq<char>,
    k: int,
) -> Seq<DependencyView>
    decreases k,
{
    if k <= 0 {
        g
    } else {
        with_dependency(
            target_edges(g, target, name, k - 1),
            DependencyView {
                step: target,
                dependency: ProductIdView { name, kind: target.kinds[k - 1], args: target.args },
            },
        )
    }
}

/// Whether the step `step` may run once the steps listed in `previous` (as
/// indices into `ids`) have run
pub fn would_be_ready_to_execute(
    step: &ReportingStepId,
    ids: &Vec<ReportingStepId>,
    dependencies: &ReportingGraphDependencies,
    previous: &Vec<usize>,
) -> (r: bool)
    requires
        forall|j: int| 0 <= j < previous@.len() ==> previous@[j] < ids@.len(),
    ensures
        r == ready(dependencies@, step@, order_ids(ids_view(ids@), previous@, previous@.len() as int)),
{
    let ghost done = order_ids(ids_view(ids@), previous@, previous@.len() as int);
    let n = dependencies.vec.len();
    let mut i: usize = 0;
    while i < n
        invariant
            n == dependencies@.len(),
            i <= n,
            forall|j: int| 0 <= j < previous@.len() ==> previous@[j] < ids@.len(),
            done == order_ids(ids_view(ids@), previous@, previous@.len() as int),
            forall|k: int|
                0 <= k < i && (#[trigger] dependencies@[k]).step == step@ ==> dependency_met(
                    dependencies@[k],
                    done,
                ),
        decreases n - i,
    {
        let d = &dependencies.vec[i];
        assert(dependencies@[i as int] == d@);
        if d.step.same_as(step) {
            let m = previous.len();
            let mut j: usize = 0;
            let mut met = false;
            while j < m
                invariant
                    m == previous@.len(),
                    j <= m,
                    forall|q: int| 0 <= q < previous@.len() ==> previous@[q] < ids@.len(),
                    done == order_ids(ids_view(ids@), previous@, previous@.len() as int),
                    met ==> dependency_met(d@, done),
                    !met ==> forall|q: int| 0 <= q < j ==> !produces(#[trigger] done[q], d@.dependency),
                decreases m - j,
            {
                if !met && ids[previous[j]].produces(&d.dependency) {
                    assert(done[j as int] == ids@[previous@[j as int] as int]@);
                    met = true;
                }
                j = j + 1;
            }
            if !met {
                assert(!dependency_met(d@, done));
                assert(dependencies@[i as int].step == step@);
                return false;
            }
        }
        i = i + 1;
    }
    true
}

fn message_for(a: &String, joiner: &str, b: &String) -> (r: String) {
    let mut m = a.clone();
    m.append(joiner);
    m.append(b.as_str());
    m
}

/// Check that every edge starts at a step among `ids` and needs a product
/// that one of them makes; the first edge, in order, that fails decides the
/// error
pub fn check_dependencies(
    ids: &Vec<ReportingStepId>,
    dependencies: &ReportingGraphDependencies,
) -> (r: Result<(), ReportingCalculationError>)
    ensures
        r is Ok <==> steps_known(ids_view(ids@), dependencies@) && products_known(
            ids_view(ids@),
            dependencies@,
        ),
        r matches Err(e) ==> (e is UnknownStep || e is NoStepForProduct),
        r matches Err(ReportingCalculationError::UnknownStep { .. }) ==> !steps_known(
            ids_view(ids@),
            dependencies@,
        ),
        r matches Err(ReportingCalculationError::NoStepForProduct { .. }) ==> !products_known(
            ids_view(ids@),
            dependencies@,
        ),
{
    let ghost iv = ids_view(ids@);
    let n = dependencies.vec.len();
    let m = ids.len();
    let mut i: usize = 0;
    while i < n
        invariant
            n == dependencies@.len(),
            m == ids@.len(),
            iv == ids_view(ids@),
            i <= n,
            forall|k: int| 0 <= k < i ==> iv.contains(#[trigger] dependencies@[k].step),
            forall|k: int| 0 <= k < i ==> dependency_met(#[trigger] dependencies@[k], iv),
        decreases n - i,
    {
        let d = &dependencies.vec[i];
        assert(dependencies@[i as int] == d@);
        let mut j: usize = 0;
        let mut found_step = false;
        while j < m
            invariant
                m == ids@.len(),
                j <= m,
                iv == ids_view(ids@),
                found_step ==> iv.contains(d@.step),
                !found_step ==> forall|q: int| 0 <= q < j ==> iv[q] != d@.step,
            decreases m - j,
        {
            if !found_step && ids[j].same_as(&d.step) {
                assert(iv[j as int] == d@.step);
                found_step = true;
            }
            j = j + 1;
        }
        if !found_step {
            return Err(
                ReportingCalculationError::UnknownStep {
                    message: message_for(
                        &d.dependency.name,
                        " is needed by a step that is not in the graph: ",
                        &d.step.name,
                    ),
                },
            );
        }
        let mut j: usize = 0;
        let mut found_product = false;
        while j < m
            invariant
                m == ids@.len(),
                j <= m,
                iv == ids_view(ids@),
                found_product ==> dependency_met(d@, iv),
                !found_product ==> forall|q: int| 0 <= q < j ==> !produces(#[trigger] iv[q], d@.dependency),
            decreases m - j,
        {
            if !found_product && ids[j].produces(&d.dependency) {
                assert(iv[j as int] == ids@[j as int]@);
                found_product = true;
            }
            j = j + 1;
        }
        if !found_product {
            assert(!dependency_met(dependencies@[i as int], iv));
            return Err(
                ReportingCalculationError::NoStepForProduct {
                    message: message_for(
                        &d.dependency.name,
                        " is made by no step, and is needed by ",
                        &d.step.name,
                    ),
                },
            );
        }
        i = i + 1;
    }
    Ok(())
}

} // verus!

verus! {

proof fn lemma_order_ids_push(ids: Seq<StepIdView>, o: Seq<usize>, x: usize, k: int)
    requires
        0 <= k <= o.len(),
    ensures
        order_ids(ids, o.push(x), k) == order_ids(ids, o, k),
{
    assert(order_ids(ids, o.push(x), k) =~= order_ids(ids, o, k));
}

/// The first position of `o` whose step is not among `placed`, when the
/// position `last` is such a one
proof fn first_unplaced(o: Seq<usize>, placed: Seq<usize>, q: int, last: int) -> (p: int)
    requires
        0 <= q <= last < o.len(),
        !placed.contains(o[last]),
        forall|r: int| 0 <= r < q ==> placed.contains(#[trigger] o[r]),
    ensures
        0 <= p <= last,
        !placed.contains(o[p]),
        forall|r: int| 0 <= r < p ==> placed.contains(#[trigger] o[r]),
    decreases last - q,
{
    if !placed.contains(o[q]) {
        q
    } else {
        first_unplaced(o, placed, q + 1, last)
    }
}

/// If no unplaced step is ready once the steps of `sorted` have run, and
/// some step is unplaced, then the steps have no valid order
proof fn lemma_stuck_means_no_order(
    ids: Seq<StepIdView>,
    deps: Seq<DependencyView>,
    sorted: Seq<usize>,
    u: usize,
    o: Seq<usize>,
)
    requires
        u < ids.len(),
        !sorted.contains(u),
        forall|p: int| 0 <= p < sorted.len() ==> sorted[p] < ids.len(),
        forall|i: usize|
            i < ids.len() && !sorted.contains(i) ==> !ready(
                deps,
                ids[i as int],
                order_ids(ids, sorted, sorted.len() as int),
            ),
    ensures
        !valid_order(ids, deps, o),
{
    if valid_order(ids, deps, o) {
        let done = order_ids(ids, sorted, sorted.len() as int);
        assert(o.contains(u));
        let last = choose|p: int| 0 <= p < o.len() && o[p] == u;
        let p = first_unplaced(o, sorted, 0, last);
        let prefix = order_ids(ids, o, p);
        assert(ready(deps, ids[o[p] as int], prefix));
        assert forall|i: int|
            0 <= i < deps.len() && (#[trigger] deps[i]).step == ids[o[p] as int] implies dependency_met(
            deps[i],
            done,
        ) by {
            assert(dependency_met(deps[i], prefix));
            let j = choose|j: int| 0 <= j < prefix.len() && produces(#[trigger] prefix[j], deps[i].dependency);
            assert(sorted.contains(o[j]));
            let k = choose|k: int| 0 <= k < sorted.len() && sorted[k] == o[j];
            assert(done[k] == prefix[j]);
        }
        assert(ready(deps, ids[o[p] as int], done));
    }
}

/// Whether, at each position of the order `o`, its step is the first in the
/// list `ids` among those not yet placed that are ready there
pub open spec fn first_ready_each_time(ids: Seq<StepIdView>, deps: Seq<DependencyView>, o: Seq<usize>) -> bool {
    forall|p: int, j: int|
        #![trigger order_ids(ids, o, p), ids[j]]
        0 <= p < o.len() && 0 <= j < o[p] && !o.subrange(0, p).contains(j as usize) ==> !ready(
            deps,
            ids[j],
            order_ids(ids, o, p),
        )
}

/// Order the steps so that each runs only after steps that make every product
/// it needs; among the steps ready at a point, the one listed first runs first
///
/// Returns the order as indices into `ids`, or
/// [ReportingCalculationError::CircularDependencies] when no such order
/// exists.
pub fn sort_steps(ids: &Vec<ReportingStepId>, dependencies: &ReportingGraphDependencies) -> (r:
    Result<Vec<usize>, ReportingCalculationError>)
    ensures
        r is Ok <==> exists|o: Seq<usize>| valid_order(ids_view(ids@), dependencies@, o),
        r matches Ok(o) ==> valid_order(ids_view(ids@), dependencies@, o@),
        r matches Ok(o) ==> first_ready_each_time(ids_view(ids@), dependencies@, o@),
        r matches Err(e) ==> e is CircularDependencies,
{
    let ghost iv = ids_view(ids@);
    let n = ids.len();
    let mut placed: Vec<bool> = Vec::new();
    let mut c: usize = 0;
    while c < n
        invariant
            c <= n,
            placed@.len() == c,
            forall|j: int| 0 <= j < c ==> !placed@[j],
        decreases n - c,
    {
        placed.push(false);
        c = c + 1;
    }
    let mut sorted: Vec<usize> = Vec::new();
    let ghost mut unplaced: Set<int> = vstd::set_lib::set_int_range(0, n as int);
    proof {
        vstd::set_lib::lemma_int_range(0, n as int);
    }
    loop
        invariant
            n == ids@.len(),
            iv == ids_view(ids@),
            placed@.len() == n,
            unplaced.finite(),
            forall|i: int| unplaced.contains(i) <==> (0 <= i < n && !placed@[i]),
            forall|i: usize| i < n ==> (placed@[i as int] <==> sorted@.contains(i)),
            sorted@.no_duplicates(),
            forall|p: int| 0 <= p < sorted@.len() ==> sorted@[p] < n,
            forall|p: int|
                0 <= p < sorted@.len() ==> ready(
                    dependencies@,
                    iv[sorted@[p] as int],
                    #[trigger] order_ids(iv, sorted@, p),
                ),
            first_ready_each_time(iv, dependencies@, sorted@),
        decreases unplaced.len(),
    {
        let mut any_unplaced = false;
        let mut chosen: Option<usize> = None;
        let mut i: usize = 0;
        while i < n
            invariant
                n == ids@.len(),
                iv == ids_view(ids@),
                placed@.len() == n,
                i <= n,
                forall|p: int| 0 <= p < sorted@.len() ==> sorted@[p] < n,
                forall|i: usize| i < n ==> (placed@[i as int] <==> sorted@.contains(i)),
                chosen is None ==> forall|j: usize|
                    j < i && !placed@[j as int] ==> !ready(
                        dependencies@,
                        iv[j as int],
                        order_ids(iv, sorted@, sorted@.len() as int),
                    ),
                chosen is None ==> (any_unplaced <==> exists|j: usize| j < i && !placed@[j as int]),
                chosen matches Some(x) ==> x < n && !placed@[x as int] && ready(
                    dependencies@,
                    iv[x as int],
                    order_ids(iv, sorted@, sorted@.len() as int),
                ),
                chosen matches Some(x) ==> forall|j: usize|
                    j < x && !placed@[j as int] ==> !ready(
                        dependencies@,
                        iv[j as int],
                        order_ids(iv, sorted@, sorted@.len() as int),
                    ),
            decreases n - i,
        {
            if chosen.is_none() && !placed[i] {
                any_unplaced = true;
                assert(iv[i as int] == ids@[i as int]@);
                if would_be_ready_to_execute(&ids[i], ids, dependencies, &sorted) {
                    chosen = Some(i);
                }
            }
            i = i + 1;
        }
        match chosen {
            Some(x) => {
                let ghost before = sorted@;
                proof {
                    lemma_order_ids_push(iv, before, x, before.len() as int);
                    assert forall|p: int| 0 <= p < before.len() implies #[trigger] order_ids(
                        iv,
                        before.push(x),
                        p,
                    ) == order_ids(iv, before, p) by {
                        lemma_order_ids_push(iv, before, x, p);
                    }
                    assert(!before.contains(x));
                }
                sorted.push(x);
                placed.set(x, true);
                proof {
                    assert(unplaced.contains(x as int));
                    unplaced = unplaced.remove(x as int);
                    assert(sorted@ == before.push(x));
                    assert forall|p: int| 0 <= p < sorted@.len() implies ready(
                        dependencies@,
                        iv[sorted@[p] as int],
                        #[trigger] order_ids(iv, sorted@, p),
                    ) by {
                        if p < before.len() {
                            assert(order_ids(iv, sorted@, p) == order_ids(iv, before, p));
                        }
                    }
                    assert forall|p: int, j: int|
                        #![trigger order_ids(iv, sorted@, p), iv[j]]
                        0 <= p < sorted@.len() && 0 <= j < sorted@[p] && !sorted@.subrange(0, p).contains(j as usize) implies !ready(
                        dependencies@,
                        iv[j],
                        order_ids(iv, sorted@, p),
                    ) by {
                        if p < before.len() {
                            assert(order_ids(iv, sorted@, p) == order_ids(iv, before, p));
                            assert(sorted@.subrange(0, p) =~= before.subrange(0, p));
                            assert(sorted@[p] == before[p]);
                        } else {
                            assert(sorted@.subrange(0, p) =~= before);
                            assert(order_ids(iv, sorted@, p) == order_ids(iv, before, before.len() as int));
                            let ju = j as usize;
                            assert(ju < x);
                            assert(!placed@[j] || before.contains(ju));
                        }
                    }
                }
            },
            None => {
                if !any_unplaced {
                    proof {
                        assert forall|i: usize| i < n implies sorted@.contains(i) by {
                            assert(placed@[i as int]);
                        }
                        assert(valid_order(iv, dependencies@, sorted@));
                    }
                    return Ok(sorted);
                }
                proof {
                    let u = choose|j: usize| j < n && !placed@[j as int];
                    assert forall|o: Seq<usize>| !valid_order(iv, dependencies@, o) by {
                        lemma_stuck_means_no_order(iv, dependencies@, sorted@, u, o);
                    }
                }
                return Err(ReportingCalculationError::CircularDependencies);
            },
        }
    }
}

} // verus!

verus! {

proof fn lemma_same_prefix(
    ids: Seq<StepIdView>,
    deps: Seq<DependencyView>,
    a: Seq<usize>,
    b: Seq<usize>,
    p: int,
)
    requires
        valid_order(ids, deps, a),
        valid_order(ids, deps, b),
        first_ready_each_time(ids, deps, a),
        first_ready_each_time(ids, deps, b),
        0 <= p <= a.len(),
        p <= b.len(),
    ensures
        a.subrange(0, p) == b.subrange(0, p),
    decreases p,
{
    if p > 0 {
        lemma_same_prefix(ids, deps, a, b, p - 1);
        let q = p - 1;
        assert(a.subrange(0, q) =~= b.subrange(0, q));
        assert(order_ids(ids, a, q) =~= order_ids(ids, b, q)) by {
            assert forall|j: int| 0 <= j < q implies a[j] == b[j] by {
                assert(a.subrange(0, q)[j] == b.subrange(0, q)[j]);
            }
        }
        if a[q] != b[q] {
            assert(ready(deps, ids[a[q] as int], order_ids(ids, a, q)));
            assert(ready(deps, ids[b[q] as int], order_ids(ids, b, q)));
            if a[q] < b[q] {
                if a.subrange(0, q).contains(a[q]) {
                    let j = choose|j: int| 0 <= j < q && a.subrange(0, q)[j] == a[q];
                    assert(a[j] == a[q]);
                }
                assert(!b.subrange(0, q).contains(a[q]));
                assert(order_ids(ids, b, q) == order_ids(ids, b, q) && ids[a[q] as int] == ids[a[q] as int]);
            } else {
                if b.subrange(0, q).contains(b[q]) {
                    let j = choose|j: int| 0 <= j < q && b.subrange(0, q)[j] == b[q];
                    assert(b[j] == b[q]);
                }
                assert(!a.subrange(0, q).contains(b[q]));
                assert(order_ids(ids, a, q) == order_ids(ids, a, q) && ids[b[q] as int] == ids[b[q] as int]);
            }
        }
        assert(a.subrange(0, p) =~= b.subrange(0, p));
    }
}

/// The scheduler's order is a function of the steps and edges: two valid
/// orders that each take, at every position, the first ready step in list
/// order are the same order.
pub proof fn scheduled_order_is_unique(
    ids: Seq<StepIdView>,
    deps: Seq<DependencyView>,
    a: Seq<usize>,
    b: Seq<usize>,
)
    requires
        valid_order(ids, deps, a),
        valid_order(ids, deps, b),
        first_ready_each_time(ids, deps, a),
        first_ready_each_time(ids, deps, b),
    ensures
        a == b,
{
    if a.len() <= b.len() {
        lemma_same_prefix(ids, deps, a, b, a.len() as int);
        if a.len() < b.len() {
            let x = b[a.len() as int];
            assert(a.contains(x));
            let j = choose|j: int| 0 <= j < a.len() && a[j] == x;
            assert(a.subrange(0, a.len() as int)[j] == b.subrange(0, a.len() as int)[j]);
        }
        assert(a =~= b) by {
            assert forall|j: int| 0 <= j < a.len() implies a[j] == b[j] by {
                assert(a.subrange(0, a.len() as int)[j] == b.subrange(0, a.len() as int)[j]);
            }
        }
    } else {
        lemma_same_prefix(ids, deps, a, b, b.len() as int);
        let x = a[b.len() as int];
        assert(b.contains(x));
        let j = choose|j: int| 0 <= j < b.len() && b[j] == x;
        assert(a.subrange(0, b.len() as int)[j] == b.subrange(0, b.len() as int)[j]);
    }
}

} // verus!
