//! Reporting steps, the resolution of a request into a graph of steps, and
//! the execution of that graph.

use vstd::prelude::*;
use vstd::string::StringExecFns;

use crate::balances::{
    apply_transactions, balances_between, balances_from_transactions, check_difference_fits,
    dated_within, difference, try_update_balances_within, BalanceMap, BalancesAt,
    BalancesBetween, BalancesView, TransactionWithPostings,
};
use crate::graph::{
    check_dependencies, ids_view, order_ids, products_known, ready, sort_steps, steps_known,
    valid_order,
    DependencyView, ReportingCalculationError, ReportingGraphDependencies,
};
use crate::products::{
    product_value, store_get, store_has, store_value, value_at, ProductValue,
    ReportingExecutionError, ReportingProduct, ReportingProducts, StoreValue,
};
use crate::types::{
    produces, ArgsView, Date, DateArgs, DateStartDateEndArgs, ProductIdView, ReportingProductId,
    ReportingProductKind, ReportingStepArgs, ReportingStepId, StepIdView, VoidArgs,
};

verus! {

// ---------------------------------------------------------------------------
// Steps

/// A step whose products were obtained outside the engine (from storage, say)
/// and are handed to it whole; it may still declare products it needs
pub struct SourceStep {
    pub id: ReportingStepId,
    pub needs: Vec<ReportingProductId>,
    pub products: Vec<(ReportingProductId, ReportingProduct)>,
    /// Names of the steps that must take this step's product into account:
    /// once this step is in the graph, each step of one of these names
    /// already there needs the product of this step's name, of that step's
    /// first kind and with that step's arguments
    pub feeds: Vec<String>,
}

/// Whether a product value has the shape that its kind names
pub open spec fn product_matches_kind(kind: ReportingProductKind, p: ReportingProduct) -> bool {
    match kind {
        ReportingProductKind::Transactions => p is Transactions,
        ReportingProductKind::BalancesAt => p is BalancesAt,
        ReportingProductKind::BalancesBetween => p is BalancesBetween,
        ReportingProductKind::Generic => p is Generic,
    }
}

fn kind_of_product(kind: ReportingProductKind, p: &ReportingProduct) -> (r: bool)
    ensures
        r == product_matches_kind(kind, *p),
{
    match (kind, p) {
        (ReportingProductKind::Transactions, ReportingProduct::Transactions(_)) => true,
        (ReportingProductKind::BalancesAt, ReportingProduct::BalancesAt(_)) => true,
        (ReportingProductKind::BalancesBetween, ReportingProduct::BalancesBetween(_)) => true,
        (ReportingProductKind::Generic, ReportingProduct::Generic(_)) => true,
        _ => false,
    }
}

/// Whether each product is one that the step id `id` names, has the shape of
/// its kind, and has an id of its own
pub open spec fn products_fit(
    id: StepIdView,
    products: Seq<(ReportingProductId, ReportingProduct)>,
) -> bool {
    &&& forall|i: int|
        0 <= i < products.len() ==> produces(id, (#[trigger] products[i]).0@)
            && product_matches_kind(products[i].0.kind, products[i].1)
    &&& forall|i: int, j: int| 0 <= i < j < products.len() ==> products[i].0@ != products[j].0@
    &&& forall|k: int|
        0 <= k < id.kinds.len() ==> exists|i: int|
            0 <= i < products.len() && (#[trigger] products[i]).0@ == kind_product(id, #[trigger] id.kinds[k])
}

/// The product of kind `kind` that the step id `id` names
pub open spec fn kind_product(id: StepIdView, kind: ReportingProductKind) -> ProductIdView {
    ProductIdView { name: id.name, kind, args: id.args }
}

impl SourceStep {
    /// Whether each product is one that the step's id names, has the shape of
    /// its kind, and has an id of its own
    pub open spec fn wf(&self) -> bool {
        products_fit(self.id@, self.products@)
    }

    /// A step with the given id, needs and products, or `None` if a product
    /// is not one that the id names, has not the shape of its kind, or comes
    /// twice, or if a kind of the id has no product
    pub fn new(
        id: ReportingStepId,
        needs: Vec<ReportingProductId>,
        products: Vec<(ReportingProductId, ReportingProduct)>,
    ) -> (r: Option<SourceStep>)
        ensures
            r matches Some(s) ==> s.wf() && s.id@ == id@ && s.needs@ == needs@
                && s.products@ == products@,
            r matches Some(s) ==> s.feeds@.len() == 0,
            r is None ==> !products_fit(id@, products@),
    {
        let n = products.len();
        let mut i: usize = 0;
        while i < n
            invariant
                n == products@.len(),
                i <= n,
                forall|a: int|
                    0 <= a < i ==> produces(id@, (#[trigger] products@[a]).0@)
                        && product_matches_kind(products@[a].0.kind, products@[a].1),
                forall|a: int, b: int| 0 <= a < b < i ==> products@[a].0@ != products@[b].0@,
            decreases n - i,
        {
            if !id.produces(&products[i].0) || !kind_of_product(products[i].0.kind, &products[i].1) {
                return None;
            }
            let mut j: usize = 0;
            while j < i
                invariant
                    n == products@.len(),
                    j <= i < n,
                    forall|b: int| 0 <= b < j ==> products@[b].0@ != products@[i as int].0@,
                decreases i - j,
            {
                if products[j].0.same_as(&products[i].0) {
                    return None;
                }
                j = j + 1;
            }
            i = i + 1;
        }
        let m = id.product_kinds.len();
        let mut k: usize = 0;
        while k < m
            invariant
                n == products@.len(),
                m == id.product_kinds@.len(),
                k <= m,
                forall|a: int|
                    0 <= a < n ==> produces(id@, (#[trigger] products@[a]).0@)
                        && product_matches_kind(products@[a].0.kind, products@[a].1),
                forall|c: int|
                    0 <= c < k ==> exists|a: int|
                        0 <= a < n && (#[trigger] products@[a]).0@ == kind_product(id@, #[trigger] id@.kinds[c]),
            decreases m - k,
        {
            let kind = id.product_kinds[k];
            let mut a: usize = 0;
            let mut found = false;
            while a < n
                invariant
                    n == products@.len(),
                    a <= n,
                    k < m,
                    m == id.product_kinds@.len(),
                    kind == id@.kinds[k as int],
                    forall|b: int|
                        0 <= b < n ==> produces(id@, (#[trigger] products@[b]).0@),
                    found ==> exists|b: int|
                        0 <= b < n && (#[trigger] products@[b]).0@ == kind_product(id@, kind),
                    !found ==> forall|b: int| 0 <= b < a ==> (#[trigger] products@[b]).0.kind != kind,
                decreases n - a,
            {
                if !found && products[a].0.kind == kind {
                    assert(products@[a as int].0@ == kind_product(id@, kind));
                    found = true;
                }
                a = a + 1;
            }
            if !found {
                proof {
                    assert(!exists|b: int|
                        0 <= b < n && (#[trigger] products@[b]).0@ == kind_product(id@, id@.kinds[k as int]));
                }
                return None;
            }
            k = k + 1;
        }
        Some(SourceStep { id, needs, products, feeds: Vec::new() })
    }

    /// The step's id
    pub fn id(&self) -> (r: ReportingStepId)
        ensures
            r@ == self.id@,
    {
        self.id.copy()
    }

    /// This step, feeding the steps named in `feeds`
    pub fn with_feeds(self, feeds: Vec<String>) -> (r: SourceStep)
        ensures
            r.id == self.id,
            r.needs == self.needs,
            r.products == self.products,
            r.feeds == feeds,
    {
        let SourceStep { id, needs, products, feeds: _ } = self;
        SourceStep { id, needs, products, feeds }
    }
}

/// Balances at a date, folded from the transactions of a step with no
/// dependency
pub struct GenerateBalances {
    pub step_name: String,
    pub args: DateArgs,
}

/// Balances over a date range, from the balances at the day before its start
/// and at its end
pub struct BalancesAtToBalancesBetween {
    pub step_name: String,
    pub args: DateStartDateEndArgs,
}

/// Balances at a date, from opening balances rolled forward by the
/// transactions, dated on or before that date, of a step of the same name
pub struct UpdateBalancesAt {
    pub step_name: String,
    pub args: DateArgs,
    /// The transactions rolled forward
    pub transactions: ReportingProductId,
    /// The balances rolled forward from
    pub opening: ReportingProductId,
}

/// Balances over a date range, from opening balances over that range updated
/// by the transactions, dated within it, of a step of the same name
pub struct UpdateBalancesBetween {
    pub step_name: String,
    pub args: DateStartDateEndArgs,
    /// The transactions added
    pub transactions: ReportingProductId,
    /// The balances added to
    pub opening: ReportingProductId,
}

/// A step of a reporting job
pub enum ReportingStep {
    Source(SourceStep),
    GenerateBalances(GenerateBalances),
    BalancesAtToBalancesBetween(BalancesAtToBalancesBetween),
    UpdateBalancesAt(UpdateBalancesAt),
    UpdateBalancesBetween(UpdateBalancesBetween),
}

/// The id of a step
pub open spec fn step_id(s: ReportingStep) -> StepIdView {
    match s {
        ReportingStep::Source(src) => src.id@,
        ReportingStep::GenerateBalances(g) => StepIdView {
            name: g.step_name@,
            kinds: seq![ReportingProductKind::BalancesAt],
            args: ReportingStepArgs::DateArgs(g.args)@,
        },
        ReportingStep::BalancesAtToBalancesBetween(b) => StepIdView {
            name: b.step_name@,
            kinds: seq![ReportingProductKind::BalancesBetween],
            args: ReportingStepArgs::DateStartDateEndArgs(b.args)@,
        },
        ReportingStep::UpdateBalancesAt(u) => StepIdView {
            name: u.step_name@,
            kinds: seq![ReportingProductKind::BalancesAt],
            args: ReportingStepArgs::DateArgs(u.args)@,
        },
        ReportingStep::UpdateBalancesBetween(u) => StepIdView {
            name: u.step_name@,
            kinds: seq![ReportingProductKind::BalancesBetween],
            args: ReportingStepArgs::DateStartDateEndArgs(u.args)@,
        },
    }
}

/// Whether a step is well formed (a source step's products match its id)
pub open spec fn step_wf(s: ReportingStep) -> bool {
    match s {
        ReportingStep::Source(src) => src.wf(),
        ReportingStep::BalancesAtToBalancesBetween(b) => b.args.date_start.days > i32::MIN,
        _ => true,
    }
}

/// The id of the product `kind` named `name` with arguments `args`
pub open spec fn product_view(
    name: Seq<char>,
    kind: ReportingProductKind,
    args: ReportingStepArgs,
) -> ProductIdView {
    ProductIdView { name, kind, args: args@ }
}

fn kinds_one(kind: ReportingProductKind) -> (r: Vec<ReportingProductKind>)
    ensures
        r@ == seq![kind],
{
    let mut v: Vec<ReportingProductKind> = Vec::new();
    v.push(kind);
    v
}

impl ReportingStep {
    /// The id of this step
    pub fn id(&self) -> (r: ReportingStepId)
        ensures
            r@ == step_id(*self),
    {
        match self {
            ReportingStep::Source(src) => src.id(),
            ReportingStep::GenerateBalances(g) => ReportingStepId {
                name: g.step_name.clone(),
                product_kinds: kinds_one(ReportingProductKind::BalancesAt),
                args: ReportingStepArgs::DateArgs(g.args),
            },
            ReportingStep::BalancesAtToBalancesBetween(b) => ReportingStepId {
                name: b.step_name.clone(),
                product_kinds: kinds_one(ReportingProductKind::BalancesBetween),
                args: ReportingStepArgs::DateStartDateEndArgs(b.args),
            },
            ReportingStep::UpdateBalancesAt(u) => ReportingStepId {
                name: u.step_name.clone(),
                product_kinds: kinds_one(ReportingProductKind::BalancesAt),
                args: ReportingStepArgs::DateArgs(u.args),
            },
            ReportingStep::UpdateBalancesBetween(u) => ReportingStepId {
                name: u.step_name.clone(),
                product_kinds: kinds_one(ReportingProductKind::BalancesBetween),
                args: ReportingStepArgs::DateStartDateEndArgs(u.args),
            },
        }
    }

    /// The products that this step needs whatever the graph holds
    pub fn required_products(&self) -> (r: Vec<ReportingProductId>)
        requires
            step_wf(*self),
        ensures
            match *self {
                ReportingStep::Source(src) => r@.len() == src.needs@.len() && forall|i: int|
                    0 <= i < r@.len() ==> (#[trigger] r@[i])@ == src.needs@[i]@,
                ReportingStep::BalancesAtToBalancesBetween(b) => r@.len() == 2 && r@[0]@
                    == product_view(
                    b.step_name@,
                    ReportingProductKind::BalancesAt,
                    ReportingStepArgs::DateArgs(
                        DateArgs { date: Date { days: (b.args.date_start.days - 1) as i32 } },
                    ),
                ) && r@[1]@ == product_view(
                    b.step_name@,
                    ReportingProductKind::BalancesAt,
                    ReportingStepArgs::DateArgs(DateArgs { date: b.args.date_end }),
                ),
                _ => r@.len() == 0,
            },
    {
        let mut out: Vec<ReportingProductId> = Vec::new();
        match self {
            ReportingStep::Source(src) => {
                let n = src.needs.len();
                let mut i: usize = 0;
                while i < n
                    invariant
                        n == src.needs@.len(),
                        i <= n,
                        out@.len() == i,
                        forall|j: int| 0 <= j < i ==> (#[trigger] out@[j])@ == src.needs@[j]@,
                    decreases n - i,
                {
                    out.push(src.needs[i].copy());
                    i = i + 1;
                }
            },
            ReportingStep::BalancesAtToBalancesBetween(b) => {
                out.push(
                    ReportingProductId {
                        name: b.step_name.clone(),
                        kind: ReportingProductKind::BalancesAt,
                        args: ReportingStepArgs::DateArgs(
                            DateArgs { date: Date { days: b.args.date_start.days - 1 } },
                        ),
                    },
                );
                out.push(
                    ReportingProductId {
                        name: b.step_name.clone(),
                        kind: ReportingProductKind::BalancesAt,
                        args: ReportingStepArgs::DateArgs(DateArgs { date: b.args.date_end }),
                    },
                );
            },
            _ => {},
        }
        out
    }
}

// ---------------------------------------------------------------------------
// Context

/// A generic builder: makes a step for a product that no step or lookup
/// offers
#[derive(Clone, Copy, Debug, PartialEq, Eq, Structural)]
pub enum ReportingStepDynamicBuilder {
    /// Balances over a range from the balances at its two ends
    BalancesAtToBalancesBetween,
    /// Balances at a date from the transactions of a step with no dependency
    GenerateBalances,
    /// Balances at a date rolled forward by the transactions of a step that
    /// needs one balances product
    UpdateBalancesAt,
    /// Balances over a range updated by the transactions of a step that needs
    /// balances over a range
    UpdateBalancesBetween,
}

/// The configuration of a reporting job: its dates and commodity, the steps
/// that lookups may add, and the generic builders, tried in order
pub struct ReportingContext {
    pub eofy_date: Date,
    pub reporting_commodity: String,
    pub step_lookup: Vec<Option<SourceStep>>,
    pub step_dynamic_builders: Vec<ReportingStepDynamicBuilder>,
}

impl ReportingContext {
    /// A context with no lookup and no builder
    pub fn new(eofy_date: Date, reporting_commodity: String) -> (r: ReportingContext)
        ensures
            r.eofy_date == eofy_date,
            r.reporting_commodity == reporting_commodity,
            r.wf(),
            r.lookups().len() == 0,
            r.builders().len() == 0,
    {
        ReportingContext {
            eofy_date,
            reporting_commodity,
            step_lookup: Vec::new(),
            step_dynamic_builders: Vec::new(),
        }
    }

    /// Whether each step offered to lookups is well formed
    pub open spec fn wf(&self) -> bool {
        forall|i: int|
            0 <= i < self.step_lookup@.len() ==> (#[trigger] self.step_lookup@[i] matches Some(s)
                ==> s.wf())
    }

    /// The steps offered to lookups
    pub open spec fn lookups(&self) -> Seq<Option<SourceStep>> {
        self.step_lookup@
    }

    /// The generic builders, in the order they are tried
    pub open spec fn builders(&self) -> Seq<ReportingStepDynamicBuilder> {
        self.step_dynamic_builders@
    }

    /// Offer `step` to lookups: it joins the graph when a product it makes is
    /// needed and no step of the graph makes it
    pub fn register_lookup_fn(&mut self, step: SourceStep)
        requires
            old(self).wf(),
            step.wf(),
        ensures
            final(self).wf(),
            final(self).lookups() == old(self).lookups().push(Some(step)),
            final(self).builders() == old(self).builders(),
            final(self).eofy_date == old(self).eofy_date,
    {
        self.step_lookup.push(Some(step));
    }

    /// Add a generic builder, unless it is already registered
    pub fn register_dynamic_builder(&mut self, builder: ReportingStepDynamicBuilder)
        requires
            old(self).wf(),
        ensures
            final(self).wf(),
            final(self).lookups() == old(self).lookups(),
            final(self).builders() == if old(self).builders().contains(builder) {
                old(self).builders()
            } else {
                old(self).builders().push(builder)
            },
            final(self).builders().contains(builder),
            forall|b: ReportingStepDynamicBuilder|
                old(self).builders().contains(b) ==> #[trigger] final(self).builders().contains(b),
            final(self).eofy_date == old(self).eofy_date,
    {
        let n = self.step_dynamic_builders.len();
        let mut i: usize = 0;
        while i < n
            invariant
                n == self.step_dynamic_builders@.len(),
                i <= n,
                self.step_dynamic_builders@ == old(self).step_dynamic_builders@,
                self.step_lookup@ == old(self).step_lookup@,
                self.eofy_date == old(self).eofy_date,
                self.wf(),
                forall|j: int| 0 <= j < i ==> self.step_dynamic_builders@[j] != builder,
            decreases n - i,
        {
            if self.step_dynamic_builders[i] == builder {
                assert(old(self).builders()[i as int] == builder);
                return;
            }
            i = i + 1;
        }
        let ghost before = self.builders();
        self.step_dynamic_builders.push(builder);
        proof {
            assert(self.builders()[before.len() as int] == builder);
            assert forall|b: ReportingStepDynamicBuilder| before.contains(b) implies #[trigger] self.builders().contains(b) by {
                let i = choose|i: int| 0 <= i < before.len() && before[i] == b;
                assert(self.builders()[i] == b);
            }
        }
    }
}

/// The builders `bs` after registering `b`: unchanged if it is there, else
/// with `b` last
pub open spec fn with_builder(
    bs: Seq<ReportingStepDynamicBuilder>,
    b: ReportingStepDynamicBuilder,
) -> Seq<ReportingStepDynamicBuilder> {
    if bs.contains(b) {
        bs
    } else {
        bs.push(b)
    }
}

/// Register the generic builders, in this order: balances from transactions,
/// the two incremental updates (over a range, then at a date), and last the
/// difference of two points, the least efficient way to balances over a range
pub fn register_dynamic_builders(context: &mut ReportingContext)
    requires
        old(context).wf(),
    ensures
        final(context).wf(),
        final(context).lookups() == old(context).lookups(),
        final(context).eofy_date == old(context).eofy_date,
        final(context).builders() == with_builder(
            with_builder(
                with_builder(
                    with_builder(old(context).builders(), ReportingStepDynamicBuilder::GenerateBalances),
                    ReportingStepDynamicBuilder::UpdateBalancesBetween,
                ),
                ReportingStepDynamicBuilder::UpdateBalancesAt,
            ),
            ReportingStepDynamicBuilder::BalancesAtToBalancesBetween,
        ),
        old(context).builders().len() == 0 ==> final(context).builders() == seq![
            ReportingStepDynamicBuilder::GenerateBalances,
            ReportingStepDynamicBuilder::UpdateBalancesBetween,
            ReportingStepDynamicBuilder::UpdateBalancesAt,
            ReportingStepDynamicBuilder::BalancesAtToBalancesBetween,
        ],
{
    let ghost b0 = context.builders();
    context.register_dynamic_builder(ReportingStepDynamicBuilder::GenerateBalances);
    context.register_dynamic_builder(ReportingStepDynamicBuilder::UpdateBalancesBetween);
    context.register_dynamic_builder(ReportingStepDynamicBuilder::UpdateBalancesAt);
    context.register_dynamic_builder(ReportingStepDynamicBuilder::BalancesAtToBalancesBetween);
    proof {
        if b0.len() == 0 {
            let s1 = with_builder(b0, ReportingStepDynamicBuilder::GenerateBalances);
            assert(s1 =~= seq![ReportingStepDynamicBuilder::GenerateBalances]);
            let s2 = with_builder(s1, ReportingStepDynamicBuilder::UpdateBalancesBetween);
            assert(!s1.contains(ReportingStepDynamicBuilder::UpdateBalancesBetween));
            assert(s2 =~= seq![ReportingStepDynamicBuilder::GenerateBalances, ReportingStepDynamicBuilder::UpdateBalancesBetween]);
            let s3 = with_builder(s2, ReportingStepDynamicBuilder::UpdateBalancesAt);
            assert(!s2.contains(ReportingStepDynamicBuilder::UpdateBalancesAt));
            let s4 = with_builder(s3, ReportingStepDynamicBuilder::BalancesAtToBalancesBetween);
            assert(!s3.contains(ReportingStepDynamicBuilder::BalancesAtToBalancesBetween));
            assert(s4 =~= seq![
                ReportingStepDynamicBuilder::GenerateBalances,
                ReportingStepDynamicBuilder::UpdateBalancesBetween,
                ReportingStepDynamicBuilder::UpdateBalancesAt,
                ReportingStepDynamicBuilder::BalancesAtToBalancesBetween,
            ]);
        }
    }
}

} // verus!

verus! {

// ---------------------------------------------------------------------------
// Resolution

/// Whether some step of `steps` makes the product `p`
pub open spec fn produced(steps: Seq<ReportingStep>, p: ProductIdView) -> bool {
    exists|i: int| 0 <= i < steps.len() && produces(step_id(#[trigger] steps[i]), p)
}

/// Whether some step still offered to lookups makes the product `p`
pub open spec fn offered(lookups: Seq<Option<SourceStep>>, p: ProductIdView) -> bool {
    exists|i: int|
        0 <= i < lookups.len() && (#[trigger] lookups[i] matches Some(s) && produces(s.id@, p))
}

/// Whether `i` is the first index of `steps` whose step makes `p`
pub open spec fn is_first_producer(steps: Seq<ReportingStep>, p: ProductIdView, i: int) -> bool {
    &&& 0 <= i < steps.len()
    &&& produces(step_id(steps[i]), p)
    &&& forall|j: int| 0 <= j < i ==> !produces(step_id(#[trigger] steps[j]), p)
}

/// The first index of `steps` whose step makes `p`
pub open spec fn first_producer(steps: Seq<ReportingStep>, p: ProductIdView) -> Option<int> {
    if exists|i: int| is_first_producer(steps, p, i) {
        Some(choose|i: int| is_first_producer(steps, p, i))
    } else {
        None
    }
}

/// Whether `i` is the first slot of `lookups` whose step makes `p`
pub open spec fn is_first_lookup(lookups: Seq<Option<SourceStep>>, p: ProductIdView, i: int) -> bool {
    &&& 0 <= i < lookups.len()
    &&& lookups[i] matches Some(s) && produces(s.id@, p)
    &&& forall|j: int|
        0 <= j < i ==> !(#[trigger] lookups[j] matches Some(s) && produces(s.id@, p))
}

/// The first slot of `lookups` whose step makes `p`
pub open spec fn first_lookup(lookups: Seq<Option<SourceStep>>, p: ProductIdView) -> Option<int> {
    if exists|i: int| is_first_lookup(lookups, p, i) {
        Some(choose|i: int| is_first_lookup(lookups, p, i))
    } else {
        None
    }
}

/// Whether the transactions `p` come from a step with no dependency: the
/// first step of the graph that makes them has no edge, or, when none does,
/// the first lookup step that makes them needs nothing
pub open spec fn independent_source(
    p: ProductIdView,
    steps: Seq<ReportingStep>,
    deps: Seq<DependencyView>,
    lookups: Seq<Option<SourceStep>>,
) -> bool {
    match first_producer(steps, p) {
        Some(i) => crate::graph::step_dependencies(deps, step_id(steps[i])).len() == 0,
        None => match first_lookup(lookups, p) {
            Some(j) => lookups[j] matches Some(s) && s.needs@.len() == 0,
            None => false,
        },
    }
}

/// The transactions named `name` with arguments `args`
pub open spec fn transactions_view(name: Seq<char>, args: ArgsView) -> ProductIdView {
    ProductIdView { name, kind: ReportingProductKind::Transactions, args }
}

/// Whether [GenerateBalances] can make `p`: balances at a date, with the
/// transactions of that name and date, or else of that name and no argument,
/// coming from a step with no dependency
pub open spec fn can_generate(
    p: ProductIdView,
    steps: Seq<ReportingStep>,
    deps: Seq<DependencyView>,
    lookups: Seq<Option<SourceStep>>,
) -> bool {
    p.kind == ReportingProductKind::BalancesAt && match p.args {
        ArgsView::Date(d) => independent_source(
            transactions_view(p.name, ArgsView::Date(d)),
            steps,
            deps,
            lookups,
        ) || independent_source(transactions_view(p.name, ArgsView::Void), steps, deps, lookups),
        _ => false,
    }
}

/// Whether `i` is the first step of `steps` named `name` that makes
/// transactions
pub open spec fn is_first_transactions_step(steps: Seq<ReportingStep>, name: Seq<char>, i: int) -> bool {
    &&& 0 <= i < steps.len()
    &&& step_id(steps[i]).name == name && step_id(steps[i]).kinds.contains(ReportingProductKind::Transactions)
    &&& forall|j: int|
        0 <= j < i ==> !(step_id(#[trigger] steps[j]).name == name && step_id(steps[j]).kinds.contains(
            ReportingProductKind::Transactions,
        ))
}

/// The id of the first step of the graph named `name` that makes
/// transactions, with the one product it needs, when it needs exactly one
pub open spec fn transactions_parent_view(
    steps: Seq<ReportingStep>,
    deps: Seq<DependencyView>,
    name: Seq<char>,
) -> Option<(StepIdView, ProductIdView)> {
    if exists|i: int| is_first_transactions_step(steps, name, i) {
        let i = choose|i: int| is_first_transactions_step(steps, name, i);
        let edges = crate::graph::step_dependencies(deps, step_id(steps[i]));
        if edges.len() == 1 {
            Some((step_id(steps[i]), edges[0].dependency))
        } else {
            None
        }
    } else {
        None
    }
}

/// The transactions and opening balances of the [UpdateBalancesAt] step for
/// `p`, when that builder applies: `p` is balances at a date, and the first
/// transactions step of its name needs one product, balances at a point (the
/// opening), or balances over a range with the balances under that name at
/// the date obtainable (the opening)
pub open spec fn update_at_inputs(
    p: ProductIdView,
    steps: Seq<ReportingStep>,
    deps: Seq<DependencyView>,
    lookups: Seq<Option<SourceStep>>,
    builders: Seq<ReportingStepDynamicBuilder>,
    fuel: int,
) -> Option<(ProductIdView, ProductIdView)>
    decreases fuel, 2int,
{
    if p.kind != ReportingProductKind::BalancesAt || !(p.args is Date) {
        None
    } else {
        match transactions_parent_view(steps, deps, p.name) {
            Some((parent, dep)) => {
                let transactions = transactions_view(p.name, parent.args);
                if dep.kind == ReportingProductKind::BalancesAt {
                    Some((transactions, dep))
                } else if dep.kind == ReportingProductKind::BalancesBetween {
                    let opening = ProductIdView {
                        name: dep.name,
                        kind: ReportingProductKind::BalancesAt,
                        args: p.args,
                    };
                    if balances_obtainable(opening, steps, deps, lookups, builders, fuel) {
                        Some((transactions, opening))
                    } else {
                        None
                    }
                } else {
                    None
                }
            },
            None => None,
        }
    }
}

/// Whether some step or lookup makes the balances `p`, or a registered
/// builder can: [GenerateBalances], or [UpdateBalancesAt] while `fuel` lasts
pub open spec fn balances_obtainable(
    p: ProductIdView,
    steps: Seq<ReportingStep>,
    deps: Seq<DependencyView>,
    lookups: Seq<Option<SourceStep>>,
    builders: Seq<ReportingStepDynamicBuilder>,
    fuel: int,
) -> bool
    decreases fuel, 1int,
{
    produced(steps, p) || offered(lookups, p) || (builders.contains(
        ReportingStepDynamicBuilder::GenerateBalances,
    ) && can_generate(p, steps, deps, lookups)) || (fuel > 0 && builders.contains(
        ReportingStepDynamicBuilder::UpdateBalancesAt,
    ) && update_at_inputs(p, steps, deps, lookups, builders, fuel - 1) is Some)
}

/// Whether [BalancesAtToBalancesBetween] can make `p`: balances over a range
/// whose balances at the day before its start and at its end are obtainable
pub open spec fn can_take_difference(
    p: ProductIdView,
    steps: Seq<ReportingStep>,
    deps: Seq<DependencyView>,
    lookups: Seq<Option<SourceStep>>,
    builders: Seq<ReportingStepDynamicBuilder>,
) -> bool {
    p.kind == ReportingProductKind::BalancesBetween && match p.args {
        ArgsView::DateRange(a) => a.date_start.days > i32::MIN && balances_obtainable(
            ProductIdView {
                name: p.name,
                kind: ReportingProductKind::BalancesAt,
                args: ArgsView::Date(Date { days: (a.date_start.days - 1) as i32 }),
            },
            steps,
            deps,
            lookups,
            builders,
            steps.len() as int,
        ) && balances_obtainable(
            ProductIdView {
                name: p.name,
                kind: ReportingProductKind::BalancesAt,
                args: ArgsView::Date(a.date_end),
            },
            steps,
            deps,
            lookups,
            builders,
            steps.len() as int,
        ),
        _ => false,
    }
}

/// The transactions and opening balances of the [UpdateBalancesBetween] step
/// for `p`, when that builder applies: `p` is balances over a range, and the
/// first transactions step of its name needs one product, balances over a
/// range
pub open spec fn update_between_inputs(
    p: ProductIdView,
    steps: Seq<ReportingStep>,
    deps: Seq<DependencyView>,
) -> Option<(ProductIdView, ProductIdView)> {
    if p.kind != ReportingProductKind::BalancesBetween || !(p.args is DateRange) {
        None
    } else {
        match transactions_parent_view(steps, deps, p.name) {
            Some((parent, dep)) => if dep.kind == ReportingProductKind::BalancesBetween {
                Some(
                    (
                        transactions_view(p.name, parent.args),
                        ProductIdView {
                            name: dep.name,
                            kind: ReportingProductKind::BalancesBetween,
                            args: p.args,
                        },
                    ),
                )
            } else {
                None
            },
            None => None,
        }
    }
}

/// Whether the builder `b` can make a step for `p`
pub open spec fn builder_applies(
    b: ReportingStepDynamicBuilder,
    p: ProductIdView,
    steps: Seq<ReportingStep>,
    deps: Seq<DependencyView>,
    lookups: Seq<Option<SourceStep>>,
    builders: Seq<ReportingStepDynamicBuilder>,
) -> bool {
    match b {
        ReportingStepDynamicBuilder::BalancesAtToBalancesBetween => can_take_difference(
            p,
            steps,
            deps,
            lookups,
            builders,
        ),
        ReportingStepDynamicBuilder::GenerateBalances => can_generate(p, steps, deps, lookups),
        ReportingStepDynamicBuilder::UpdateBalancesAt => update_at_inputs(
            p,
            steps,
            deps,
            lookups,
            builders,
            steps.len() as int,
        ) is Some,
        ReportingStepDynamicBuilder::UpdateBalancesBetween => update_between_inputs(p, steps, deps) is Some,
    }
}

/// Whether `s` is the step that the builder `b` makes for `p`
pub open spec fn built_step(
    s: ReportingStep,
    b: ReportingStepDynamicBuilder,
    p: ProductIdView,
    steps: Seq<ReportingStep>,
    deps: Seq<DependencyView>,
    lookups: Seq<Option<SourceStep>>,
    builders: Seq<ReportingStepDynamicBuilder>,
) -> bool {
    &&& step_id(s).name == p.name
    &&& step_id(s).args == p.args
    &&& match (b, s) {
        (ReportingStepDynamicBuilder::BalancesAtToBalancesBetween, ReportingStep::BalancesAtToBalancesBetween(_)) => true,
        (ReportingStepDynamicBuilder::GenerateBalances, ReportingStep::GenerateBalances(_)) => true,
        (ReportingStepDynamicBuilder::UpdateBalancesAt, ReportingStep::UpdateBalancesAt(u)) => update_at_inputs(
            p,
            steps,
            deps,
            lookups,
            builders,
            steps.len() as int,
        ) == Some((u.transactions@, u.opening@)),
        (ReportingStepDynamicBuilder::UpdateBalancesBetween, ReportingStep::UpdateBalancesBetween(u)) => update_between_inputs(
            p,
            steps,
            deps,
        ) == Some((u.transactions@, u.opening@)),
        _ => false,
    }
}

/// Whether `k` is the first registered builder that can make a step for `p`
pub open spec fn is_first_builder(
    p: ProductIdView,
    steps: Seq<ReportingStep>,
    deps: Seq<DependencyView>,
    lookups: Seq<Option<SourceStep>>,
    builders: Seq<ReportingStepDynamicBuilder>,
    k: int,
) -> bool {
    &&& 0 <= k < builders.len()
    &&& builder_applies(builders[k], p, steps, deps, lookups, builders)
    &&& forall|j: int|
        0 <= j < k ==> !builder_applies(#[trigger] builders[j], p, steps, deps, lookups, builders)
}

/// Whether some registered builder can make a step for `p`
pub open spec fn some_builder_applies(
    p: ProductIdView,
    steps: Seq<ReportingStep>,
    deps: Seq<DependencyView>,
    lookups: Seq<Option<SourceStep>>,
    builders: Seq<ReportingStepDynamicBuilder>,
) -> bool {
    exists|k: int|
        0 <= k < builders.len() && builder_applies(#[trigger] builders[k], p, steps, deps, lookups, builders)
}

/// Index of the first step of `steps` that makes `product`
fn find_producer(steps: &Vec<ReportingStep>, product: &ReportingProductId) -> (r: Option<usize>)
    ensures
        match r {
            Some(i) => i < steps@.len() && produces(step_id(steps@[i as int]), product@)
                && first_producer(steps@, product@) == Some(i as int),
            None => (forall|i: int|
                0 <= i < steps@.len() ==> !produces(step_id(#[trigger] steps@[i]), product@))
                && first_producer(steps@, product@) is None,
        },
{
    let n = steps.len();
    let mut i: usize = 0;
    while i < n
        invariant
            n == steps@.len(),
            i <= n,
            forall|j: int| 0 <= j < i ==> !produces(step_id(#[trigger] steps@[j]), product@),
        decreases n - i,
    {
        let id = steps[i].id();
        if id.produces(product) {
            proof {
                assert(is_first_producer(steps@, product@, i as int));
                let c = choose|c: int| is_first_producer(steps@, product@, c);
                if c < i {
                    assert(!produces(step_id(steps@[c]), product@));
                }
                if c > i {
                    assert(!produces(step_id(steps@[i as int]), product@));
                }
            }
            return Some(i);
        }
        i = i + 1;
    }
    None
}

/// Index of the first step still offered to lookups that makes `product`
fn find_lookup(context: &ReportingContext, product: &ReportingProductId) -> (r: Option<usize>)
    ensures
        r matches Some(i) ==> (i < context.step_lookup@.len() && (context.step_lookup@[i as int] matches Some(s)
            && produces(s.id@, product@))),
        r matches Some(i) ==> first_lookup(context.step_lookup@, product@) == Some(i as int),
        r is None ==> !offered(context.step_lookup@, product@),
        r is None ==> first_lookup(context.step_lookup@, product@) is None,
{
    let n = context.step_lookup.len();
    let mut i: usize = 0;
    while i < n
        invariant
            n == context.step_lookup@.len(),
            i <= n,
            forall|j: int|
                0 <= j < i ==> !(#[trigger] context.step_lookup@[j] matches Some(s) && produces(
                    s.id@,
                    product@,
                )),
        decreases n - i,
    {
        match &context.step_lookup[i] {
            Some(s) => {
                if s.id.produces(product) {
                    proof {
                        let l = context.step_lookup@;
                        assert(is_first_lookup(l, product@, i as int));
                        let c = choose|c: int| is_first_lookup(l, product@, c);
                        if c < i {
                            assert(!(l[c] matches Some(s) && produces(s.id@, product@)));
                        }
                        if c > i {
                            assert(!(l[i as int] matches Some(s) && produces(s.id@, product@)));
                        }
                    }
                    return Some(i);
                }
            },
            None => {},
        }
        i = i + 1;
    }
    None
}

/// Whether the transactions `product` come from a step of the graph that
/// has no dependency, or from a lookup step that needs nothing
fn has_independent_source(
    product: &ReportingProductId,
    steps: &Vec<ReportingStep>,
    dependencies: &ReportingGraphDependencies,
    context: &ReportingContext,
) -> (r: bool)
    ensures
        r == independent_source(product@, steps@, dependencies@, context.step_lookup@),
{
    match find_producer(steps, product) {
        Some(i) => {
            let id = steps[i].id();
            dependencies.dependencies_for_step(&id).len() == 0
        },
        None => match find_lookup(context, product) {
            Some(j) => match &context.step_lookup[j] {
                Some(s) => s.needs.len() == 0,
                None => false,
            },
            None => false,
        },
    }
}

fn transactions_id(name: &String, args: ReportingStepArgs) -> (r: ReportingProductId)
    ensures
        r@ == product_view(name@, ReportingProductKind::Transactions, args),
        r@ == transactions_view(name@, args@),
{
    ReportingProductId { name: name.clone(), kind: ReportingProductKind::Transactions, args }
}

/// Whether [GenerateBalances] can make `product`: balances at a date, with
/// transactions of the same name and date, or else with no argument, coming
/// from a step with no dependency
fn can_build_generate_balances(
    product: &ReportingProductId,
    steps: &Vec<ReportingStep>,
    dependencies: &ReportingGraphDependencies,
    context: &ReportingContext,
) -> (r: bool)
    ensures
        r == can_generate(product@, steps@, dependencies@, context.step_lookup@),
        r ==> product.kind == ReportingProductKind::BalancesAt && product.args is DateArgs,
{
    if product.kind != ReportingProductKind::BalancesAt {
        return false;
    }
    match &product.args {
        ReportingStepArgs::DateArgs(a) => {
            let dated = transactions_id(&product.name, ReportingStepArgs::DateArgs(*a));
            if has_independent_source(&dated, steps, dependencies, context) {
                return true;
            }
            let undated = transactions_id(&product.name, ReportingStepArgs::VoidArgs(VoidArgs {  }));
            has_independent_source(&undated, steps, dependencies, context)
        },
        _ => false,
    }
}

/// Whether `builder` is registered in `context`
fn builder_registered(context: &ReportingContext, builder: ReportingStepDynamicBuilder) -> (r:
    bool)
    ensures
        r == context.builders().contains(builder),
{
    let n = context.step_dynamic_builders.len();
    let mut i: usize = 0;
    while i < n
        invariant
            n == context.step_dynamic_builders@.len(),
            i <= n,
            forall|j: int| 0 <= j < i ==> context.step_dynamic_builders@[j] != builder,
        decreases n - i,
    {
        if context.step_dynamic_builders[i] == builder {
            assert(context.builders()[i as int] == builder);
            return true;
        }
        i = i + 1;
    }
    false
}

/// Whether some step or lookup makes the balances `product`, or a registered
/// builder can make them: [GenerateBalances], or [UpdateBalancesAt] while
/// `fuel` lasts (each use of it moves to the balances under the name of
/// another step of the graph, so the number of steps is fuel enough)
fn balances_at_obtainable(
    product: &ReportingProductId,
    steps: &Vec<ReportingStep>,
    dependencies: &ReportingGraphDependencies,
    context: &ReportingContext,
    fuel: usize,
) -> (r: bool)
    ensures
        r == balances_obtainable(
            product@,
            steps@,
            dependencies@,
            context.step_lookup@,
            context.builders(),
            fuel as int,
        ),
    decreases fuel, 1int,
{
    let in_steps = find_producer(steps, product);
    proof {
        if let Some(i) = in_steps {
            assert(produces(step_id(steps@[i as int]), product@));
        }
    }
    if in_steps.is_some() {
        return true;
    }
    let in_lookups = find_lookup(context, product);
    if in_lookups.is_some() {
        return true;
    }
    if builder_registered(context, ReportingStepDynamicBuilder::GenerateBalances)
        && can_build_generate_balances(product, steps, dependencies, context) {
        return true;
    }
    fuel > 0 && builder_registered(context, ReportingStepDynamicBuilder::UpdateBalancesAt)
        && build_update_balances_at(product, steps, dependencies, context, fuel - 1).is_some()
}

/// Whether [BalancesAtToBalancesBetween] can make `product`: balances over a
/// date range whose balances at the day before its start and at its end are
/// obtainable
fn can_build_balances_between(
    product: &ReportingProductId,
    steps: &Vec<ReportingStep>,
    dependencies: &ReportingGraphDependencies,
    context: &ReportingContext,
) -> (r: bool)
    ensures
        r == can_take_difference(
            product@,
            steps@,
            dependencies@,
            context.step_lookup@,
            context.builders(),
        ),
        r ==> (product.kind == ReportingProductKind::BalancesBetween && (product.args matches ReportingStepArgs::DateStartDateEndArgs(a)
            && a.date_start.days > i32::MIN)),
{
    if product.kind != ReportingProductKind::BalancesBetween {
        return false;
    }
    match &product.args {
        ReportingStepArgs::DateStartDateEndArgs(a) => {
            if a.date_start.days == i32::MIN {
                return false;
            }
            let opening = ReportingProductId {
                name: product.name.clone(),
                kind: ReportingProductKind::BalancesAt,
                args: ReportingStepArgs::DateArgs(
                    DateArgs { date: Date { days: a.date_start.days - 1 } },
                ),
            };
            let closing = ReportingProductId {
                name: product.name.clone(),
                kind: ReportingProductKind::BalancesAt,
                args: ReportingStepArgs::DateArgs(DateArgs { date: a.date_end }),
            };
            balances_at_obtainable(&opening, steps, dependencies, context, steps.len())
                && balances_at_obtainable(&closing, steps, dependencies, context, steps.len())
        },
        _ => false,
    }
}

/// The first step of the graph named `name` that makes transactions, with
/// the one product it needs, when it needs exactly one
fn transactions_parent(
    name: &String,
    steps: &Vec<ReportingStep>,
    dependencies: &ReportingGraphDependencies,
) -> (r: Option<(ReportingStepId, ReportingProductId)>)
    ensures
        match r {
            Some((id, d)) => transactions_parent_view(steps@, dependencies@, name@) == Some(
                (id@, d@),
            ),
            None => transactions_parent_view(steps@, dependencies@, name@) is None,
        },
{
    let n = steps.len();
    let mut i: usize = 0;
    while i < n
        invariant
            n == steps@.len(),
            i <= n,
            forall|j: int|
                0 <= j < i ==> !(step_id(#[trigger] steps@[j]).name == name@ && step_id(
                    steps@[j],
                ).kinds.contains(ReportingProductKind::Transactions)),
        decreases n - i,
    {
        let id = steps[i].id();
        if id.makes_kind(name, ReportingProductKind::Transactions) {
            proof {
                assert(is_first_transactions_step(steps@, name@, i as int));
                let c = choose|c: int| is_first_transactions_step(steps@, name@, c);
                if c < i {
                    assert(!(step_id(steps@[c]).name == name@ && step_id(steps@[c]).kinds.contains(
                        ReportingProductKind::Transactions,
                    )));
                }
                if c > i {
                    assert(!(step_id(steps@[i as int]).name == name@ && step_id(
                        steps@[i as int],
                    ).kinds.contains(ReportingProductKind::Transactions)));
                }
                assert(c == i);
            }
            let edges = dependencies.dependencies_for_step(&id);
            if edges.len() == 1 {
                let dependency = edges[0].dependency.copy();
                assert(edges@[0]@ == crate::graph::step_dependencies(dependencies@, id@)[0]);
                return Some((id, dependency));
            }
            return None;
        }
        i = i + 1;
    }
    None
}

/// [UpdateBalancesAt] for `product`, when that builder applies (see
/// [update_at_inputs])
fn build_update_balances_at(
    product: &ReportingProductId,
    steps: &Vec<ReportingStep>,
    dependencies: &ReportingGraphDependencies,
    context: &ReportingContext,
    fuel: usize,
) -> (r: Option<UpdateBalancesAt>)
    ensures
        match r {
            Some(u) => product.kind == ReportingProductKind::BalancesAt && u.step_name@
                == product.name@ && product.args@ == ReportingStepArgs::DateArgs(u.args)@
                && update_at_inputs(
                product@,
                steps@,
                dependencies@,
                context.step_lookup@,
                context.builders(),
                fuel as int,
            ) == Some((u.transactions@, u.opening@)),
            None => update_at_inputs(
                product@,
                steps@,
                dependencies@,
                context.step_lookup@,
                context.builders(),
                fuel as int,
            ) is None,
        },
    decreases fuel, 2int,
{
    if product.kind != ReportingProductKind::BalancesAt {
        return None;
    }
    let args = match &product.args {
        ReportingStepArgs::DateArgs(a) => *a,
        _ => {
            return None;
        },
    };
    match transactions_parent(&product.name, steps, dependencies) {
        Some((parent, dependency)) => {
            let transactions = transactions_id(&product.name, parent.args.copy());
            if dependency.kind == ReportingProductKind::BalancesAt {
                Some(
                    UpdateBalancesAt {
                        step_name: product.name.clone(),
                        args,
                        transactions,
                        opening: dependency,
                    },
                )
            } else if dependency.kind == ReportingProductKind::BalancesBetween {
                let opening = ReportingProductId {
                    name: dependency.name.clone(),
                    kind: ReportingProductKind::BalancesAt,
                    args: ReportingStepArgs::DateArgs(args),
                };
                if balances_at_obtainable(&opening, steps, dependencies, context, fuel) {
                    Some(
                        UpdateBalancesAt {
                            step_name: product.name.clone(),
                            args,
                            transactions,
                            opening,
                        },
                    )
                } else {
                    None
                }
            } else {
                None
            }
        },
        None => None,
    }
}

/// [UpdateBalancesBetween] for `product`, when that builder applies (see
/// [update_between_inputs])
fn build_update_balances_between(
    product: &ReportingProductId,
    steps: &Vec<ReportingStep>,
    dependencies: &ReportingGraphDependencies,
) -> (r: Option<UpdateBalancesBetween>)
    ensures
        match r {
            Some(u) => product.kind == ReportingProductKind::BalancesBetween && u.step_name@
                == product.name@ && product.args@ == ReportingStepArgs::DateStartDateEndArgs(
                u.args,
            )@ && update_between_inputs(product@, steps@, dependencies@) == Some(
                (u.transactions@, u.opening@),
            ),
            None => update_between_inputs(product@, steps@, dependencies@) is None,
        },
{
    if product.kind != ReportingProductKind::BalancesBetween {
        return None;
    }
    let args = match &product.args {
        ReportingStepArgs::DateStartDateEndArgs(a) => *a,
        _ => {
            return None;
        },
    };
    match transactions_parent(&product.name, steps, dependencies) {
        Some((parent, dependency)) => {
            if dependency.kind == ReportingProductKind::BalancesBetween {
                Some(
                    UpdateBalancesBetween {
                        step_name: product.name.clone(),
                        args,
                        transactions: transactions_id(&product.name, parent.args.copy()),
                        opening: ReportingProductId {
                            name: dependency.name.clone(),
                            kind: ReportingProductKind::BalancesBetween,
                            args: ReportingStepArgs::DateStartDateEndArgs(args),
                        },
                    },
                )
            } else {
                None
            }
        },
        None => None,
    }
}

/// The step that the first registered builder able to make `product` makes
/// for it; `None` when no registered builder can
fn try_builders(
    product: &ReportingProductId,
    steps: &Vec<ReportingStep>,
    dependencies: &ReportingGraphDependencies,
    context: &ReportingContext,
) -> (r: Option<ReportingStep>)
    ensures
        r matches Some(s) ==> step_wf(s) && produces(step_id(s), product@),
        match r {
            Some(s) => exists|k: int|
                is_first_builder(
                    product@,
                    steps@,
                    dependencies@,
                    context.step_lookup@,
                    context.builders(),
                    k,
                ) && built_step(
                    s,
                    context.builders()[k],
                    product@,
                    steps@,
                    dependencies@,
                    context.step_lookup@,
                    context.builders(),
                ),
            None => !some_builder_applies(
                product@,
                steps@,
                dependencies@,
                context.step_lookup@,
                context.builders(),
            ),
        },
{
    let ghost bs = context.builders();
    let ghost l = context.step_lookup@;
    let n = context.step_dynamic_builders.len();
    let mut i: usize = 0;
    while i < n
        invariant
            n == context.step_dynamic_builders@.len(),
            bs == context.builders(),
            l == context.step_lookup@,
            i <= n,
            forall|j: int|
                0 <= j < i ==> !builder_applies(#[trigger] bs[j], product@, steps@, dependencies@, l, bs),
        decreases n - i,
    {
        let b = context.step_dynamic_builders[i];
        assert(bs[i as int] == b);
        match b {
            ReportingStepDynamicBuilder::BalancesAtToBalancesBetween => {
                if can_build_balances_between(product, steps, dependencies, context) {
                    match &product.args {
                        ReportingStepArgs::DateStartDateEndArgs(a) => {
                            let s = ReportingStep::BalancesAtToBalancesBetween(
                                BalancesAtToBalancesBetween {
                                    step_name: product.name.clone(),
                                    args: *a,
                                },
                            );
                            assert(step_id(s).kinds[0] == product.kind);
                            assert(is_first_builder(product@, steps@, dependencies@, l, bs, i as int));
                            return Some(s);
                        },
                        _ => {},
                    }
                }
            },
            ReportingStepDynamicBuilder::GenerateBalances => {
                if can_build_generate_balances(product, steps, dependencies, context) {
                    match &product.args {
                        ReportingStepArgs::DateArgs(a) => {
                            let s = ReportingStep::GenerateBalances(
                                GenerateBalances { step_name: product.name.clone(), args: *a },
                            );
                            assert(step_id(s).kinds[0] == product.kind);
                            assert(is_first_builder(product@, steps@, dependencies@, l, bs, i as int));
                            return Some(s);
                        },
                        _ => {},
                    }
                }
            },
            ReportingStepDynamicBuilder::UpdateBalancesAt => {
                match build_update_balances_at(product, steps, dependencies, context, steps.len()) {
                    Some(u) => {
                        let s = ReportingStep::UpdateBalancesAt(u);
                        assert(step_id(s).kinds[0] == product.kind);
                        assert(is_first_builder(product@, steps@, dependencies@, l, bs, i as int));
                        return Some(s);
                    },
                    None => {},
                }
            },
            ReportingStepDynamicBuilder::UpdateBalancesBetween => {
                match build_update_balances_between(product, steps, dependencies) {
                    Some(u) => {
                        let s = ReportingStep::UpdateBalancesBetween(u);
                        assert(step_id(s).kinds[0] == product.kind);
                        assert(is_first_builder(product@, steps@, dependencies@, l, bs, i as int));
                        return Some(s);
                    },
                    None => {},
                }
            },
        }
        i = i + 1;
    }
    None
}

/// Record the edges of a step that has just joined the graph: a source
/// step's declared needs, the two opening and closing balances of
/// [BalancesAtToBalancesBetween], the transactions that [GenerateBalances]
/// folds (those of its own date when some step or lookup offers them, else
/// those with no argument), and the transactions and opening balances of the
/// two incremental updates
pub fn init_graph(
    step: &ReportingStep,
    steps: &Vec<ReportingStep>,
    dependencies: &mut ReportingGraphDependencies,
    context: &ReportingContext,
)
    requires
        step_wf(*step),
    ensures
        final(dependencies)@ == init_edges(
            old(dependencies)@,
            *step,
            steps@,
            context.step_lookup@,
        ),
        forall|i: int|
            0 <= i < final(dependencies)@.len() ==> (#[trigger] final(dependencies)@[i]).step
                == step_id(*step) || old(dependencies)@.contains(final(dependencies)@[i]),
{
    let id = step.id();
    match step {
        ReportingStep::GenerateBalances(g) => {
            let dated = transactions_id(&g.step_name, ReportingStepArgs::DateArgs(g.args));
            let in_steps = find_producer(steps, &dated);
            let in_lookups = find_lookup(context, &dated);
            proof {
                if let Some(i) = in_steps {
                    assert(produces(step_id(steps@[i as int]), dated@));
                }
                if let Some(j) = in_lookups {
                    assert(context.step_lookup@[j as int] matches Some(s) && produces(s.id@, dated@));
                }
            }
            if in_steps.is_some() || in_lookups.is_some() {
                dependencies.add_dependency(id, dated);
            } else {
                dependencies.add_dependency(
                    id,
                    transactions_id(&g.step_name, ReportingStepArgs::VoidArgs(VoidArgs {  })),
                );
            }
        },
        ReportingStep::UpdateBalancesAt(u) => {
            let ghost before = dependencies@;
            dependencies.add_dependency(id.copy(), u.transactions.copy());
            let ghost mid = dependencies@;
            dependencies.add_dependency(id, u.opening.copy());
            proof {
                assert forall|k: int|
                    0 <= k < dependencies@.len() implies (#[trigger] dependencies@[k]).step
                        == step_id(*step) || old(dependencies)@.contains(dependencies@[k]) by {
                    if k < mid.len() {
                        assert(dependencies@[k] == mid[k]);
                        if k < before.len() {
                            assert(mid[k] == before[k]);
                        }
                    }
                }
            }
        },
        ReportingStep::UpdateBalancesBetween(u) => {
            let ghost before = dependencies@;
            dependencies.add_dependency(id.copy(), u.transactions.copy());
            let ghost mid = dependencies@;
            dependencies.add_dependency(id, u.opening.copy());
            proof {
                assert forall|k: int|
                    0 <= k < dependencies@.len() implies (#[trigger] dependencies@[k]).step
                        == step_id(*step) || old(dependencies)@.contains(dependencies@[k]) by {
                    if k < mid.len() {
                        assert(dependencies@[k] == mid[k]);
                        if k < before.len() {
                            assert(mid[k] == before[k]);
                        }
                    }
                }
            }
        },
        _ => {
            let needs = step.required_products();
            let n = needs.len();
            let mut i: usize = 0;
            assert(Seq::new(n as nat, |k: int| needs@[k]@) =~= required_views(*step));
            while i < n
                invariant
                    n == needs@.len(),
                    i <= n,
                    id@ == step_id(*step),
                    Seq::new(n as nat, |k: int| needs@[k]@) == required_views(*step),
                    dependencies@ == needs_edges(
                        old(dependencies)@,
                        step_id(*step),
                        required_views(*step),
                        i as int,
                    ),
                    forall|k: int|
                        0 <= k < dependencies@.len() ==> (#[trigger] dependencies@[k]).step
                            == step_id(*step) || old(dependencies)@.contains(dependencies@[k]),
                decreases n - i,
            {
                let ghost before = dependencies@;
                dependencies.add_dependency(id.copy(), needs[i].copy());
                proof {
                    assert forall|k: int|
                        0 <= k < dependencies@.len() implies (#[trigger] dependencies@[k]).step
                            == step_id(*step) || old(dependencies)@.contains(dependencies@[k]) by {
                        if k < before.len() {
                            assert(dependencies@[k] == before[k]);
                        }
                    }
                }
                i = i + 1;
            }
        },
    }
}

/// The graph `g` after the edges from the step `sid` to the first `k`
/// products of `needs`
pub open spec fn needs_edges(
    g: Seq<DependencyView>,
    sid: StepIdView,
    needs: Seq<ProductIdView>,
    k: int,
) -> Seq<DependencyView>
    decreases k,
{
    if k <= 0 {
        g
    } else {
        crate::graph::with_dependency(
            needs_edges(g, sid, needs, k - 1),
            DependencyView { step: sid, dependency: needs[k - 1] },
        )
    }
}

/// The products that a step needs whatever the graph holds
pub open spec fn required_views(step: ReportingStep) -> Seq<ProductIdView> {
    match step {
        ReportingStep::Source(src) => Seq::new(src.needs@.len(), |k: int| src.needs@[k]@),
        ReportingStep::BalancesAtToBalancesBetween(b) => seq![
            product_view(
                b.step_name@,
                ReportingProductKind::BalancesAt,
                ReportingStepArgs::DateArgs(
                    DateArgs { date: Date { days: (b.args.date_start.days - 1) as i32 } },
                ),
            ),
            product_view(
                b.step_name@,
                ReportingProductKind::BalancesAt,
                ReportingStepArgs::DateArgs(DateArgs { date: b.args.date_end }),
            ),
        ],
        _ => Seq::empty(),
    }
}

/// The graph `g` after the edges that `step` records when it joins a graph
/// of the steps `steps`, with the steps `lookups` offered to lookups
pub open spec fn init_edges(
    g: Seq<DependencyView>,
    step: ReportingStep,
    steps: Seq<ReportingStep>,
    lookups: Seq<Option<SourceStep>>,
) -> Seq<DependencyView> {
    let sid = step_id(step);
    match step {
        ReportingStep::GenerateBalances(gb) => {
            let dated = product_view(
                gb.step_name@,
                ReportingProductKind::Transactions,
                ReportingStepArgs::DateArgs(gb.args),
            );
            let undated = product_view(
                gb.step_name@,
                ReportingProductKind::Transactions,
                ReportingStepArgs::VoidArgs(VoidArgs {  }),
            );
            crate::graph::with_dependency(
                g,
                DependencyView {
                    step: sid,
                    dependency: if produced(steps, dated) || offered(lookups, dated) {
                        dated
                    } else {
                        undated
                    },
                },
            )
        },
        ReportingStep::UpdateBalancesAt(u) => crate::graph::with_dependency(
            crate::graph::with_dependency(g, DependencyView { step: sid, dependency: u.transactions@ }),
            DependencyView { step: sid, dependency: u.opening@ },
        ),
        ReportingStep::UpdateBalancesBetween(u) => crate::graph::with_dependency(
            crate::graph::with_dependency(g, DependencyView { step: sid, dependency: u.transactions@ }),
            DependencyView { step: sid, dependency: u.opening@ },
        ),
        _ => needs_edges(g, sid, required_views(step), required_views(step).len() as int),
    }
}

/// The edge by which the step `other` takes into account the product named
/// `name`: of `other`'s first kind and with `other`'s arguments
pub open spec fn feed_edge(other: StepIdView, name: Seq<char>) -> DependencyView {
    DependencyView {
        step: other,
        dependency: ProductIdView { name, kind: other.kinds[0], args: other.args },
    }
}

/// The graph `g` after the edges that a step named `name` feeding the names
/// `feeds` adds for the first `k` steps of `ids`
pub open spec fn feed_edges(
    g: Seq<DependencyView>,
    name: Seq<char>,
    feeds: Seq<Seq<char>>,
    ids: Seq<StepIdView>,
    k: int,
) -> Seq<DependencyView>
    decreases k,
{
    if k <= 0 || k > ids.len() {
        g
    } else {
        let prev = feed_edges(g, name, feeds, ids, k - 1);
        if feeds.contains(ids[k - 1].name) && ids[k - 1].kinds.len() > 0 {
            crate::graph::with_dependency(prev, feed_edge(ids[k - 1], name))
        } else {
            prev
        }
    }
}

fn names_contain(names: &Vec<String>, name: &String) -> (r: bool)
    ensures
        r == crate::accounts::texts_view(names@).contains(name@),
{
    let n = names.len();
    let mut i: usize = 0;
    while i < n
        invariant
            n == names@.len(),
            i <= n,
            forall|j: int| 0 <= j < i ==> names@[j]@ != name@,
        decreases n - i,
    {
        if names[i] == *name {
            assert(crate::accounts::texts_view(names@)[i as int] == name@);
            return true;
        }
        i = i + 1;
    }
    false
}

/// Second phase of graph construction, once a batch of new steps has recorded
/// its own edges: a source step that feeds some names makes each step of the
/// graph with one of those names need its product (see [SourceStep::feeds]);
/// other steps add nothing
pub fn after_init_graph(
    step: &ReportingStep,
    steps: &Vec<ReportingStep>,
    dependencies: &mut ReportingGraphDependencies,
)
    ensures
        final(dependencies)@ == match *step {
            ReportingStep::Source(src) => feed_edges(
                old(dependencies)@,
                src.id@.name,
                crate::accounts::texts_view(src.feeds@),
                steps_ids(steps@),
                steps@.len() as int,
            ),
            _ => old(dependencies)@,
        },
{
    match step {
        ReportingStep::Source(src) => {
            let ghost feeds = crate::accounts::texts_view(src.feeds@);
            let n = steps.len();
            let mut i: usize = 0;
            while i < n
                invariant
                    n == steps@.len(),
                    i <= n,
                    feeds == crate::accounts::texts_view(src.feeds@),
                    dependencies@ == feed_edges(
                        old(dependencies)@,
                        src.id@.name,
                        feeds,
                        steps_ids(steps@),
                        i as int,
                    ),
                decreases n - i,
            {
                let other = steps[i].id();
                if names_contain(&src.feeds, &other.name) && other.product_kinds.len() > 0 {
                    let edge = ReportingProductId {
                        name: src.id.name.clone(),
                        kind: other.product_kinds[0],
                        args: other.args.copy(),
                    };
                    dependencies.add_dependency(other, edge);
                }
                i = i + 1;
            }
        },
        _ => {},
    }
}

proof fn lemma_feed_edges_known(
    g: Seq<DependencyView>,
    name: Seq<char>,
    feeds: Seq<Seq<char>>,
    ids: Seq<StepIdView>,
    k: int,
)
    requires
        steps_known(ids, g),
        0 <= k <= ids.len(),
    ensures
        steps_known(ids, feed_edges(g, name, feeds, ids, k)),
    decreases k,
{
    if k > 0 {
        lemma_feed_edges_known(g, name, feeds, ids, k - 1);
        let prev = feed_edges(g, name, feeds, ids, k - 1);
        if feeds.contains(ids[k - 1].name) && ids[k - 1].kinds.len() > 0 {
            let e = feed_edge(ids[k - 1], name);
            if !prev.contains(e) {
                let r = prev.push(e);
                assert forall|i: int| 0 <= i < r.len() implies ids.contains(#[trigger] r[i].step) by {
                    if i == prev.len() {
                        assert(ids[k - 1] == r[i].step);
                    } else {
                        assert(r[i] == prev[i]);
                    }
                }
            }
        }
    }
}

/// The products wanted: the targets and the products of every edge
fn wanted_products(
    targets: &Vec<ReportingProductId>,
    dependencies: &ReportingGraphDependencies,
) -> (r: Vec<ReportingProductId>)
    ensures
        r@.len() == targets@.len() + dependencies@.len(),
        forall|k: int| 0 <= k < targets@.len() ==> (#[trigger] r@[k])@ == targets@[k]@,
        forall|k: int|
            0 <= k < dependencies@.len() ==> r@[targets@.len() + k]@ == (
            #[trigger] dependencies@[k]).dependency,
{
    let mut out: Vec<ReportingProductId> = Vec::new();
    let n = targets.len();
    let mut i: usize = 0;
    while i < n
        invariant
            n == targets@.len(),
            i <= n,
            out@.len() == i,
            forall|k: int| 0 <= k < i ==> (#[trigger] out@[k])@ == targets@[k]@,
        decreases n - i,
    {
        out.push(targets[i].copy());
        i = i + 1;
    }
    let edges = dependencies.vec();
    let m = edges.len();
    let mut j: usize = 0;
    while j < m
        invariant
            m == edges@.len(),
            n == targets@.len(),
            j <= m,
            crate::graph::deps_view(edges@) == dependencies@,
            out@.len() == n + j,
            forall|k: int| 0 <= k < n ==> (#[trigger] out@[k])@ == targets@[k]@,
            forall|k: int| 0 <= k < j ==> out@[n + k]@ == (#[trigger] dependencies@[k]).dependency,
        decreases m - j,
    {
        assert(dependencies@[j as int] == edges@[j as int]@);
        out.push(edges[j].dependency.copy());
        j = j + 1;
    }
    out
}

proof fn lemma_steps_ids_push(steps: Seq<ReportingStep>, s: ReportingStep)
    ensures
        steps_ids(steps.push(s)) == steps_ids(steps).push(step_id(s)),
{
    assert(steps_ids(steps.push(s)) =~= steps_ids(steps).push(step_id(s)));
}

/// Whether each step offered to lookups in `start` is still offered in `cur`
/// or has joined `steps` or `pending`, and no slot of `cur` holds another
/// step than it held in `start`
pub open spec fn lookups_kept(
    start: Seq<Option<SourceStep>>,
    cur: Seq<Option<SourceStep>>,
    steps: Seq<ReportingStep>,
    pending: Seq<ReportingStep>,
) -> bool {
    &&& cur.len() == start.len()
    &&& forall|i: int| 0 <= i < cur.len() && (#[trigger] cur[i]) is Some ==> cur[i] == start[i]
    &&& forall|i: int|
        0 <= i < start.len() ==> (#[trigger] start[i] matches Some(s) ==> (cur[i] == start[i]
            || steps.contains(ReportingStep::Source(s)) || pending.contains(
            ReportingStep::Source(s),
        )))
}

/// Whether the product `p` is settled in a resolved graph: a step makes it,
/// or no lookup offered it at the start and no registered builder can make
/// it
pub open spec fn settled(
    p: ProductIdView,
    steps: Seq<ReportingStep>,
    deps: Seq<DependencyView>,
    start: Seq<Option<SourceStep>>,
    cur: Seq<Option<SourceStep>>,
    builders: Seq<ReportingStepDynamicBuilder>,
) -> bool {
    produced(steps, p) || (!offered(start, p) && !some_builder_applies(p, steps, deps, cur, builders))
}

proof fn lemma_settled(
    p: ProductIdView,
    steps: Seq<ReportingStep>,
    deps: Seq<DependencyView>,
    start: Seq<Option<SourceStep>>,
    cur: Seq<Option<SourceStep>>,
    builders: Seq<ReportingStepDynamicBuilder>,
)
    requires
        lookups_kept(start, cur, steps, Seq::empty()),
        produced(steps, p) || (!offered(cur, p) && !some_builder_applies(
            p,
            steps,
            deps,
            cur,
            builders,
        )),
    ensures
        settled(p, steps, deps, start, cur, builders),
{
    if !produced(steps, p) && offered(start, p) {
        let i = choose|i: int| 0 <= i < start.len() && (#[trigger] start[i] matches Some(s) && produces(s.id@, p));
        if let Some(s) = start[i] {
            if cur[i] == start[i] {
                assert(offered(cur, p));
            } else {
                assert(steps.contains(ReportingStep::Source(s)));
                let j = choose|j: int| 0 <= j < steps.len() && steps[j] == ReportingStep::Source(s);
                assert(produces(step_id(steps[j]), p));
            }
        }
    }
}

/// Whether `p` is a product that `init_graph` can record as needed by
/// `step`
pub open spec fn init_candidate(step: ReportingStep, p: ProductIdView) -> bool {
    match step {
        ReportingStep::GenerateBalances(g) => p == product_view(
            g.step_name@,
            ReportingProductKind::Transactions,
            ReportingStepArgs::DateArgs(g.args),
        ) || p == product_view(
            g.step_name@,
            ReportingProductKind::Transactions,
            ReportingStepArgs::VoidArgs(VoidArgs {  }),
        ),
        ReportingStep::UpdateBalancesAt(u) => p == u.transactions@ || p == u.opening@,
        ReportingStep::UpdateBalancesBetween(u) => p == u.transactions@ || p == u.opening@,
        _ => required_views(step).contains(p),
    }
}

/// Whether the edge `e` is one that the two phases of graph construction
/// record among the steps `steps`: one that [init_graph] records for its own
/// step, or one that [after_init_graph] adds for a source step feeding the
/// name of `e`'s step
pub open spec fn recorded_edge(e: DependencyView, steps: Seq<ReportingStep>) -> bool {
    (exists|i: int|
        0 <= i < steps.len() && step_id(#[trigger] steps[i]) == e.step && init_candidate(
            steps[i],
            e.dependency,
        )) || (exists|i: int|
        0 <= i < steps.len() && (#[trigger] steps[i] matches ReportingStep::Source(src)
            && crate::accounts::texts_view(src.feeds@).contains(e.step.name) && e.step.kinds.len()
            > 0 && e == feed_edge(e.step, src.id@.name)))
}

proof fn lemma_with_dependency_member(g: Seq<DependencyView>, d: DependencyView, x: DependencyView)
    ensures
        crate::graph::with_dependency(g, d).contains(x) ==> g.contains(x) || x == d,
{
    if crate::graph::with_dependency(g, d).contains(x) && !g.contains(x) {
        let r = g.push(d);
        let i = choose|i: int| 0 <= i < r.len() && r[i] == x;
        if i < g.len() {
            assert(g[i] == x);
        }
    }
}

proof fn lemma_needs_edges_member(
    g: Seq<DependencyView>,
    sid: StepIdView,
    needs: Seq<ProductIdView>,
    k: int,
    x: DependencyView,
)
    requires
        0 <= k <= needs.len(),
    ensures
        needs_edges(g, sid, needs, k).contains(x) ==> g.contains(x) || (x.step == sid
            && needs.contains(x.dependency)),
    decreases k,
{
    if k > 0 {
        lemma_needs_edges_member(g, sid, needs, k - 1, x);
        lemma_with_dependency_member(
            needs_edges(g, sid, needs, k - 1),
            DependencyView { step: sid, dependency: needs[k - 1] },
            x,
        );
        if x == (DependencyView { step: sid, dependency: needs[k - 1] }) {
            assert(needs[k - 1] == x.dependency);
        }
    }
}

proof fn lemma_feed_edges_member(
    g: Seq<DependencyView>,
    name: Seq<char>,
    feeds: Seq<Seq<char>>,
    ids: Seq<StepIdView>,
    k: int,
    x: DependencyView,
)
    requires
        0 <= k <= ids.len(),
    ensures
        feed_edges(g, name, feeds, ids, k).contains(x) ==> g.contains(x) || (feeds.contains(
            x.step.name,
        ) && x.step.kinds.len() > 0 && x == feed_edge(x.step, name) && ids.contains(x.step)),
    decreases k,
{
    if k > 0 {
        lemma_feed_edges_member(g, name, feeds, ids, k - 1, x);
        let prev = feed_edges(g, name, feeds, ids, k - 1);
        if feeds.contains(ids[k - 1].name) && ids[k - 1].kinds.len() > 0 {
            lemma_with_dependency_member(prev, feed_edge(ids[k - 1], name), x);
            if x == feed_edge(ids[k - 1], name) {
                assert(ids[k - 1] == x.step);
            }
        }
    }
}

proof fn lemma_recorded_grow(e: DependencyView, steps: Seq<ReportingStep>, s: ReportingStep)
    requires
        recorded_edge(e, steps),
    ensures
        recorded_edge(e, steps.push(s)),
{
    let t = steps.push(s);
    if exists|i: int|
        0 <= i < steps.len() && step_id(#[trigger] steps[i]) == e.step && init_candidate(
            steps[i],
            e.dependency,
        ) {
        let i = choose|i: int|
            0 <= i < steps.len() && step_id(#[trigger] steps[i]) == e.step && init_candidate(
                steps[i],
                e.dependency,
            );
        assert(t[i] == steps[i]);
    } else {
        let i = choose|i: int|
            0 <= i < steps.len() && (#[trigger] steps[i] matches ReportingStep::Source(src)
                && crate::accounts::texts_view(src.feeds@).contains(e.step.name) && e.step.kinds.len()
                > 0 && e == feed_edge(e.step, src.id@.name));
        assert(t[i] == steps[i]);
    }
}

/// Whether every source step among `steps` is one that a slot of `start`
/// offered to lookups (the other steps come from builders)
pub open spec fn sources_from(steps: Seq<ReportingStep>, start: Seq<Option<SourceStep>>) -> bool {
    forall|i: int|
        0 <= i < steps.len() ==> (#[trigger] steps[i] matches ReportingStep::Source(src) ==> exists|
            j: int,
        | 0 <= j < start.len() && start[j] == Some(src))
}

/// Whether the step `s` makes one of the products `targets` or a product
/// that an edge of `deps` needs
pub open spec fn step_needed(s: ReportingStep, targets: Seq<ProductIdView>, deps: Seq<DependencyView>) -> bool {
    (exists|k: int| 0 <= k < targets.len() && produces(step_id(s), #[trigger] targets[k])) || (exists|
        k: int,
    | 0 <= k < deps.len() && produces(step_id(s), (#[trigger] deps[k]).dependency))
}

/// Whether `a` is a prefix of `b`
pub open spec fn edges_prefix(a: Seq<DependencyView>, b: Seq<DependencyView>) -> bool {
    a.len() <= b.len() && forall|i: int| 0 <= i < a.len() ==> #[trigger] b[i] == a[i]
}

proof fn lemma_needs_edges_prefix(
    g: Seq<DependencyView>,
    sid: StepIdView,
    needs: Seq<ProductIdView>,
    k: int,
)
    ensures
        edges_prefix(g, needs_edges(g, sid, needs, k)),
    decreases k,
{
    if k > 0 {
        lemma_needs_edges_prefix(g, sid, needs, k - 1);
    }
}

proof fn lemma_feed_edges_prefix(
    g: Seq<DependencyView>,
    name: Seq<char>,
    feeds: Seq<Seq<char>>,
    ids: Seq<StepIdView>,
    k: int,
)
    ensures
        edges_prefix(g, feed_edges(g, name, feeds, ids, k)),
    decreases k,
{
    if k > 0 {
        lemma_feed_edges_prefix(g, name, feeds, ids, k - 1);
    }
}

proof fn lemma_needed_grow(
    s: ReportingStep,
    targets: Seq<ProductIdView>,
    a: Seq<DependencyView>,
    b: Seq<DependencyView>,
)
    requires
        step_needed(s, targets, a),
        edges_prefix(a, b),
    ensures
        step_needed(s, targets, b),
{
    if !(exists|k: int| 0 <= k < targets.len() && produces(step_id(s), #[trigger] targets[k])) {
        let k = choose|k: int| 0 <= k < a.len() && produces(step_id(s), (#[trigger] a[k]).dependency);
        assert(b[k] == a[k]);
    }
}

/// Whether the edges that `init_graph` records for `step` are among `deps`:
/// a source step's needs and the two balances of
/// [BalancesAtToBalancesBetween], its transactions (of its date or of no
/// argument) for [GenerateBalances], and the transactions and opening
/// balances of an incremental update
pub open spec fn init_edges_present(step: ReportingStep, deps: Seq<DependencyView>) -> bool {
    let sid = step_id(step);
    match step {
        ReportingStep::GenerateBalances(g) => deps.contains(
            DependencyView {
                step: sid,
                dependency: product_view(
                    g.step_name@,
                    ReportingProductKind::Transactions,
                    ReportingStepArgs::DateArgs(g.args),
                ),
            },
        ) || deps.contains(
            DependencyView {
                step: sid,
                dependency: product_view(
                    g.step_name@,
                    ReportingProductKind::Transactions,
                    ReportingStepArgs::VoidArgs(VoidArgs {  }),
                ),
            },
        ),
        ReportingStep::UpdateBalancesAt(u) => deps.contains(
            DependencyView { step: sid, dependency: u.transactions@ },
        ) && deps.contains(DependencyView { step: sid, dependency: u.opening@ }),
        ReportingStep::UpdateBalancesBetween(u) => deps.contains(
            DependencyView { step: sid, dependency: u.transactions@ },
        ) && deps.contains(DependencyView { step: sid, dependency: u.opening@ }),
        _ => forall|k: int|
            0 <= k < required_views(step).len() ==> deps.contains(
                DependencyView { step: sid, dependency: #[trigger] required_views(step)[k] },
            ),
    }
}

proof fn lemma_prefix_contains(a: Seq<DependencyView>, b: Seq<DependencyView>, x: DependencyView)
    requires
        edges_prefix(a, b),
        a.contains(x),
    ensures
        b.contains(x),
{
    let i = choose|i: int| 0 <= i < a.len() && a[i] == x;
    assert(b[i] == x);
}

proof fn lemma_present_grow(step: ReportingStep, a: Seq<DependencyView>, b: Seq<DependencyView>)
    requires
        edges_prefix(a, b),
        init_edges_present(step, a),
    ensures
        init_edges_present(step, b),
{
    let sid = step_id(step);
    match step {
        ReportingStep::GenerateBalances(g) => {
            let d1 = DependencyView {
                step: sid,
                dependency: product_view(
                    g.step_name@,
                    ReportingProductKind::Transactions,
                    ReportingStepArgs::DateArgs(g.args),
                ),
            };
            let d2 = DependencyView {
                step: sid,
                dependency: product_view(
                    g.step_name@,
                    ReportingProductKind::Transactions,
                    ReportingStepArgs::VoidArgs(VoidArgs {  }),
                ),
            };
            if a.contains(d1) {
                lemma_prefix_contains(a, b, d1);
            } else {
                lemma_prefix_contains(a, b, d2);
            }
        },
        ReportingStep::UpdateBalancesAt(u) => {
            lemma_prefix_contains(a, b, DependencyView { step: sid, dependency: u.transactions@ });
            lemma_prefix_contains(a, b, DependencyView { step: sid, dependency: u.opening@ });
        },
        ReportingStep::UpdateBalancesBetween(u) => {
            lemma_prefix_contains(a, b, DependencyView { step: sid, dependency: u.transactions@ });
            lemma_prefix_contains(a, b, DependencyView { step: sid, dependency: u.opening@ });
        },
        _ => {
            assert forall|k: int| 0 <= k < required_views(step).len() implies b.contains(
                DependencyView { step: sid, dependency: #[trigger] required_views(step)[k] },
            ) by {
                lemma_prefix_contains(
                    a,
                    b,
                    DependencyView { step: sid, dependency: required_views(step)[k] },
                );
            }
        },
    }
}

proof fn lemma_with_dependency_has(g: Seq<DependencyView>, d: DependencyView)
    ensures
        crate::graph::with_dependency(g, d).contains(d),
        edges_prefix(g, crate::graph::with_dependency(g, d)),
{
    if !g.contains(d) {
        assert(g.push(d)[g.len() as int] == d);
    }
}

proof fn lemma_needs_edges_has(
    g: Seq<DependencyView>,
    sid: StepIdView,
    needs: Seq<ProductIdView>,
    k: int,
)
    requires
        0 <= k <= needs.len(),
    ensures
        forall|j: int|
            0 <= j < k ==> needs_edges(g, sid, needs, k).contains(
                DependencyView { step: sid, dependency: #[trigger] needs[j] },
            ),
    decreases k,
{
    if k > 0 {
        lemma_needs_edges_has(g, sid, needs, k - 1);
        let prev = needs_edges(g, sid, needs, k - 1);
        let d = DependencyView { step: sid, dependency: needs[k - 1] };
        lemma_with_dependency_has(prev, d);
        assert forall|j: int| 0 <= j < k implies needs_edges(g, sid, needs, k).contains(
            DependencyView { step: sid, dependency: #[trigger] needs[j] },
        ) by {
            if j < k - 1 {
                lemma_prefix_contains(prev, needs_edges(g, sid, needs, k), DependencyView { step: sid, dependency: needs[j] });
            }
        }
    }
}

/// After `init_graph`, the step's init edges are present
proof fn lemma_init_edges_present(
    g: Seq<DependencyView>,
    step: ReportingStep,
    steps: Seq<ReportingStep>,
    lookups: Seq<Option<SourceStep>>,
)
    ensures
        init_edges_present(step, init_edges(g, step, steps, lookups)),
        edges_prefix(g, init_edges(g, step, steps, lookups)),
{
    let sid = step_id(step);
    match step {
        ReportingStep::UpdateBalancesAt(u) => {
            let d1 = DependencyView { step: sid, dependency: u.transactions@ };
            let d2 = DependencyView { step: sid, dependency: u.opening@ };
            lemma_with_dependency_has(g, d1);
            lemma_with_dependency_has(crate::graph::with_dependency(g, d1), d2);
            lemma_prefix_contains(crate::graph::with_dependency(g, d1), init_edges(g, step, steps, lookups), d1);
        },
        ReportingStep::UpdateBalancesBetween(u) => {
            let d1 = DependencyView { step: sid, dependency: u.transactions@ };
            let d2 = DependencyView { step: sid, dependency: u.opening@ };
            lemma_with_dependency_has(g, d1);
            lemma_with_dependency_has(crate::graph::with_dependency(g, d1), d2);
            lemma_prefix_contains(crate::graph::with_dependency(g, d1), init_edges(g, step, steps, lookups), d1);
        },
        ReportingStep::GenerateBalances(gb) => {
            let dated = product_view(
                gb.step_name@,
                ReportingProductKind::Transactions,
                ReportingStepArgs::DateArgs(gb.args),
            );
            let undated = product_view(
                gb.step_name@,
                ReportingProductKind::Transactions,
                ReportingStepArgs::VoidArgs(VoidArgs {  }),
            );
            let d = DependencyView {
                step: sid,
                dependency: if produced(steps, dated) || offered(lookups, dated) {
                    dated
                } else {
                    undated
                },
            };
            lemma_with_dependency_has(g, d);
        },
        _ => {
            lemma_needs_edges_has(g, sid, required_views(step), required_views(step).len() as int);
            lemma_needs_edges_prefix(g, sid, required_views(step), required_views(step).len() as int);
        },
    }
}

/// Build the graph of steps that makes the products `targets`: starting from
/// the targets, each product wanted (a target, or a product that an edge
/// needs) that no step makes gets a step, first from the lookups, else from
/// the first builder that can make it; each new step records its edges
/// ([init_graph]), then each adds the edges of other steps onto itself
/// ([after_init_graph]); this repeats until a pass adds no step
#[verifier::rlimit(60)]
pub fn resolve_steps(targets: Vec<ReportingProductId>, context: &mut ReportingContext) -> (r: (
    Vec<ReportingStep>,
    ReportingGraphDependencies,
))
    requires
        old(context).wf(),
    ensures
        final(context).wf(),
        final(context).builders() == old(context).builders(),
        resolution(
            product_ids(targets@),
            old(context).step_lookup@,
            final(context).step_lookup@,
            old(context).builders(),
            r.0@,
            r.1@,
        ),
{
    let ghost start = context.step_lookup@;
    let ghost bs = context.builders();
    let mut steps: Vec<ReportingStep> = Vec::new();
    let mut dependencies = ReportingGraphDependencies::new();
    loop
        invariant
            context.wf(),
            forall|i: int| 0 <= i < steps@.len() ==> step_wf(#[trigger] steps@[i]),
            steps_known(steps_ids(steps@), dependencies@),
            start == old(context).step_lookup@,
            bs == old(context).builders(),
            context.builders() == bs,
            lookups_kept(start, context.step_lookup@, steps@, Seq::empty()),
            forall|k: int| 0 <= k < dependencies@.len() ==> recorded_edge(#[trigger] dependencies@[k], steps@),
            forall|i: int| 0 <= i < steps@.len() ==> step_needed(#[trigger] steps@[i], product_ids(targets@), dependencies@),
            sources_from(steps@, start),
            forall|i: int| 0 <= i < steps@.len() ==> init_edges_present(#[trigger] steps@[i], dependencies@),
        decreases usize::MAX - steps@.len(),
    {
        let before_len = steps.len();
        let wanted = wanted_products(&targets, &dependencies);
        let mut new_steps: Vec<ReportingStep> = Vec::new();
        let n = wanted.len();
        let mut i: usize = 0;
        while i < n
            invariant
                n == wanted@.len(),
                i <= n,
                context.wf(),
                forall|k: int| 0 <= k < steps@.len() ==> step_wf(#[trigger] steps@[k]),
                forall|k: int| 0 <= k < new_steps@.len() ==> step_wf(#[trigger] new_steps@[k]),
                context.builders() == bs,
                lookups_kept(start, context.step_lookup@, steps@, new_steps@),
                forall|q: int| 0 <= q < new_steps@.len() ==> step_needed(#[trigger] new_steps@[q], product_ids(targets@), dependencies@),
                sources_from(new_steps@, start),
                wanted@.len() == targets@.len() + dependencies@.len(),
                forall|k: int| 0 <= k < targets@.len() ==> (#[trigger] wanted@[k])@ == targets@[k]@,
                forall|k: int|
                    0 <= k < dependencies@.len() ==> wanted@[targets@.len() + k]@ == (
                    #[trigger] dependencies@[k]).dependency,
                new_steps@.len() == 0 ==> forall|k: int|
                    0 <= k < i ==> produced(steps@, (#[trigger] wanted@[k])@) || (!offered(
                        context.step_lookup@,
                        wanted@[k]@,
                    ) && !some_builder_applies(
                        wanted@[k]@,
                        steps@,
                        dependencies@,
                        context.step_lookup@,
                        bs,
                    )),
            decreases n - i,
        {
            let product = &wanted[i];
            proof {
                if i < targets@.len() {
                    assert(product_ids(targets@)[i as int] == product@);
                } else {
                    let e = i - targets@.len();
                    assert(wanted@[targets@.len() + e]@ == dependencies@[e].dependency);
                    assert(product@ == dependencies@[e].dependency);
                }
            }
            let ghost needed_before = new_steps@;
            let in_steps = find_producer(&steps, product);
            if in_steps.is_none() && find_producer(&new_steps, product).is_none() {
                match find_lookup(context, product) {
                    Some(j) => {
                        let mut taken: Option<SourceStep> = None;
                        let ghost before = context.step_lookup@;
                        let ghost pending_before = new_steps@;
                        context.step_lookup.set_and_swap(j, &mut taken);
                        proof {
                            assert forall|k: int|
                                0 <= k < context.step_lookup@.len() implies (#[trigger] context.step_lookup@[k] matches Some(s)
                                    ==> s.wf()) by {
                                if k != j {
                                    assert(context.step_lookup@[k] == before[k]);
                                }
                            }
                            assert(before[j as int] == taken);
                        }
                        match taken {
                            Some(s) => {
                                new_steps.push(ReportingStep::Source(s));
                                proof {
                                    assert(new_steps@[new_steps@.len() - 1] == ReportingStep::Source(s));
                                    assert(start[j as int] == Some(s));
                                    assert forall|k: int|
                                        0 <= k < start.len() implies (#[trigger] start[k] matches Some(t) ==> (
                                        context.step_lookup@[k] == start[k] || steps@.contains(
                                            ReportingStep::Source(t),
                                        ) || new_steps@.contains(ReportingStep::Source(t)))) by {
                                        if let Some(t) = start[k] {
                                            if k == j {
                                                assert(before[k] == start[k]);
                                            } else {
                                                assert(context.step_lookup@[k] == before[k]);
                                                if pending_before.contains(ReportingStep::Source(t)) {
                                                    let q = choose|q: int| 0 <= q < pending_before.len() && pending_before[q] == ReportingStep::Source(t);
                                                    assert(new_steps@[q] == pending_before[q]);
                                                }
                                            }
                                        }
                                    }
                                    assert forall|k: int| 0 <= k < context.step_lookup@.len() && (#[trigger] context.step_lookup@[k]) is Some implies context.step_lookup@[k] == start[k] by {
                                        assert(context.step_lookup@[k] == before[k]);
                                    }
                                }
                            },
                            None => {},
                        }
                    },
                    None => {
                        let ghost pending_before = new_steps@;
                        match try_builders(product, &steps, &dependencies, context) {
                            Some(s) => {
                                new_steps.push(s);
                                proof {
                                    assert forall|k: int|
                                        0 <= k < start.len() implies (#[trigger] start[k] matches Some(t) ==> (
                                        context.step_lookup@[k] == start[k] || steps@.contains(
                                            ReportingStep::Source(t),
                                        ) || new_steps@.contains(ReportingStep::Source(t)))) by {
                                        if let Some(t) = start[k] {
                                            if pending_before.contains(ReportingStep::Source(t)) {
                                                let q = choose|q: int| 0 <= q < pending_before.len() && pending_before[q] == ReportingStep::Source(t);
                                                assert(new_steps@[q] == pending_before[q]);
                                            }
                                        }
                                    }
                                }
                            },
                            None => {},
                        }
                    },
                }
            }
            proof {
                assert forall|q: int| 0 <= q < new_steps@.len() implies (#[trigger] new_steps@[q] matches ReportingStep::Source(src) ==> exists|
                    j: int,
                | 0 <= j < start.len() && start[j] == Some(src)) by {
                    if q < needed_before.len() {
                        assert(new_steps@[q] == needed_before[q]);
                    }
                }
                assert forall|q: int| 0 <= q < new_steps@.len() implies step_needed(
                    #[trigger] new_steps@[q],
                    product_ids(targets@),
                    dependencies@,
                ) by {
                    if q < needed_before.len() {
                        assert(new_steps@[q] == needed_before[q]);
                    } else {
                        assert(produces(step_id(new_steps@[q]), product@));
                        if i < targets@.len() {
                            assert(product_ids(targets@)[i as int] == product@);
                        } else {
                            let e = i - targets@.len();
                            assert(wanted@[targets@.len() + e]@ == dependencies@[e].dependency);
                        }
                    }
                }
                if new_steps@.len() == 0 {
                    if let Some(x) = in_steps {
                        assert(produces(step_id(steps@[x as int]), wanted@[i as int]@));
                    }
                    assert(produced(steps@, wanted@[i as int]@) || (!offered(
                        context.step_lookup@,
                        wanted@[i as int]@,
                    ) && !some_builder_applies(
                        wanted@[i as int]@,
                        steps@,
                        dependencies@,
                        context.step_lookup@,
                        bs,
                    )));
                }
            }
            i = i + 1;
        }
        if new_steps.len() == 0 {
            proof {
                assert(new_steps@ =~= Seq::<ReportingStep>::empty());
                assert forall|k: int| 0 <= k < targets@.len() implies settled(
                    (#[trigger] targets@[k])@,
                    steps@,
                    dependencies@,
                    start,
                    context.step_lookup@,
                    bs,
                ) by {
                    assert(wanted@[k]@ == targets@[k]@);
                    lemma_settled(targets@[k]@, steps@, dependencies@, start, context.step_lookup@, bs);
                }
                assert forall|k: int| 0 <= k < dependencies@.len() implies settled(
                    (#[trigger] dependencies@[k]).dependency,
                    steps@,
                    dependencies@,
                    start,
                    context.step_lookup@,
                    bs,
                ) by {
                    assert(wanted@[targets@.len() + k]@ == dependencies@[k].dependency);
                    lemma_settled(dependencies@[k].dependency, steps@, dependencies@, start, context.step_lookup@, bs);
                }
                reveal(resolution);
                assert forall|k: int| 0 <= k < product_ids(targets@).len() implies settled(
                    #[trigger] product_ids(targets@)[k],
                    steps@,
                    dependencies@,
                    start,
                    context.step_lookup@,
                    bs,
                ) by {
                    assert(product_ids(targets@)[k] == targets@[k]@);
                }
                assert(resolution(
                    product_ids(targets@),
                    start,
                    context.step_lookup@,
                    bs,
                    steps@,
                    dependencies@,
                ));
            }
            return (steps, dependencies);
        }
        let added = new_steps.len();
        while new_steps.len() > 0
            invariant
                context.wf(),
                steps@.len() + new_steps@.len() == before_len + added,
                forall|k: int| 0 <= k < steps@.len() ==> step_wf(#[trigger] steps@[k]),
                forall|k: int| 0 <= k < new_steps@.len() ==> step_wf(#[trigger] new_steps@[k]),
                steps_known(steps_ids(steps@), dependencies@),
                lookups_kept(start, context.step_lookup@, steps@, new_steps@),
                forall|k: int| 0 <= k < dependencies@.len() ==> recorded_edge(#[trigger] dependencies@[k], steps@),
                forall|i: int| 0 <= i < steps@.len() ==> step_needed(#[trigger] steps@[i], product_ids(targets@), dependencies@),
                forall|q: int| 0 <= q < new_steps@.len() ==> step_needed(#[trigger] new_steps@[q], product_ids(targets@), dependencies@),
                sources_from(steps@, start),
                sources_from(new_steps@, start),
                forall|i: int| 0 <= i < steps@.len() ==> init_edges_present(#[trigger] steps@[i], dependencies@),
            decreases new_steps@.len(),
        {
            let ghost pending_before = new_steps@;
            let ghost steps_before = steps@;
            let s = new_steps.remove(0);
            let ghost old_deps = dependencies@;
            let ghost old_steps = steps@;
            init_graph(&s, &steps, &mut dependencies, context);
            steps.push(s);
            proof {
                assert forall|k: int|
                    0 <= k < start.len() implies (#[trigger] start[k] matches Some(t) ==> (
                    context.step_lookup@[k] == start[k] || steps@.contains(ReportingStep::Source(t))
                        || new_steps@.contains(ReportingStep::Source(t)))) by {
                    if let Some(t) = start[k] {
                        if steps_before.contains(ReportingStep::Source(t)) {
                            let q = choose|q: int| 0 <= q < steps_before.len() && steps_before[q] == ReportingStep::Source(t);
                            assert(steps@[q] == steps_before[q]);
                        }
                        if pending_before.contains(ReportingStep::Source(t)) {
                            let q = choose|q: int| 0 <= q < pending_before.len() && pending_before[q] == ReportingStep::Source(t);
                            if q == 0 {
                                assert(steps@[steps_before.len() as int] == s);
                            } else {
                                assert(new_steps@[q - 1] == pending_before[q]);
                            }
                        }
                    }
                }
                assert forall|k: int| 0 <= k < dependencies@.len() implies recorded_edge(
                    #[trigger] dependencies@[k],
                    steps@,
                ) by {
                    let e = dependencies@[k];
                    let last = old_steps.len() as int;
                    assert(steps@ == old_steps.push(s));
                    assert(steps@[last] == s);
                    match s {
                        ReportingStep::GenerateBalances(g) => {
                            let dated = product_view(
                                g.step_name@,
                                ReportingProductKind::Transactions,
                                ReportingStepArgs::DateArgs(g.args),
                            );
                            let undated = product_view(
                                g.step_name@,
                                ReportingProductKind::Transactions,
                                ReportingStepArgs::VoidArgs(VoidArgs {  }),
                            );
                            let d = DependencyView {
                                step: step_id(s),
                                dependency: if produced(old_steps, dated) || offered(
                                    context.step_lookup@,
                                    dated,
                                ) {
                                    dated
                                } else {
                                    undated
                                },
                            };
                            lemma_with_dependency_member(old_deps, d, e);
                        },
                        ReportingStep::UpdateBalancesAt(u) => {
                            let d1 = DependencyView { step: step_id(s), dependency: u.transactions@ };
                            let d2 = DependencyView { step: step_id(s), dependency: u.opening@ };
                            lemma_with_dependency_member(crate::graph::with_dependency(old_deps, d1), d2, e);
                            lemma_with_dependency_member(old_deps, d1, e);
                        },
                        ReportingStep::UpdateBalancesBetween(u) => {
                            let d1 = DependencyView { step: step_id(s), dependency: u.transactions@ };
                            let d2 = DependencyView { step: step_id(s), dependency: u.opening@ };
                            lemma_with_dependency_member(crate::graph::with_dependency(old_deps, d1), d2, e);
                            lemma_with_dependency_member(old_deps, d1, e);
                        },
                        _ => {
                            lemma_needs_edges_member(
                                old_deps,
                                step_id(s),
                                required_views(s),
                                required_views(s).len() as int,
                                e,
                            );
                        },
                    }
                    assert(dependencies@.contains(e));
                    if old_deps.contains(e) {
                        let q = choose|q: int| 0 <= q < old_deps.len() && old_deps[q] == e;
                        assert(recorded_edge(old_deps[q], old_steps));
                        lemma_recorded_grow(e, old_steps, s);
                    } else {
                        assert(step_id(steps@[last]) == e.step && init_candidate(steps@[last], e.dependency));
                    }
                }
                lemma_init_edges_present(old_deps, s, old_steps, context.step_lookup@);
                assert forall|i: int| 0 <= i < steps@.len() implies init_edges_present(
                    #[trigger] steps@[i],
                    dependencies@,
                ) by {
                    if i < old_steps.len() {
                        assert(steps@[i] == old_steps[i]);
                        lemma_present_grow(old_steps[i], old_deps, dependencies@);
                    } else {
                        assert(steps@[i] == s);
                    }
                }
                assert(edges_prefix(old_deps, dependencies@)) by {
                    match s {
                        ReportingStep::Source(_) => {
                            lemma_needs_edges_prefix(old_deps, step_id(s), required_views(s), required_views(s).len() as int);
                        },
                        ReportingStep::BalancesAtToBalancesBetween(_) => {
                            lemma_needs_edges_prefix(old_deps, step_id(s), required_views(s), required_views(s).len() as int);
                        },
                        _ => {},
                    }
                }
                assert forall|i: int| 0 <= i < steps@.len() implies step_needed(
                    #[trigger] steps@[i],
                    product_ids(targets@),
                    dependencies@,
                ) by {
                    if i < old_steps.len() {
                        assert(steps@[i] == old_steps[i]);
                        lemma_needed_grow(old_steps[i], product_ids(targets@), old_deps, dependencies@);
                    } else {
                        assert(steps@[i] == pending_before[0]);
                        lemma_needed_grow(pending_before[0], product_ids(targets@), old_deps, dependencies@);
                    }
                }
                assert forall|q: int| 0 <= q < new_steps@.len() implies step_needed(
                    #[trigger] new_steps@[q],
                    product_ids(targets@),
                    dependencies@,
                ) by {
                    assert(new_steps@[q] == pending_before[q + 1]);
                    lemma_needed_grow(pending_before[q + 1], product_ids(targets@), old_deps, dependencies@);
                }
                assert forall|i: int| 0 <= i < steps@.len() implies (#[trigger] steps@[i] matches ReportingStep::Source(src) ==> exists|
                    j: int,
                | 0 <= j < start.len() && start[j] == Some(src)) by {
                    if i < old_steps.len() {
                        assert(steps@[i] == old_steps[i]);
                    } else {
                        assert(steps@[i] == pending_before[0]);
                    }
                }
                assert forall|q: int| 0 <= q < new_steps@.len() implies (#[trigger] new_steps@[q] matches ReportingStep::Source(src) ==> exists|
                    j: int,
                | 0 <= j < start.len() && start[j] == Some(src)) by {
                    assert(new_steps@[q] == pending_before[q + 1]);
                }
                lemma_steps_ids_push(old_steps, s);
                let ids = steps_ids(steps@);
                assert(ids[old_steps.len() as int] == step_id(s));
                assert forall|k: int| 0 <= k < dependencies@.len() implies ids.contains(
                    #[trigger] dependencies@[k].step,
                ) by {
                    if dependencies@[k].step != step_id(s) {
                        assert(old_deps.contains(dependencies@[k]));
                        let e = choose|e: int| 0 <= e < old_deps.len() && old_deps[e] == dependencies@[k];
                        assert(steps_ids(old_steps).contains(old_deps[e].step));
                        let q = choose|q: int| 0 <= q < steps_ids(old_steps).len() && steps_ids(old_steps)[q] == old_deps[e].step;
                        assert(ids[q] == steps_ids(old_steps)[q]);
                    }
                }
            }
        }
        // Each pass adds a step, and a vector's length fits in usize
        let grown = steps.len();
        assert(grown > before_len);
        let mut j: usize = before_len;
        while j < grown
            invariant
                grown == steps@.len(),
                before_len <= j <= grown,
                steps_known(steps_ids(steps@), dependencies@),
                forall|k: int| 0 <= k < dependencies@.len() ==> recorded_edge(#[trigger] dependencies@[k], steps@),
                forall|i: int| 0 <= i < steps@.len() ==> step_needed(#[trigger] steps@[i], product_ids(targets@), dependencies@),
                forall|i: int| 0 <= i < steps@.len() ==> init_edges_present(#[trigger] steps@[i], dependencies@),
            decreases grown - j,
        {
            let ghost old_deps = dependencies@;
            after_init_graph(&steps[j], &steps, &mut dependencies);
            proof {
                assert forall|k: int| 0 <= k < dependencies@.len() implies recorded_edge(
                    #[trigger] dependencies@[k],
                    steps@,
                ) by {
                    let e = dependencies@[k];
                    assert(dependencies@.contains(e));
                    if let ReportingStep::Source(src) = steps@[j as int] {
                        lemma_feed_edges_member(
                            old_deps,
                            src.id@.name,
                            crate::accounts::texts_view(src.feeds@),
                            steps_ids(steps@),
                            steps@.len() as int,
                            e,
                        );
                    }
                    if old_deps.contains(e) {
                        let q = choose|q: int| 0 <= q < old_deps.len() && old_deps[q] == e;
                        assert(recorded_edge(old_deps[q], steps@));
                    }
                }
                if let ReportingStep::Source(src) = steps@[j as int] {
                    lemma_feed_edges_prefix(
                        old_deps,
                        src.id@.name,
                        crate::accounts::texts_view(src.feeds@),
                        steps_ids(steps@),
                        steps@.len() as int,
                    );
                }
                assert forall|i: int| 0 <= i < steps@.len() implies step_needed(
                    #[trigger] steps@[i],
                    product_ids(targets@),
                    dependencies@,
                ) by {
                    lemma_needed_grow(steps@[i], product_ids(targets@), old_deps, dependencies@);
                }
                assert forall|i: int| 0 <= i < steps@.len() implies init_edges_present(
                    #[trigger] steps@[i],
                    dependencies@,
                ) by {
                    lemma_present_grow(steps@[i], old_deps, dependencies@);
                }
                if let ReportingStep::Source(src) = steps@[j as int] {
                    lemma_feed_edges_known(
                        old_deps,
                        src.id@.name,
                        crate::accounts::texts_view(src.feeds@),
                        steps_ids(steps@),
                        steps@.len() as int,
                    );
                }
            }
            j = j + 1;
        }
    }
}

} // verus!

verus! {

// ---------------------------------------------------------------------------
// Execution

fn missing(what: &str) -> (r: ReportingExecutionError) {
    ReportingExecutionError::DependencyNotAvailable { message: String::from_str(what) }
}

/// The balances at the product `key` of the store, if it holds balances at a
/// point in time there
fn balances_at_in<'a>(products: &'a ReportingProducts, key: &ReportingProductId) -> (r: Result<
    &'a BalancesAt,
    ReportingExecutionError,
>)
    requires
        products.wf(),
    ensures
        r matches Ok(b) ==> exists|i: int|
            0 <= i < products@.len() && products@[i].0 == key@ && products@[i].1
                == ReportingProduct::BalancesAt(*b),
        r matches Ok(b) ==> store_get(products@, key@) == Some(ReportingProduct::BalancesAt(*b)),
        r is Ok <==> store_get(products@, key@) matches Some(ReportingProduct::BalancesAt(_)),
        r matches Ok(b) ==> value_at(store_value(products@), key@) == Some(ProductValue::BalancesAt(b.balances@)),
        r is Ok <==> value_at(store_value(products@), key@) matches Some(ProductValue::BalancesAt(_)),
{
    proof {
        crate::products::lemma_value_at(products@, key@);
    }
    match products.get_or_err(key) {
        Ok(ReportingProduct::BalancesAt(b)) => Ok(b),
        Ok(_) => Err(missing("a product of the wrong shape stands where balances were expected")),
        Err(e) => Err(e),
    }
}

/// The balances over a range at the product `key` of the store, if it holds
/// such balances there
fn balances_between_in<'a>(products: &'a ReportingProducts, key: &ReportingProductId) -> (r: Result<
    &'a BalancesBetween,
    ReportingExecutionError,
>)
    requires
        products.wf(),
    ensures
        r matches Ok(b) ==> exists|i: int|
            0 <= i < products@.len() && products@[i].0 == key@ && products@[i].1
                == ReportingProduct::BalancesBetween(*b),
        r matches Ok(b) ==> store_get(products@, key@) == Some(ReportingProduct::BalancesBetween(*b)),
        r is Ok <==> store_get(products@, key@) matches Some(ReportingProduct::BalancesBetween(_)),
        r matches Ok(b) ==> value_at(store_value(products@), key@) == Some(ProductValue::BalancesBetween(b.balances@)),
        r is Ok <==> value_at(store_value(products@), key@) matches Some(ProductValue::BalancesBetween(_)),
{
    proof {
        crate::products::lemma_value_at(products@, key@);
    }
    match products.get_or_err(key) {
        Ok(ReportingProduct::BalancesBetween(b)) => Ok(b),
        Ok(_) => Err(missing("a product of the wrong shape stands where balances were expected")),
        Err(e) => Err(e),
    }
}

/// The transactions at the product `key` of the store, if it holds
/// transactions there
fn transactions_in<'a>(products: &'a ReportingProducts, key: &ReportingProductId) -> (r: Result<
    &'a crate::products::Transactions,
    ReportingExecutionError,
>)
    requires
        products.wf(),
    ensures
        r matches Ok(t) ==> exists|i: int|
            0 <= i < products@.len() && products@[i].0 == key@ && products@[i].1
                == ReportingProduct::Transactions(*t),
        r matches Ok(t) ==> store_get(products@, key@) == Some(ReportingProduct::Transactions(*t)),
        r is Ok <==> store_get(products@, key@) matches Some(ReportingProduct::Transactions(_)),
        r matches Ok(t) ==> value_at(store_value(products@), key@) == Some(ProductValue::Transactions(t.transactions@)),
        r is Ok <==> value_at(store_value(products@), key@) matches Some(ProductValue::Transactions(_)),
{
    proof {
        crate::products::lemma_value_at(products@, key@);
    }
    match products.get_or_err(key) {
        Ok(ReportingProduct::Transactions(t)) => Ok(t),
        Ok(_) => Err(missing("a product of the wrong shape stands where transactions were expected")),
        Err(e) => Err(e),
    }
}

/// Whether `step` runs without error on a store of value `store` with the
/// edges `deps`: the products it reads are there with the right shape, and
/// every balance it forms fits in i64
pub open spec fn step_runs(step: ReportingStep, deps: Seq<DependencyView>, store: StoreValue) -> bool {
    match step {
        ReportingStep::Source(_) => true,
        ReportingStep::GenerateBalances(_) => {
            let edges = crate::graph::step_dependencies(deps, step_id(step));
            edges.len() > 0 && match value_at(store, edges[0].dependency) {
                Some(ProductValue::Transactions(t)) => crate::balances::transactions_fit(
                    BalancesView::empty(),
                    t,
                ),
                _ => false,
            }
        },
        ReportingStep::BalancesAtToBalancesBetween(b) => {
            let reads = required_views(step);
            match (value_at(store, reads[1]), value_at(store, reads[0])) {
                (Some(ProductValue::BalancesAt(c)), Some(ProductValue::BalancesAt(o))) => {
                    crate::balances::difference_fits(c, o)
                },
                _ => false,
            }
        },
        ReportingStep::UpdateBalancesAt(u) => match (
            value_at(store, u.transactions@),
            value_at(store, u.opening@),
        ) {
            (Some(ProductValue::Transactions(t)), Some(ProductValue::BalancesAt(o))) => {
                crate::balances::transactions_fit(
                    o,
                    dated_within(t, Date { days: i32::MIN }, u.args.date),
                )
            },
            _ => false,
        },
        ReportingStep::UpdateBalancesBetween(u) => match (
            value_at(store, u.transactions@),
            value_at(store, u.opening@),
        ) {
            (Some(ProductValue::Transactions(t)), Some(ProductValue::BalancesBetween(o))) => {
                crate::balances::transactions_fit(
                    o,
                    dated_within(t, u.args.date_start, u.args.date_end),
                )
            },
            _ => false,
        },
    }
}

/// Whether `step` runs without error on the store `store` with the edges
/// `deps`
pub open spec fn step_can_run(
    step: ReportingStep,
    deps: Seq<DependencyView>,
    store: Seq<(ProductIdView, ReportingProduct)>,
) -> bool {
    step_runs(step, deps, store_value(store))
}

/// The transactions read at `k` in `store`, empty if there are none
pub open spec fn transactions_at(store: StoreValue, k: ProductIdView) -> Seq<TransactionWithPostings> {
    match value_at(store, k) {
        Some(ProductValue::Transactions(t)) => t,
        _ => Seq::empty(),
    }
}

/// The balances read at `k` in `store`, empty if there are none
pub open spec fn balances_at(store: StoreValue, k: ProductIdView) -> BalancesView {
    match value_at(store, k) {
        Some(ProductValue::BalancesAt(b)) => b,
        Some(ProductValue::BalancesBetween(b)) => b,
        _ => BalancesView::empty(),
    }
}

/// The products, with their values, that `step` makes when it runs on a
/// store of value `store` with the edges `deps`
pub open spec fn step_result(step: ReportingStep, deps: Seq<DependencyView>, store: StoreValue) -> StoreValue {
    match step {
        ReportingStep::Source(src) => Seq::new(
            src.products@.len(),
            |i: int| (src.products@[i].0@, product_value(src.products@[i].1)),
        ),
        ReportingStep::GenerateBalances(g) => seq![
            (
                step_outputs(step)[0],
                ProductValue::BalancesAt(
                    apply_transactions(
                        BalancesView::empty(),
                        transactions_at(
                            store,
                            crate::graph::step_dependencies(deps, step_id(step))[0].dependency,
                        ),
                    ),
                ),
            ),
        ],
        ReportingStep::BalancesAtToBalancesBetween(b) => seq![
            (
                step_outputs(step)[0],
                ProductValue::BalancesBetween(
                    difference(
                        balances_at(store, required_views(step)[1]),
                        balances_at(store, required_views(step)[0]),
                    ),
                ),
            ),
        ],
        ReportingStep::UpdateBalancesAt(u) => seq![
            (
                step_outputs(step)[0],
                ProductValue::BalancesAt(
                    apply_transactions(
                        balances_at(store, u.opening@),
                        dated_within(
                            transactions_at(store, u.transactions@),
                            Date { days: i32::MIN },
                            u.args.date,
                        ),
                    ),
                ),
            ),
        ],
        ReportingStep::UpdateBalancesBetween(u) => seq![
            (
                step_outputs(step)[0],
                ProductValue::BalancesBetween(
                    apply_transactions(
                        balances_at(store, u.opening@),
                        dated_within(
                            transactions_at(store, u.transactions@),
                            u.args.date_start,
                            u.args.date_end,
                        ),
                    ),
                ),
            ),
        ],
    }
}

/// The products that `step` makes, reading from `products` those it needs
///
/// Each product made is one that the step's id names. [GenerateBalances]
/// folds the transactions of its first edge from no balance;
/// [BalancesAtToBalancesBetween] takes the closing balances less the opening
/// ones. [UpdateBalancesAt] rolls its opening balances forward by its
/// transactions dated on or before its date; [UpdateBalancesBetween] adds to
/// its opening balances its transactions dated within its range. A product
/// needed and not found, or of the wrong shape, is a
/// [ReportingExecutionError::DependencyNotAvailable], and so is a balance that
/// would leave i64.
pub fn execute_step(
    step: ReportingStep,
    dependencies: &ReportingGraphDependencies,
    products: &ReportingProducts,
) -> (r: Result<ReportingProducts, ReportingExecutionError>)
    requires
        step_wf(step),
        products.wf(),
    ensures
        r matches Ok(out) ==> out.wf() && forall|i: int|
            0 <= i < out@.len() ==> produces(step_id(step), (#[trigger] out@[i]).0),
        r matches Ok(out) ==> store_ids(out@) == step_outputs(step),
        r is Ok <==> step_can_run(step, dependencies@, products@),
        r matches Ok(out) ==> store_value(out@) == step_result(
            step,
            dependencies@,
            store_value(products@),
        ),
        r matches Ok(out) ==> match step {
            ReportingStep::GenerateBalances(_) => out@.len() == 1 && (out@[0].1 matches ReportingProduct::BalancesAt(b)
                && (store_get(
                products@,
                crate::graph::step_dependencies(dependencies@, step_id(step))[0].dependency,
            ) matches Some(ReportingProduct::Transactions(t)) && b.balances@ == apply_transactions(
                BalancesView::empty(),
                t.transactions@,
            ))),
            ReportingStep::BalancesAtToBalancesBetween(g) => out@.len() == 1 && (out@[0].1 matches ReportingProduct::BalancesBetween(b)
                && exists|i: int, j: int|
                0 <= i < products@.len() && 0 <= j < products@.len() && (#[trigger] products@[i]).0
                    == product_view(
                    g.step_name@,
                    ReportingProductKind::BalancesAt,
                    ReportingStepArgs::DateArgs(DateArgs { date: g.args.date_end }),
                ) && (#[trigger] products@[j]).0 == product_view(
                    g.step_name@,
                    ReportingProductKind::BalancesAt,
                    ReportingStepArgs::DateArgs(
                        DateArgs { date: Date { days: (g.args.date_start.days - 1) as i32 } },
                    ),
                ) && (products@[i].1 matches ReportingProduct::BalancesAt(c) && (products@[j].1 matches ReportingProduct::BalancesAt(o)
                    && b.balances@ == difference(c.balances@, o.balances@)))),
            ReportingStep::UpdateBalancesAt(u) => out@.len() == 1 && (out@[0].1 matches ReportingProduct::BalancesAt(b)
                && exists|i: int, j: int|
                0 <= i < products@.len() && 0 <= j < products@.len() && (#[trigger] products@[i]).0
                    == u.transactions@ && (#[trigger] products@[j]).0 == u.opening@
                    && (products@[i].1 matches ReportingProduct::Transactions(t) && (products@[j].1 matches ReportingProduct::BalancesAt(o)
                    && b.balances@ == apply_transactions(
                    o.balances@,
                    dated_within(t.transactions@, Date { days: i32::MIN }, u.args.date),
                )))),
            ReportingStep::UpdateBalancesBetween(u) => out@.len() == 1 && (out@[0].1 matches ReportingProduct::BalancesBetween(b)
                && exists|i: int, j: int|
                0 <= i < products@.len() && 0 <= j < products@.len() && (#[trigger] products@[i]).0
                    == u.transactions@ && (#[trigger] products@[j]).0 == u.opening@
                    && (products@[i].1 matches ReportingProduct::Transactions(t) && (products@[j].1 matches ReportingProduct::BalancesBetween(o)
                    && b.balances@ == apply_transactions(
                    o.balances@,
                    dated_within(t.transactions@, u.args.date_start, u.args.date_end),
                )))),
            _ => true,
        },
{
    let id = step.id();
    let mut out = ReportingProducts::new();
    match step {
        ReportingStep::Source(src) => {
            let SourceStep { id: _, needs: _, products: made, feeds: _ } = src;
            let ghost all = made@;
            let mut rest = made;
            let ghost mut k: int = 0;
            while rest.len() > 0
                invariant
                    out.wf(),
                    0 <= k <= all.len(),
                    rest@ == all.subrange(k, all.len() as int),
                    forall|a: int| 0 <= a < all.len() ==> produces(id@, (#[trigger] all[a]).0@),
                    forall|a: int|
                        0 <= a < out@.len() ==> produces(id@, (#[trigger] out@[a]).0),
                    forall|a: int, b: int| 0 <= a < b < all.len() ==> all[a].0@ != all[b].0@,
                    store_ids(out@) == Seq::new(k as nat, |a: int| all[a].0@),
                    out@ == Seq::new(k as nat, |a: int| (all[a].0@, all[a].1)),
                decreases rest@.len(),
            {
                let (key, value) = rest.remove(0);
                assert(all[k] == (key, value));
                let ghost before = out@;
                let ghost kv = key@;
                proof {
                    assert(store_ids(before).len() == k);
                    assert(before.len() == k);
                    if crate::products::store_has(before, kv) {
                        let c = choose|c: int| 0 <= c < before.len() && (#[trigger] before[c]).0 == kv;
                        assert(store_ids(before)[c] == before[c].0);
                        assert(store_ids(before)[c] == all[c].0@);
                        assert(all[c].0@ != all[k].0@);
                    }
                }
                out.insert(key, value);
                proof {
                    assert(!crate::products::store_has(before, kv));
                    assert(out@ == before.push((kv, all[k].1)));
                    assert(kv == all[k].0@);
                    assert forall|a: int| 0 <= a < k implies #[trigger] store_ids(out@)[a] == all[a].0@ by {
                        assert(store_ids(out@)[a] == out@[a].0);
                        assert(out@[a] == before[a]);
                        assert(store_ids(before)[a] == before[a].0);
                    }
                    assert(store_ids(out@) =~= Seq::new((k + 1) as nat, |a: int| all[a].0@));
                    assert(out@ =~= Seq::new((k + 1) as nat, |a: int| (all[a].0@, all[a].1)));
                    assert forall|a: int| 0 <= a < out@.len() implies produces(
                        id@,
                        (#[trigger] out@[a]).0,
                    ) by {
                        if crate::products::store_has(before, kv) {
                            let c = choose|c: int| 0 <= c < before.len() && (#[trigger] before[c]).0 == kv;
                            if a != c {
                                assert(out@[a] == before[a]);
                            }
                        } else if a < before.len() {
                            assert(out@[a] == before[a]);
                        }
                    }
                    k = k + 1;
                }
            }
            assert(store_ids(out@) =~= step_outputs(step));
            assert(store_value(out@) =~= step_result(step, dependencies@, store_value(products@)));
            Ok(out)
        },
        ReportingStep::GenerateBalances(g) => {
            let edges = dependencies.dependencies_for_step(&id);
            if edges.len() == 0 {
                return Err(missing("balances were asked for with no transactions to fold"));
            }
            assert(edges@[0]@ == crate::graph::step_dependencies(dependencies@, id@)[0]);
            let t = match transactions_in(products, &edges[0].dependency) {
                Ok(t) => t,
                Err(e) => {
                    return Err(e);
                },
            };
            match balances_from_transactions(&t.transactions) {
                Some(m) => {
                    let key = ReportingProductId {
                        name: g.step_name,
                        kind: ReportingProductKind::BalancesAt,
                        args: ReportingStepArgs::DateArgs(g.args),
                    };
                    let ghost kv = key@;
                    let ghost empty = out@;
                    let ghost mv = m@;
                    out.insert(key, ReportingProduct::BalancesAt(BalancesAt { balances: m }));
                    assert(!crate::products::store_has(empty, kv));
                    assert(out@.len() == 1 && out@[0].0 == kv);
                    assert(id@.kinds[0] == ReportingProductKind::BalancesAt);
                    assert(produces(id@, out@[0].0));
                    assert(store_value(out@) =~= step_result(step, dependencies@, store_value(products@)));
                    Ok(out)
                },
                None => Err(missing("a running balance leaves the range of a quantity")),
            }
        },
        ReportingStep::BalancesAtToBalancesBetween(g) => {
            let closing_key = ReportingProductId {
                name: g.step_name.clone(),
                kind: ReportingProductKind::BalancesAt,
                args: ReportingStepArgs::DateArgs(DateArgs { date: g.args.date_end }),
            };
            let opening_key = ReportingProductId {
                name: g.step_name.clone(),
                kind: ReportingProductKind::BalancesAt,
                args: ReportingStepArgs::DateArgs(
                    DateArgs { date: Date { days: g.args.date_start.days - 1 } },
                ),
            };
            let closing = match balances_at_in(products, &closing_key) {
                Ok(b) => b,
                Err(e) => {
                    return Err(e);
                },
            };
            let opening = match balances_at_in(products, &opening_key) {
                Ok(b) => b,
                Err(e) => {
                    return Err(e);
                },
            };
            proof {
                use_type_invariant(&closing.balances);
                use_type_invariant(&opening.balances);
            }
            if !check_difference_fits(&closing.balances, &opening.balances) {
                return Err(missing("a balance over the range leaves the range of a quantity"));
            }
            let m = balances_between(&closing.balances, &opening.balances);
            let key = ReportingProductId {
                name: g.step_name,
                kind: ReportingProductKind::BalancesBetween,
                args: ReportingStepArgs::DateStartDateEndArgs(g.args),
            };
            let ghost kv = key@;
            let ghost empty = out@;
            out.insert(key, ReportingProduct::BalancesBetween(BalancesBetween { balances: m }));
            assert(!crate::products::store_has(empty, kv));
            assert(out@.len() == 1 && out@[0].0 == kv);
            assert(id@.kinds[0] == ReportingProductKind::BalancesBetween);
            assert(produces(id@, out@[0].0));
            assert(store_value(out@) =~= step_result(step, dependencies@, store_value(products@)));
            Ok(out)
        },
        ReportingStep::UpdateBalancesAt(u) => {
            let t = match transactions_in(products, &u.transactions) {
                Ok(t) => t,
                Err(e) => {
                    return Err(e);
                },
            };
            let opening = match balances_at_in(products, &u.opening) {
                Ok(b) => b,
                Err(e) => {
                    return Err(e);
                },
            };
            let mut m = opening.balances.copy();
            if !try_update_balances_within(
                &mut m,
                &t.transactions,
                Date { days: i32::MIN },
                u.args.date,
            ) {
                return Err(missing("a running balance leaves the range of a quantity"));
            }
            let key = ReportingProductId {
                name: u.step_name,
                kind: ReportingProductKind::BalancesAt,
                args: ReportingStepArgs::DateArgs(u.args),
            };
            let ghost kv = key@;
            let ghost empty = out@;
            out.insert(key, ReportingProduct::BalancesAt(BalancesAt { balances: m }));
            assert(!crate::products::store_has(empty, kv));
            assert(out@.len() == 1 && out@[0].0 == kv);
            assert(id@.kinds[0] == ReportingProductKind::BalancesAt);
            assert(produces(id@, out@[0].0));
            assert(store_value(out@) =~= step_result(step, dependencies@, store_value(products@)));
            Ok(out)
        },
        ReportingStep::UpdateBalancesBetween(u) => {
            let t = match transactions_in(products, &u.transactions) {
                Ok(t) => t,
                Err(e) => {
                    return Err(e);
                },
            };
            let opening = match balances_between_in(products, &u.opening) {
                Ok(b) => b,
                Err(e) => {
                    return Err(e);
                },
            };
            let mut m = opening.balances.copy();
            if !try_update_balances_within(
                &mut m,
                &t.transactions,
                u.args.date_start,
                u.args.date_end,
            ) {
                return Err(missing("a running balance leaves the range of a quantity"));
            }
            let key = ReportingProductId {
                name: u.step_name,
                kind: ReportingProductKind::BalancesBetween,
                args: ReportingStepArgs::DateStartDateEndArgs(u.args),
            };
            let ghost kv = key@;
            let ghost empty = out@;
            out.insert(key, ReportingProduct::BalancesBetween(BalancesBetween { balances: m }));
            assert(!crate::products::store_has(empty, kv));
            assert(out@.len() == 1 && out@[0].0 == kv);
            assert(id@.kinds[0] == ReportingProductKind::BalancesBetween);
            assert(produces(id@, out@[0].0));
            assert(store_value(out@) =~= step_result(step, dependencies@, store_value(products@)));
            Ok(out)
        },
    }
}

/// The ids of the products that a step makes when it runs without error, in
/// order
pub open spec fn step_outputs(s: ReportingStep) -> Seq<ProductIdView> {
    match s {
        ReportingStep::Source(src) => Seq::new(
            src.products@.len(),
            |i: int| src.products@[i].0@,
        ),
        ReportingStep::GenerateBalances(g) => seq![
            product_view(g.step_name@, ReportingProductKind::BalancesAt, ReportingStepArgs::DateArgs(g.args)),
        ],
        ReportingStep::BalancesAtToBalancesBetween(b) => seq![
            product_view(
                b.step_name@,
                ReportingProductKind::BalancesBetween,
                ReportingStepArgs::DateStartDateEndArgs(b.args),
            ),
        ],
        ReportingStep::UpdateBalancesAt(u) => seq![
            product_view(u.step_name@, ReportingProductKind::BalancesAt, ReportingStepArgs::DateArgs(u.args)),
        ],
        ReportingStep::UpdateBalancesBetween(u) => seq![
            product_view(
                u.step_name@,
                ReportingProductKind::BalancesBetween,
                ReportingStepArgs::DateStartDateEndArgs(u.args),
            ),
        ],
    }
}

/// The ids of the entries of a store
pub open spec fn store_ids(store: Seq<(ProductIdView, ReportingProduct)>) -> Seq<ProductIdView> {
    Seq::new(store.len(), |i: int| store[i].0)
}

/// Whether one of the steps that the order `order` runs among its first `k`
/// positions (indices into `steps`) makes the product `x`
pub open spec fn ran_output(steps: Seq<ReportingStep>, order: Seq<usize>, k: int, x: ProductIdView) -> bool {
    exists|p: int|
        0 <= p < k && order[p] < steps.len() && step_outputs(steps[(#[trigger] order[p]) as int]).contains(x)
}

/// Whether some step of `steps` makes the product `x` when it runs
pub open spec fn graph_output(steps: Seq<ReportingStep>, x: ProductIdView) -> bool {
    exists|i: int| 0 <= i < steps.len() && step_outputs(#[trigger] steps[i]).contains(x)
}

/// Whether every product of the store is one that some step of `steps` makes
pub open spec fn made_by_steps(store: Seq<(ProductIdView, ReportingProduct)>, steps: Seq<ReportingStep>) -> bool {
    forall|i: int|
        0 <= i < store.len() ==> exists|j: int|
            0 <= j < steps.len() && produces(step_id(steps[j]), #[trigger] store[i].0)
}

/// Whether position `k` of `order` is the first that names its step
pub open spec fn first_occurrence(order: Seq<usize>, k: int) -> bool {
    forall|p: int| 0 <= p < k ==> #[trigger] order[p] != order[k]
}

/// Whether the run in the order `order` runs a step at position `k`: the
/// index there names a step that has not run before
pub open spec fn runs_at(steps: Seq<ReportingStep>, order: Seq<usize>, k: int) -> bool {
    order[k] < steps.len() && first_occurrence(order, k)
}

/// The value of the store after the first `k` positions of a run of `steps`
/// in the order `order`, each step adding its products to those before it
pub open spec fn run_store(
    steps: Seq<ReportingStep>,
    deps: Seq<DependencyView>,
    order: Seq<usize>,
    k: int,
) -> StoreValue
    decreases k,
{
    if k <= 0 {
        Seq::empty()
    } else {
        let prev = run_store(steps, deps, order, k - 1);
        if runs_at(steps, order, k - 1) {
            crate::products::value_append(
                prev,
                step_result(steps[order[k - 1] as int], deps, prev),
            )
        } else {
            prev
        }
    }
}

/// Whether every step run in the first `k` positions of the order runs
/// without error on the store that the steps before it left
pub open spec fn run_ok(
    steps: Seq<ReportingStep>,
    deps: Seq<DependencyView>,
    order: Seq<usize>,
    k: int,
) -> bool
    decreases k,
{
    if k <= 0 {
        true
    } else {
        run_ok(steps, deps, order, k - 1) && (runs_at(steps, order, k - 1) ==> step_runs(
            steps[order[k - 1] as int],
            deps,
            run_store(steps, deps, order, k - 1),
        ))
    }
}

proof fn lemma_run_ok_prefix(
    steps: Seq<ReportingStep>,
    deps: Seq<DependencyView>,
    order: Seq<usize>,
    j: int,
    k: int,
)
    requires
        0 <= j <= k,
        run_ok(steps, deps, order, k),
    ensures
        run_ok(steps, deps, order, j),
    decreases k,
{
    if j < k {
        lemma_run_ok_prefix(steps, deps, order, j, k - 1);
    }
}

/// Run the steps in the order `order` (indices into `steps`), each on the
/// products of those before it, and collect their products
///
/// The order must be valid: each step comes after steps that make every
/// product it needs. The run stops
/// at the first step that fails, with that step's error, and returns no
/// store.
pub fn execute_steps(
    steps: Vec<ReportingStep>,
    dependencies: &ReportingGraphDependencies,
    order: &Vec<usize>,
) -> (r: Result<ReportingProducts, ReportingExecutionError>)
    requires
        forall|i: int| 0 <= i < steps@.len() ==> step_wf(#[trigger] steps@[i]),
        valid_order(steps_ids(steps@), dependencies@, order@),
    ensures
        r matches Ok(store) ==> store.wf() && made_by_steps(store@, steps@),
        r matches Ok(store) ==> forall|x: ProductIdView|
            #[trigger] store_has(store@, x) == ran_output(steps@, order@, order@.len() as int, x),
        r is Ok <==> run_ok(steps@, dependencies@, order@, order@.len() as int),
        r matches Ok(store) ==> store_value(store@) == run_store(
            steps@,
            dependencies@,
            order@,
            order@.len() as int,
        ),
        r is Err ==> exists|k: int|
            0 <= k < order@.len() && run_ok(steps@, dependencies@, order@, k) && runs_at(
                steps@,
                order@,
                k,
            ) && !step_runs(
                steps@[order@[k] as int],
                dependencies@,
                run_store(steps@, dependencies@, order@, k),
            ),
{
    let ghost all = steps@;
    let mut slots: Vec<Option<ReportingStep>> = Vec::new();
    let mut rest = steps;
    while rest.len() > 0
        invariant
            slots@.len() + rest@.len() == all.len(),
            all == steps@,
            rest@ == all.subrange(slots@.len() as int, all.len() as int),
            forall|i: int| 0 <= i < slots@.len() ==> slots@[i] == Some(all[i]),
        decreases rest@.len(),
    {
        let s = rest.remove(0);
        slots.push(Some(s));
    }
    let mut store = ReportingProducts::new();
    let n = order.len();
    let mut k: usize = 0;
    while k < n
        invariant
            n == order@.len(),
            k <= n,
            all == steps@,
            slots@.len() == all.len(),
            forall|i: int| 0 <= i < all.len() ==> step_wf(#[trigger] all[i]),
            forall|i: int| 0 <= i < slots@.len() ==> (#[trigger] slots@[i] matches Some(s) ==> s == all[i]),
            store.wf(),
            made_by_steps(store@, all),
            forall|x: ProductIdView|
                #[trigger] store_has(store@, x) == ran_output(all, order@, k as int, x),
            forall|i: int|
                0 <= i < slots@.len() && (#[trigger] slots@[i]) is None ==> exists|p: int|
                    0 <= p < k && order@[p] == i,
            forall|p: int| 0 <= p < k && order@[p] < slots@.len() ==> (#[trigger] slots@[order@[p] as int]) is None,
            run_ok(all, dependencies@, order@, k as int),
            store_value(store@) == run_store(all, dependencies@, order@, k as int),
        decreases n - k,
    {
        let idx = order[k];
        proof {
            if idx < slots@.len() {
                if slots@[idx as int] is Some {
                    assert forall|p: int| 0 <= p < k implies #[trigger] order@[p] != order@[k as int] by {
                        if order@[p] == order@[k as int] {
                            assert(slots@[order@[p] as int] is None);
                        }
                    }
                    assert(runs_at(all, order@, k as int));
                } else {
                    let p = choose|p: int| 0 <= p < k && order@[p] == idx;
                    assert(order@[p] == order@[k as int]);
                    assert(!runs_at(all, order@, k as int));
                }
            } else {
                assert(!runs_at(all, order@, k as int));
            }
        }
        let ghost store_before = store@;
        let ghost slots_before = slots@;
        if idx < slots.len() {
            let mut slot: Option<ReportingStep> = None;
            let ghost before_slots = slots@;
            slots.set_and_swap(idx, &mut slot);
            proof {
                assert forall|i: int| 0 <= i < slots@.len() implies (#[trigger] slots@[i] matches Some(s)
                    ==> s == all[i]) by {
                    if i != idx {
                        assert(slots@[i] == before_slots[i]);
                    }
                }
            }
            match slot {
                Some(step) => {
                    let ghost sid = step_id(step);
                    assert(step == all[idx as int]);
                    let mut made = match execute_step(step, dependencies, &store) {
                        Ok(m) => m,
                        Err(e) => {
                            proof {
                                assert forall|p: int| 0 <= p < k implies #[trigger] order@[p] != order@[k as int] by {
                                    if order@[p] == order@[k as int] {
                                        assert(slots_before[order@[p] as int] is None);
                                    }
                                }
                                assert(runs_at(all, order@, k as int));
                                assert(!step_runs(
                                    all[order@[k as int] as int],
                                    dependencies@,
                                    run_store(all, dependencies@, order@, k as int),
                                ));
                                assert(!run_ok(all, dependencies@, order@, k + 1));
                                if run_ok(all, dependencies@, order@, n as int) {
                                    lemma_run_ok_prefix(all, dependencies@, order@, k + 1, n as int);
                                }

                            }
                            return Err(e);
                        },
                    };
                    let ghost before = store@;
                    let ghost new = made@;
                    store.append(&mut made);
                    proof {
                        crate::products::lemma_value_append(before, new);
                        lemma_append_made_by(before, new, all, idx as int);
                        crate::products::lemma_store_append_has(before, new);
                        assert forall|x: ProductIdView| #[trigger] store_has(new, x) == step_outputs(all[idx as int]).contains(x) by {
                            if store_has(new, x) {
                                let j = choose|j: int| 0 <= j < new.len() && (#[trigger] new[j]).0 == x;
                                assert(store_ids(new)[j] == x);
                            }
                            if step_outputs(all[idx as int]).contains(x) {
                                let j = choose|j: int| 0 <= j < step_outputs(all[idx as int]).len() && step_outputs(all[idx as int])[j] == x;
                                assert(store_ids(new)[j] == new[j].0);
                            }
                        }
                    }
                },
                None => {
                    proof {
                        assert(slots_before[idx as int] is None);
                    }
                },
            }
        }
        proof {
            assert forall|p: int| 0 <= p < k + 1 && order@[p] < slots@.len() implies (#[trigger] slots@[order@[p] as int]) is None by {
                if p < k && order@[p] != idx {
                    assert(slots@[order@[p] as int] == slots_before[order@[p] as int]);
                }
            }
            assert forall|x: ProductIdView| #[trigger] store_has(store@, x) == ran_output(all, order@, k + 1, x) by {
                if ran_output(all, order@, k + 1, x) && !ran_output(all, order@, k as int, x) {
                    let p = choose|p: int|
                        0 <= p < k + 1 && order@[p] < all.len() && step_outputs(all[(#[trigger] order@[p]) as int]).contains(x);
                    assert(p == k);
                }
                if ran_output(all, order@, k as int, x) {
                    let p = choose|p: int|
                        0 <= p < k && order@[p] < all.len() && step_outputs(all[(#[trigger] order@[p]) as int]).contains(x);
                    assert(0 <= p < k + 1);
                }
                if idx < slots@.len() && slots_before[idx as int] is None && step_outputs(all[idx as int]).contains(x) {
                    let p = choose|p: int| 0 <= p < k && order@[p] == idx;
                    assert(order@[p] < all.len() && step_outputs(all[order@[p] as int]).contains(x));
                }
            }
            assert forall|i: int|
                0 <= i < slots@.len() && (#[trigger] slots@[i]) is None implies exists|p: int|
                    0 <= p < k + 1 && order@[p] == i by {
                if i == idx {
                    assert(order@[k as int] == i);
                } else {
                    assert(slots@[i] == slots_before[i]);
                    let p = choose|p: int| 0 <= p < k && order@[p] == i;
                    assert(0 <= p < k + 1);
                }
            }
        }
        k = k + 1;
    }
    Ok(store)
}

proof fn lemma_append_made_by(
    s: Seq<(ProductIdView, ReportingProduct)>,
    o: Seq<(ProductIdView, ReportingProduct)>,
    steps: Seq<ReportingStep>,
    idx: int,
)
    requires
        made_by_steps(s, steps),
        0 <= idx < steps.len(),
        forall|i: int| 0 <= i < o.len() ==> produces(step_id(steps[idx]), (#[trigger] o[i]).0),
    ensures
        made_by_steps(crate::products::store_append(s, o), steps),
    decreases o.len(),
{
    if o.len() > 0 {
        let prev = crate::products::store_append(s, o.drop_last());
        assert forall|i: int| 0 <= i < o.drop_last().len() implies produces(
            step_id(steps[idx]),
            (#[trigger] o.drop_last()[i]).0,
        ) by {
            assert(o.drop_last()[i] == o[i]);
        }
        lemma_append_made_by(s, o.drop_last(), steps, idx);
        let k = o.last().0;
        let r = crate::products::store_insert(prev, k, o.last().1);
        assert(produces(step_id(steps[idx]), o[o.len() - 1].0));
        assert forall|i: int| 0 <= i < r.len() implies exists|j: int|
            0 <= j < steps.len() && produces(step_id(steps[j]), #[trigger] r[i].0) by {
            if r[i].0 == k {
                assert(produces(step_id(steps[idx]), r[i].0));
            } else {
                if crate::products::store_has(prev, k) {
                    let c = choose|c: int| 0 <= c < prev.len() && (#[trigger] prev[c]).0 == k;
                    assert(r[i] == prev[i]);
                } else {
                    assert(r[i] == prev[i]);
                }
            }
        }
    }
}

} // verus!

verus! {

// ---------------------------------------------------------------------------
// Whole runs

/// Errors of a reporting run
pub enum ReportingError {
    ReportingCalculationError(ReportingCalculationError),
    ReportingExecutionError(ReportingExecutionError),
}

/// The ids of a list of steps
pub open spec fn steps_ids(steps: Seq<ReportingStep>) -> Seq<StepIdView> {
    Seq::new(steps.len(), |i: int| step_id(steps[i]))
}

fn step_ids(steps: &Vec<ReportingStep>) -> (r: Vec<ReportingStepId>)
    ensures
        ids_view(r@) == steps_ids(steps@),
{
    let mut out: Vec<ReportingStepId> = Vec::new();
    let n = steps.len();
    let mut i: usize = 0;
    while i < n
        invariant
            n == steps@.len(),
            i <= n,
            out@.len() == i,
            forall|j: int| 0 <= j < i ==> (#[trigger] out@[j])@ == step_id(steps@[j]),
        decreases n - i,
    {
        out.push(steps[i].id());
        i = i + 1;
    }
    assert(ids_view(out@) =~= steps_ids(steps@));
    out
}

/// Whether `o` is a valid order of the graph in which every step runs
/// without error
pub open spec fn runs_cleanly(steps: Seq<ReportingStep>, deps: Seq<DependencyView>, o: Seq<usize>) -> bool {
    valid_order(steps_ids(steps), deps, o) && run_ok(steps, deps, o, o.len() as int)
}

/// What checking, ordering and running a graph whose edges all start at its
/// steps gives: `NoStepForProduct` exactly when an edge's product is made by
/// no step; else `CircularDependencies` exactly when no valid order exists;
/// else a run in a valid order, which fails only if a step of it fails, and
/// which is owed to succeed when the steps run without error in every valid
/// order; on success the store holds the run's products with their values
pub open spec fn checked_run_result(
    steps: Seq<ReportingStep>,
    deps: Seq<DependencyView>,
    r: Result<ReportingProducts, ReportingError>,
) -> bool {
    let ids = steps_ids(steps);
    &&& (r matches Err(ReportingError::ReportingCalculationError(
        ReportingCalculationError::NoStepForProduct { .. },
    ))) == !products_known(ids, deps)
    &&& (r matches Err(ReportingError::ReportingCalculationError(
        ReportingCalculationError::CircularDependencies,
    ))) == (products_known(ids, deps) && !exists|o: Seq<usize>| valid_order(ids, deps, o))
    &&& !(r matches Err(
        ReportingError::ReportingCalculationError(ReportingCalculationError::UnknownStep { .. }),
    ))
    &&& r is Err && !(r matches Err(ReportingError::ReportingCalculationError(_))) ==> exists|o: Seq<usize>|
        valid_order(ids, deps, o) && !run_ok(steps, deps, o, o.len() as int)
    &&& r matches Ok(store) ==> store.wf() && (forall|x: ProductIdView|
        #[trigger] store_has(store@, x) == graph_output(steps, x)) && exists|o: Seq<usize>|
        runs_cleanly(steps, deps, o) && store_value(store@) == run_store(
            steps,
            deps,
            o,
            o.len() as int,
        )
    &&& (products_known(ids, deps) && (exists|o: Seq<usize>| valid_order(ids, deps, o))
        && forall|o: Seq<usize>| valid_order(ids, deps, o) ==> run_ok(steps, deps, o, o.len() as int))
        ==> r is Ok
}

/// Check, order and run a resolved graph
///
/// Edges are checked in order: the first one from a step not in the graph
/// gives `UnknownStep`, the first whose product no step makes gives
/// `NoStepForProduct`; with every edge met, a graph with no valid order gives
/// `CircularDependencies`; else the steps run in the scheduler's order.
pub fn order_and_execute(steps: Vec<ReportingStep>, dependencies: &ReportingGraphDependencies) -> (r:
    Result<ReportingProducts, ReportingError>)
    requires
        forall|i: int| 0 <= i < steps@.len() ==> step_wf(#[trigger] steps@[i]),
    ensures
        r matches Err(ReportingError::ReportingCalculationError(e)) ==> match e {
            ReportingCalculationError::UnknownStep { .. } => !steps_known(
                steps_ids(steps@),
                dependencies@,
            ),
            ReportingCalculationError::NoStepForProduct { .. } => !products_known(
                steps_ids(steps@),
                dependencies@,
            ),
            ReportingCalculationError::CircularDependencies => steps_known(
                steps_ids(steps@),
                dependencies@,
            ) && products_known(steps_ids(steps@), dependencies@) && forall|o: Seq<usize>|
                !valid_order(steps_ids(steps@), dependencies@, o),
        },
        (steps_known(steps_ids(steps@), dependencies@) && products_known(
            steps_ids(steps@),
            dependencies@,
        ) && exists|o: Seq<usize>| valid_order(steps_ids(steps@), dependencies@, o)) ==> !(r matches Err(
            ReportingError::ReportingCalculationError(_),
        )),
        r matches Ok(store) ==> store.wf() && made_by_steps(store@, steps@),
        r matches Ok(store) ==> forall|x: ProductIdView|
            #[trigger] store_has(store@, x) == graph_output(steps@, x),
        steps_known(steps_ids(steps@), dependencies@) ==> checked_run_result(
            steps@,
            dependencies@,
            r,
        ),
{
    let ghost all = steps@;
    let count = steps.len();
    let ids = step_ids(&steps);
    match check_dependencies(&ids, dependencies) {
        Ok(()) => {},
        Err(e) => {
            return Err(ReportingError::ReportingCalculationError(e));
        },
    }
    let order = match sort_steps(&ids, dependencies) {
        Ok(o) => o,
        Err(e) => {
            return Err(ReportingError::ReportingCalculationError(e));
        },
    };
    proof {
        assert(ids_view(ids@) == steps_ids(all));
        assert(valid_order(steps_ids(all), dependencies@, order@));
    }
    match execute_steps(steps, dependencies, &order) {
        Ok(store) => {
            proof {
                assert forall|x: ProductIdView| #[trigger] store_has(store@, x) == graph_output(all, x) by {
                    lemma_valid_order_outputs(all, dependencies@, order@, x);
                }
                assert(runs_cleanly(all, dependencies@, order@));
            }
            Ok(store)
        },
        Err(e) => {
            proof {
                assert(!run_ok(all, dependencies@, order@, order@.len() as int));
            }
            Err(ReportingError::ReportingExecutionError(e))
        },
    }
}

/// The steps `steps` in the order `o`
pub open spec fn permuted(steps: Seq<ReportingStep>, o: Seq<usize>) -> Seq<ReportingStep> {
    Seq::new(o.len(), |p: int| steps[o[p] as int])
}

/// The order that runs the first `n` positions of a list in list order
pub open spec fn identity_order(n: nat) -> Seq<usize> {
    Seq::new(n, |i: int| i as usize)
}

/// The steps of `steps` in the order `order`
fn arrange(steps: Vec<ReportingStep>, order: &Vec<usize>) -> (r: Vec<ReportingStep>)
    requires
        order@.no_duplicates(),
        forall|p: int| 0 <= p < order@.len() ==> order@[p] < steps@.len(),
    ensures
        r@ == permuted(steps@, order@),
{
    let ghost all = steps@;
    let mut slots: Vec<Option<ReportingStep>> = Vec::new();
    let mut rest = steps;
    while rest.len() > 0
        invariant
            slots@.len() + rest@.len() == all.len(),
            rest@ == all.subrange(slots@.len() as int, all.len() as int),
            forall|i: int| 0 <= i < slots@.len() ==> slots@[i] == Some(all[i]),
        decreases rest@.len(),
    {
        let s = rest.remove(0);
        slots.push(Some(s));
    }
    let mut out: Vec<ReportingStep> = Vec::new();
    let n = order.len();
    let mut p: usize = 0;
    while p < n
        invariant
            n == order@.len(),
            p <= n,
            slots@.len() == all.len(),
            order@.no_duplicates(),
            forall|q: int| 0 <= q < order@.len() ==> order@[q] < all.len(),
            forall|i: int|
                0 <= i < slots@.len() ==> (#[trigger] slots@[i] is Some ==> slots@[i] == Some(all[i])),
            forall|q: int| p <= q < n ==> (#[trigger] slots@[order@[q] as int]) is Some,
            out@ == permuted(all, order@.subrange(0, p as int)),
        decreases n - p,
    {
        let idx = order[p];
        let mut slot: Option<ReportingStep> = None;
        let ghost before = slots@;
        slots.set_and_swap(idx, &mut slot);
        proof {
            assert forall|q: int| p + 1 <= q < n implies (#[trigger] slots@[order@[q] as int]) is Some by {
                assert(order@[q] != order@[p as int]);
                assert(slots@[order@[q] as int] == before[order@[q] as int]);
            }
            assert forall|i: int| 0 <= i < slots@.len() implies (#[trigger] slots@[i] is Some
                ==> slots@[i] == Some(all[i])) by {
                if i != idx {
                    assert(slots@[i] == before[i]);
                }
            }
        }
        match slot {
            Some(s) => {
                out.push(s);
            },
            None => {
                assert(false);
            },
        }
        proof {
            assert(out@ =~= permuted(all, order@.subrange(0, p + 1)));
        }
        p = p + 1;
    }
    assert(order@.subrange(0, n as int) =~= order@);
    out
}

fn identity(n: usize) -> (r: Vec<usize>)
    ensures
        r@ == identity_order(n as nat),
{
    let mut out: Vec<usize> = Vec::new();
    let mut i: usize = 0;
    while i < n
        invariant
            i <= n,
            out@ == identity_order(i as nat),
        decreases n - i,
    {
        out.push(i);
        assert(out@ =~= identity_order((i + 1) as nat));
        i = i + 1;
    }
    out
}

/// Running the steps of a valid order, in that order, is a valid order of
/// the list so arranged; the list makes the same products
pub proof fn lemma_permuted_valid(
    steps: Seq<ReportingStep>,
    deps: Seq<DependencyView>,
    o: Seq<usize>,
)
    requires
        valid_order(steps_ids(steps), deps, o),
        o.len() <= usize::MAX,
        steps.len() <= usize::MAX,
    ensures
        valid_order(steps_ids(permuted(steps, o)), deps, identity_order(o.len())),
        forall|x: ProductIdView| #[trigger] graph_output(permuted(steps, o), x) == graph_output(steps, x),
        (forall|i: int| 0 <= i < steps.len() ==> step_wf(#[trigger] steps[i])) ==> forall|i: int|
            0 <= i < permuted(steps, o).len() ==> step_wf(#[trigger] permuted(steps, o)[i]),
{
    let perm = permuted(steps, o);
    let ids = steps_ids(steps);
    let pids = steps_ids(perm);
    let id = identity_order(o.len());
    assert forall|p: int| 0 <= p < id.len() implies #[trigger] order_ids(pids, id, p) == order_ids(ids, o, p) by {
        assert(order_ids(pids, id, p) =~= order_ids(ids, o, p));
    }
    assert forall|p: int| 0 <= p < id.len() implies ready(deps, pids[id[p] as int], #[trigger] order_ids(pids, id, p)) by {
        assert(order_ids(pids, id, p) == order_ids(ids, o, p));
        assert(pids[id[p] as int] == ids[o[p] as int]);
    }
    assert forall|i: usize| i < pids.len() implies id.contains(i) by {
        assert(id[i as int] == i);
    }
    assert(id.no_duplicates());
    assert forall|x: ProductIdView| #[trigger] graph_output(perm, x) == graph_output(steps, x) by {
        if graph_output(perm, x) {
            let p = choose|p: int| 0 <= p < perm.len() && step_outputs(#[trigger] perm[p]).contains(x);
            assert(perm[p] == steps[o[p] as int]);
        }
        if graph_output(steps, x) {
            let i = choose|i: int| 0 <= i < steps.len() && step_outputs(#[trigger] steps[i]).contains(x);
            assert(ids.len() == steps.len());
            assert(o.contains(i as usize));
            let p = choose|p: int| 0 <= p < o.len() && o[p] == i as usize;
            assert(perm[p] == steps[i]);
        }
    }
}

/// What resolving, checking and ordering the products `targets` gives over the
/// resolved graph `(steps, deps)`: `NoStepForProduct` exactly when a target or
/// the product of an edge is made by no step; else `CircularDependencies`
/// exactly when the steps have no valid order; else the steps in the
/// scheduler's order (valid, taking at each point the first ready step in
/// list order), with the edges
#[verifier::opaque]
pub open spec fn solve_result(
    targets: Seq<ProductIdView>,
    steps: Seq<ReportingStep>,
    deps: Seq<DependencyView>,
    r: Result<(Vec<ReportingStep>, ReportingGraphDependencies), ReportingCalculationError>,
) -> bool {
    let ids = steps_ids(steps);
    let made = forall|k: int| 0 <= k < targets.len() ==> produced(steps, #[trigger] targets[k]);
    &&& !(r matches Err(ReportingCalculationError::UnknownStep { .. }))
    &&& (r matches Err(ReportingCalculationError::NoStepForProduct { .. })) == (!made
        || !products_known(ids, deps))
    &&& (r matches Err(ReportingCalculationError::CircularDependencies)) == (made && products_known(
        ids,
        deps,
    ) && !exists|o: Seq<usize>| valid_order(ids, deps, o))
    &&& r matches Ok((sorted, d)) ==> d@ == deps && steps.len() <= usize::MAX && exists|o: Seq<usize>|
        valid_order(ids, deps, o) && crate::graph::first_ready_each_time(ids, deps, o)
            && sorted@ == permuted(steps, o)
}

proof fn lemma_solve_unmade(
    targets: Seq<ProductIdView>,
    steps: Seq<ReportingStep>,
    deps: Seq<DependencyView>,
    k: int,
    message: String,
)
    requires
        0 <= k < targets.len(),
        !produced(steps, targets[k]),
    ensures
        solve_result(
            targets,
            steps,
            deps,
            Err(ReportingCalculationError::NoStepForProduct { message }),
        ),
{
    reveal(solve_result);
}

proof fn lemma_solve_checked(
    targets: Seq<ProductIdView>,
    steps: Seq<ReportingStep>,
    deps: Seq<DependencyView>,
    e: ReportingCalculationError,
)
    requires
        steps_known(steps_ids(steps), deps),
        !(steps_known(steps_ids(steps), deps) && products_known(steps_ids(steps), deps)),
        e is UnknownStep || e is NoStepForProduct,
        e is UnknownStep ==> !steps_known(steps_ids(steps), deps),
    ensures
        solve_result(targets, steps, deps, Err(e)),
{
    reveal(solve_result);
}

proof fn lemma_solve_cycle(
    targets: Seq<ProductIdView>,
    steps: Seq<ReportingStep>,
    deps: Seq<DependencyView>,
    e: ReportingCalculationError,
)
    requires
        forall|k: int| 0 <= k < targets.len() ==> produced(steps, #[trigger] targets[k]),
        products_known(steps_ids(steps), deps),
        e is CircularDependencies,
        !exists|o: Seq<usize>| valid_order(steps_ids(steps), deps, o),
    ensures
        solve_result(targets, steps, deps, Err(e)),
{
    reveal(solve_result);
}

proof fn lemma_solve_ok(
    targets: Seq<ProductIdView>,
    steps: Seq<ReportingStep>,
    deps: Seq<DependencyView>,
    sorted: Vec<ReportingStep>,
    d: ReportingGraphDependencies,
    o: Seq<usize>,
)
    requires
        forall|k: int| 0 <= k < targets.len() ==> produced(steps, #[trigger] targets[k]),
        products_known(steps_ids(steps), deps),
        valid_order(steps_ids(steps), deps, o),
        crate::graph::first_ready_each_time(steps_ids(steps), deps, o),
        sorted@ == permuted(steps, o),
        d@ == deps,
        steps.len() <= usize::MAX,
    ensures
        solve_result(targets, steps, deps, Ok((sorted, d))),
{
    reveal(solve_result);
}

/// Resolve the steps that make the products `targets` ([resolve_steps]),
/// check the graph and order it
///
/// Returns the steps in the scheduler's order, with the edges, or the first
/// error: a target or an edge's product that no step makes gives
/// `NoStepForProduct`, and a graph with no valid order
/// `CircularDependencies` (see [solve_result]). Every edge starts at a step
/// of the graph, so `UnknownStep` never comes out.
#[verifier::rlimit(80)]
pub fn solve_for(targets: Vec<ReportingProductId>, context: &mut ReportingContext) -> (r: Result<
    (Vec<ReportingStep>, ReportingGraphDependencies),
    ReportingCalculationError,
>)
    requires
        old(context).wf(),
    ensures
        final(context).wf(),
        final(context).builders() == old(context).builders(),
        exists|steps: Seq<ReportingStep>, deps: Seq<DependencyView>|
            {
                &&& resolution(
                    product_ids(targets@),
                    old(context).step_lookup@,
                    final(context).step_lookup@,
                    old(context).builders(),
                    steps,
                    deps,
                )
                &&& solve_result(product_ids(targets@), steps, deps, r)
            },
        r matches Ok((sorted, _)) ==> forall|i: int|
            0 <= i < sorted@.len() ==> step_wf(#[trigger] sorted@[i]),
{
    let wanted = copy_products(&targets);
    let ghost tv = targets@;
    let ghost start = context.step_lookup@;
    let ghost bs = context.builders();
    let (steps, dependencies) = resolve_steps(targets, context);
    let ghost all = steps@;
    let ghost deps = dependencies@;
    proof {
        assert(tv == targets@);
        lemma_solved_resolution(product_ids(tv), all, deps, start, context.step_lookup@, bs);
    }
    let n = wanted.len();
    let mut k: usize = 0;
    while k < n
        invariant
            n == wanted@.len(),
            n == tv.len(),
            k <= n,
            forall|j: int| 0 <= j < n ==> (#[trigger] wanted@[j])@ == tv[j]@,
            forall|j: int| 0 <= j < k ==> produced(steps@, (#[trigger] wanted@[j])@),
            all == steps@,
            deps == dependencies@,
            context.wf(),
            context.builders() == bs,
            start == old(context).step_lookup@,
            bs == old(context).builders(),
            tv == targets@,
            resolution(product_ids(tv), start, context.step_lookup@, bs, all, deps),
            steps_known(steps_ids(all), deps),
            forall|i: int| 0 <= i < all.len() ==> step_wf(#[trigger] all[i]),
        decreases n - k,
    {
        match find_producer(&steps, &wanted[k]) {
            Some(i) => {
                assert(produces(step_id(steps@[i as int]), wanted@[k as int]@));
            },
            None => {
                let mut message = wanted[k].name.clone();
                message.append(" is a target that no step makes");
                let ghost m = message;
                let r = Err(ReportingCalculationError::NoStepForProduct { message });
                proof {
                    assert(!produced(steps@, wanted@[k as int]@));
                    assert(product_ids(tv)[k as int] == wanted@[k as int]@);
                    lemma_solve_unmade(product_ids(tv), all, deps, k as int, m);
                }
                return r;
            },
        }
        k = k + 1;
    }
    proof {
        assert forall|j: int| 0 <= j < product_ids(tv).len() implies produced(
            all,
            #[trigger] product_ids(tv)[j],
        ) by {
            assert(produced(all, wanted@[j]@));
        }
    }
    let count = steps.len();
    let ids = step_ids(&steps);
    match check_dependencies(&ids, &dependencies) {
        Ok(()) => {},
        Err(e) => {
            proof {
                assert(ids_view(ids@) == steps_ids(all));
                lemma_solve_checked(product_ids(tv), all, deps, e);
            }
            return Err(e);
        },
    }
    proof {
        assert(ids_view(ids@) == steps_ids(all));
    }
    let order = match sort_steps(&ids, &dependencies) {
        Ok(o) => o,
        Err(e) => {
            proof {
                lemma_solve_cycle(product_ids(tv), all, deps, e);
            }
            return Err(e);
        },
    };
    let ghost o = order@;
    let sorted = arrange(steps, &order);
    proof {
        lemma_solve_ok(product_ids(tv), all, deps, sorted, dependencies, o);
    }
    Ok((sorted, dependencies))
}

/// Resolve, check and order the steps that make the products `targets`
/// ([solve_for]), then run them in that order ([execute_steps])
///
/// Steps offered to lookups join the graph as they are used. Over the graph
/// that [resolve_steps] resolves (see [resolution]), the calculation errors
/// are those of [solve_for]; else the run in the scheduler's order succeeds
/// exactly when each of its steps runs without error on the products of
/// those before it, and then the store holds each target and exactly the
/// products of the graph's steps, with the values of that run (see
/// [report_result]).
pub fn generate_report(targets: Vec<ReportingProductId>, context: &mut ReportingContext) -> (r:
    Result<ReportingProducts, ReportingError>)
    requires
        old(context).wf(),
    ensures
        final(context).wf(),
        final(context).builders() == old(context).builders(),
        exists|steps: Seq<ReportingStep>, deps: Seq<DependencyView>|
            {
                &&& resolution(
                    product_ids(targets@),
                    old(context).step_lookup@,
                    final(context).step_lookup@,
                    old(context).builders(),
                    steps,
                    deps,
                )
                &&& report_result(product_ids(targets@), steps, deps, r)
            },
{
    let ghost tv = product_ids(targets@);
    let solved = solve_for(targets, context);
    proof {
        reveal(solve_result);
    }
    let ghost (all, deps) = choose|steps: Seq<ReportingStep>, deps: Seq<DependencyView>|
        resolution(tv, old(context).step_lookup@, context.step_lookup@, old(context).builders(), steps, deps)
            && solve_result(tv, steps, deps, solved);
    match solved {
        Err(e) => {
            let r = Err(ReportingError::ReportingCalculationError(e));
            proof {
                lemma_report_calc(tv, all, deps, e);
            }
            r
        },
        Ok((sorted, dependencies)) => {
            let ghost o = choose|o: Seq<usize>|
                valid_order(steps_ids(all), deps, o) && crate::graph::first_ready_each_time(
                    steps_ids(all),
                    deps,
                    o,
                ) && sorted@ == permuted(all, o);
            let n = sorted.len();
            let order = identity(n);
            proof {
                lemma_permuted_valid(all, deps, o);
                lemma_solved_resolution(tv, all, deps, old(context).step_lookup@, context.step_lookup@, old(context).builders());
            }
            let r = match execute_steps(sorted, &dependencies, &order) {
                Ok(store) => Ok(store),
                Err(e) => Err(ReportingError::ReportingExecutionError(e)),
            };
            proof {
                lemma_report_run(tv, all, deps, o, r);
            }
            r
        },
    }
}

/// The ids of a list of products
pub open spec fn product_ids(v: Seq<ReportingProductId>) -> Seq<ProductIdView> {
    Seq::new(v.len(), |k: int| v[k]@)
}

/// Whether `(steps, deps)` is a graph that resolution may give for the
/// products `targets`, from the lookups `start` (leaving `cur`) and the
/// builders `builders`: its steps are well formed, each edge starts at one of
/// them and was recorded by the two phases of graph construction (see
/// [recorded_edge]), the edges that `init_graph` records for each of them
/// are present (see [init_edges_present]), each of them makes a target or a
/// product that an edge needs, each source step among them is one that a
/// lookup offered at the start (builders make no source step), each lookup
/// step taken is among them, and each target and each product an edge needs
/// is settled (see [settled])
#[verifier::opaque]
pub open spec fn resolution(
    targets: Seq<ProductIdView>,
    start: Seq<Option<SourceStep>>,
    cur: Seq<Option<SourceStep>>,
    builders: Seq<ReportingStepDynamicBuilder>,
    steps: Seq<ReportingStep>,
    deps: Seq<DependencyView>,
) -> bool {
    &&& forall|i: int| 0 <= i < steps.len() ==> step_wf(#[trigger] steps[i])
    &&& steps_known(steps_ids(steps), deps)
    &&& lookups_kept(start, cur, steps, Seq::empty())
    &&& forall|k: int| 0 <= k < deps.len() ==> recorded_edge(#[trigger] deps[k], steps)
    &&& forall|i: int| 0 <= i < steps.len() ==> step_needed(#[trigger] steps[i], targets, deps)
    &&& sources_from(steps, start)
    &&& forall|i: int| 0 <= i < steps.len() ==> init_edges_present(#[trigger] steps[i], deps)
    &&& forall|k: int|
        0 <= k < targets.len() ==> settled(#[trigger] targets[k], steps, deps, start, cur, builders)
    &&& forall|k: int|
        0 <= k < deps.len() ==> settled((#[trigger] deps[k]).dependency, steps, deps, start, cur, builders)
}

/// A well-formed step outputs every product that its id makes
pub proof fn lemma_step_outputs_produced(s: ReportingStep, t: ProductIdView)
    requires
        step_wf(s),
        produces(step_id(s), t),
    ensures
        step_outputs(s).contains(t),
{
    match s {
        ReportingStep::Source(src) => {
            let k = choose|k: int| 0 <= k < src.id@.kinds.len() && src.id@.kinds[k] == t.kind;
            assert(kind_product(src.id@, src.id@.kinds[k]) == t);
            let i = choose|i: int|
                0 <= i < src.products@.len() && (#[trigger] src.products@[i]).0@ == kind_product(
                    src.id@,
                    src.id@.kinds[k],
                );
            assert(step_outputs(s)[i] == t);
        },
        _ => {
            assert(step_id(s).kinds[0] == t.kind);
            assert(step_outputs(s)[0] == t);
        },
    }
}

/// What a report on the products `targets` gives over the resolved graph
/// `(steps, deps)`: the calculation errors of [solve_result]; else, for the
/// scheduler's order `o`, success exactly when the run of the steps in that
/// order runs cleanly, and then a store holding each target and exactly the
/// products of the graph's steps, with the values of that run
pub open spec fn report_result(
    targets: Seq<ProductIdView>,
    steps: Seq<ReportingStep>,
    deps: Seq<DependencyView>,
    r: Result<ReportingProducts, ReportingError>,
) -> bool {
    let ids = steps_ids(steps);
    let made = forall|k: int| 0 <= k < targets.len() ==> produced(steps, #[trigger] targets[k]);
    &&& !(r matches Err(
        ReportingError::ReportingCalculationError(ReportingCalculationError::UnknownStep { .. }),
    ))
    &&& (r matches Err(
        ReportingError::ReportingCalculationError(
            ReportingCalculationError::NoStepForProduct { .. },
        ),
    )) == (!made || !products_known(ids, deps))
    &&& (r matches Err(
        ReportingError::ReportingCalculationError(ReportingCalculationError::CircularDependencies),
    )) == (made && products_known(ids, deps) && !exists|o: Seq<usize>| valid_order(ids, deps, o))
    &&& (made && products_known(ids, deps) && exists|o: Seq<usize>| valid_order(ids, deps, o))
        ==> exists|o: Seq<usize>|
        {
            &&& valid_order(ids, deps, o)
            &&& crate::graph::first_ready_each_time(ids, deps, o)
            &&& r is Ok == run_ok(permuted(steps, o), deps, identity_order(o.len()), o.len() as int)
            &&& r matches Ok(store) ==> {
                &&& store.wf()
                &&& store_value(store@) == run_store(
                    permuted(steps, o),
                    deps,
                    identity_order(o.len()),
                    o.len() as int,
                )
                &&& forall|x: ProductIdView| #[trigger] store_has(store@, x) == graph_output(steps, x)
                &&& forall|k: int| 0 <= k < targets.len() ==> store_has(store@, #[trigger] targets[k])
            }
        }
}

proof fn lemma_report_calc(
    targets: Seq<ProductIdView>,
    steps: Seq<ReportingStep>,
    deps: Seq<DependencyView>,
    e: ReportingCalculationError,
)
    requires
        solve_result(targets, steps, deps, Err(e)),
    ensures
        report_result(targets, steps, deps, Err(ReportingError::ReportingCalculationError(e))),
{
    reveal(solve_result);
}

proof fn lemma_solved_resolution(
    targets: Seq<ProductIdView>,
    steps: Seq<ReportingStep>,
    deps: Seq<DependencyView>,
    start: Seq<Option<SourceStep>>,
    cur: Seq<Option<SourceStep>>,
    builders: Seq<ReportingStepDynamicBuilder>,
)
    requires
        resolution(targets, start, cur, builders, steps, deps),
    ensures
        forall|i: int| 0 <= i < steps.len() ==> step_wf(#[trigger] steps[i]),
        steps_known(steps_ids(steps), deps),
{
    reveal(resolution);
}

proof fn lemma_report_run(
    targets: Seq<ProductIdView>,
    steps: Seq<ReportingStep>,
    deps: Seq<DependencyView>,
    o: Seq<usize>,
    r: Result<ReportingProducts, ReportingError>,
)
    requires
        valid_order(steps_ids(steps), deps, o),
        crate::graph::first_ready_each_time(steps_ids(steps), deps, o),
        o.len() <= usize::MAX,
        steps.len() <= usize::MAX,
        forall|i: int| 0 <= i < steps.len() ==> step_wf(#[trigger] steps[i]),
        forall|k: int| 0 <= k < targets.len() ==> produced(steps, #[trigger] targets[k]),
        products_known(steps_ids(steps), deps),
        !(r matches Err(ReportingError::ReportingCalculationError(_))),
        r is Ok == run_ok(permuted(steps, o), deps, identity_order(o.len()), o.len() as int),
        r matches Ok(store) ==> store.wf() && store_value(store@) == run_store(
            permuted(steps, o),
            deps,
            identity_order(o.len()),
            o.len() as int,
        ) && forall|x: ProductIdView|
            #[trigger] store_has(store@, x) == ran_output(
                permuted(steps, o),
                identity_order(o.len()),
                o.len() as int,
                x,
            ),
    ensures
        report_result(targets, steps, deps, r),
{
    lemma_permuted_valid(steps, deps, o);
    let perm = permuted(steps, o);
    if let Ok(store) = r {
        assert forall|x: ProductIdView| #[trigger] store_has(store@, x) == graph_output(steps, x) by {
            lemma_valid_order_outputs(perm, deps, identity_order(o.len()), x);
        }
        assert forall|k: int| 0 <= k < targets.len() implies store_has(store@, #[trigger] targets[k]) by {
            let t = targets[k];
            assert(produced(steps, t));
            let i = choose|i: int| 0 <= i < steps.len() && produces(step_id(#[trigger] steps[i]), t);
            lemma_step_outputs_produced(steps[i], t);
            assert(graph_output(steps, t));
        }
    }
    assert(valid_order(steps_ids(steps), deps, o));
}

/// A copy of a list of product ids
fn copy_products(v: &Vec<ReportingProductId>) -> (r: Vec<ReportingProductId>)
    ensures
        r@.len() == v@.len(),
        forall|i: int| 0 <= i < v@.len() ==> (#[trigger] r@[i])@ == v@[i]@,
{
    let mut out: Vec<ReportingProductId> = Vec::new();
    let n = v.len();
    let mut i: usize = 0;
    while i < n
        invariant
            n == v@.len(),
            i <= n,
            out@.len() == i,
            forall|j: int| 0 <= j < i ==> (#[trigger] out@[j])@ == v@[j]@,
        decreases n - i,
    {
        out.push(v[i].copy());
        i = i + 1;
    }
    out
}

/// Whether the step `m` has an edge whose product only steps among
/// `members` make
pub open spec fn needs_only_members(
    ids: Seq<StepIdView>,
    deps: Seq<DependencyView>,
    members: Seq<usize>,
    m: usize,
) -> bool {
    exists|e: int|
        0 <= e < deps.len() && (#[trigger] deps[e]).step == ids[m as int] && forall|j: int|
            0 <= j < ids.len() && produces(#[trigger] ids[j], deps[e].dependency)
                ==> members.contains(j as usize)
}

/// The first position of `o` whose step is among `members`, when the position
/// `last` is such a one
proof fn first_member(o: Seq<usize>, members: Seq<usize>, q: int, last: int) -> (p: int)
    requires
        0 <= q <= last < o.len(),
        members.contains(o[last]),
        forall|r: int| 0 <= r < q ==> !members.contains(#[trigger] o[r]),
    ensures
        0 <= p <= last,
        members.contains(o[p]),
        forall|r: int| 0 <= r < p ==> !members.contains(#[trigger] o[r]),
    decreases last - q,
{
    if members.contains(o[q]) {
        q
    } else {
        first_member(o, members, q + 1, last)
    }
}

/// A graph with a dependency cycle has no valid order, so the scheduler
/// reports `CircularDependencies` for it: if each step of a non-empty set
/// `members` needs a product that only steps of the set make, no order of the
/// steps meets every edge.
pub proof fn cycle_prevents_order(
    ids: Seq<StepIdView>,
    deps: Seq<DependencyView>,
    members: Seq<usize>,
    o: Seq<usize>,
)
    requires
        members.len() > 0,
        forall|a: int| 0 <= a < members.len() ==> members[a] < ids.len(),
        forall|a: int|
            0 <= a < members.len() ==> needs_only_members(ids, deps, members, #[trigger] members[a]),
    ensures
        !valid_order(ids, deps, o),
{
    if valid_order(ids, deps, o) {
        let m = members[0];
        assert(members.contains(m));
        assert(o.contains(m));
        let last = choose|p: int| 0 <= p < o.len() && o[p] == m;
        let p = first_member(o, members, 0, last);
        let a = choose|a: int| 0 <= a < members.len() && members[a] == o[p];
        assert(needs_only_members(ids, deps, members, members[a]));
        let e = choose|e: int|
            0 <= e < deps.len() && (#[trigger] deps[e]).step == ids[members[a] as int]
                && forall|j: int|
                0 <= j < ids.len() && produces(#[trigger] ids[j], deps[e].dependency)
                    ==> members.contains(j as usize);
        let prefix = crate::graph::order_ids(ids, o, p);
        assert(crate::graph::ready(deps, ids[o[p] as int], prefix));
        assert(crate::graph::dependency_met(deps[e], prefix));
        let q = choose|q: int| 0 <= q < prefix.len() && produces(#[trigger] prefix[q], deps[e].dependency);
        assert(prefix[q] == ids[o[q] as int]);
        assert(members.contains(o[q]));
    }
}

/// For the scheduler: a graph with such a set of steps is reported as
/// `CircularDependencies`
pub proof fn cycle_is_reported(
    ids: Seq<StepIdView>,
    deps: Seq<DependencyView>,
    members: Seq<usize>,
)
    requires
        members.len() > 0,
        forall|a: int| 0 <= a < members.len() ==> members[a] < ids.len(),
        forall|a: int|
            0 <= a < members.len() ==> needs_only_members(ids, deps, members, #[trigger] members[a]),
    ensures
        !exists|o: Seq<usize>| valid_order(ids, deps, o),
{
    assert forall|o: Seq<usize>| !valid_order(ids, deps, o) by {
        cycle_prevents_order(ids, deps, members, o);
    }
}

} // verus!

verus! {

// ---------------------------------------------------------------------------
// Steps over stored data

/// All transactions of the ledger, as read from storage by the caller
pub struct DBTransactions {}

impl DBTransactions {
    /// The step, named `DBTransactions` and with no argument, that makes the
    /// transactions `transactions`
    pub fn step(transactions: Vec<TransactionWithPostings>) -> (r: SourceStep)
        ensures
            r.wf(),
            r.id@ == step_id_view(db_transactions_name(), seq![ReportingProductKind::Transactions], ArgsView::Void),
            r.needs@.len() == 0,
            r.products@.len() == 1,
            r.products@[0].0@ == product_view(
                db_transactions_name(),
                ReportingProductKind::Transactions,
                ReportingStepArgs::VoidArgs(VoidArgs {  }),
            ),
            r.products@[0].1 == ReportingProduct::Transactions(
                crate::products::Transactions { transactions },
            ),
    {
        proof {
            reveal_strlit("DBTransactions");
        }
        let name = String::from_str("DBTransactions");
        assert(name@ =~= db_transactions_name());
        let mut kinds: Vec<ReportingProductKind> = Vec::new();
        kinds.push(ReportingProductKind::Transactions);
        assert(kinds@ =~= seq![ReportingProductKind::Transactions]);
        let id = ReportingStepId {
            name: name.clone(),
            product_kinds: kinds,
            args: ReportingStepArgs::VoidArgs(VoidArgs {  }),
        };
        let key = ReportingProductId {
            name,
            kind: ReportingProductKind::Transactions,
            args: ReportingStepArgs::VoidArgs(VoidArgs {  }),
        };
        let mut products: Vec<(ReportingProductId, ReportingProduct)> = Vec::new();
        products.push((key, ReportingProduct::Transactions(crate::products::Transactions { transactions })));
        let r = SourceStep { id, needs: Vec::new(), products, feeds: Vec::new() };
        assert(r.id@.kinds[0] == ReportingProductKind::Transactions);
        r
    }
}

/// Account balances at a date, as read from storage by the caller
pub struct DBBalances {}

impl DBBalances {
    /// The step, named `DBBalances` and with the date `args`, that makes the
    /// balances `balances`
    pub fn step(args: DateArgs, balances: BalanceMap) -> (r: SourceStep)
        ensures
            r.wf(),
            r.id@ == step_id_view(db_balances_name(), seq![ReportingProductKind::BalancesAt], ArgsView::Date(args.date)),
            r.needs@.len() == 0,
            r.products@.len() == 1,
            r.products@[0].0@ == product_view(
                db_balances_name(),
                ReportingProductKind::BalancesAt,
                ReportingStepArgs::DateArgs(args),
            ),
            r.products@[0].1 == ReportingProduct::BalancesAt(BalancesAt { balances }),
    {
        proof {
            reveal_strlit("DBBalances");
        }
        let name = String::from_str("DBBalances");
        assert(name@ =~= db_balances_name());
        let mut kinds: Vec<ReportingProductKind> = Vec::new();
        kinds.push(ReportingProductKind::BalancesAt);
        assert(kinds@ =~= seq![ReportingProductKind::BalancesAt]);
        let id = ReportingStepId {
            name: name.clone(),
            product_kinds: kinds,
            args: ReportingStepArgs::DateArgs(args),
        };
        let key = ReportingProductId {
            name,
            kind: ReportingProductKind::BalancesAt,
            args: ReportingStepArgs::DateArgs(args),
        };
        let mut products: Vec<(ReportingProductId, ReportingProduct)> = Vec::new();
        products.push((key, ReportingProduct::BalancesAt(BalancesAt { balances })));
        let r = SourceStep { id, needs: Vec::new(), products, feeds: Vec::new() };
        assert(r.id@.kinds[0] == ReportingProductKind::BalancesAt);
        r
    }
}

/// The name of the step of [DBTransactions]
pub open spec fn db_transactions_name() -> Seq<char> {
    seq!['D', 'B', 'T', 'r', 'a', 'n', 's', 'a', 'c', 't', 'i', 'o', 'n', 's']
}

/// The name of the step of [DBBalances]
pub open spec fn db_balances_name() -> Seq<char> {
    seq!['D', 'B', 'B', 'a', 'l', 'a', 'n', 'c', 'e', 's']
}

/// A step id from its parts
pub open spec fn step_id_view(
    name: Seq<char>,
    kinds: Seq<ReportingProductKind>,
    args: ArgsView,
) -> StepIdView {
    StepIdView { name, kinds, args }
}

} // verus!

verus! {

/// A valid order runs every step, so the products it runs are those of the
/// whole graph
proof fn lemma_valid_order_outputs(
    steps: Seq<ReportingStep>,
    deps: Seq<DependencyView>,
    o: Seq<usize>,
    x: ProductIdView,
)
    requires
        steps.len() <= usize::MAX,
        valid_order(steps_ids(steps), deps, o),
    ensures
        ran_output(steps, o, o.len() as int, x) == graph_output(steps, x),
{
    if ran_output(steps, o, o.len() as int, x) {
        let p = choose|p: int|
            0 <= p < o.len() && o[p] < steps.len() && step_outputs(steps[(#[trigger] o[p]) as int]).contains(x);
        assert(step_outputs(steps[o[p] as int]).contains(x));
    }
    if graph_output(steps, x) {
        let i = choose|i: int| 0 <= i < steps.len() && step_outputs(#[trigger] steps[i]).contains(x);
        assert(steps_ids(steps).len() == steps.len());
        assert(o.contains(i as usize));
        let p = choose|p: int| 0 <= p < o.len() && o[p] == i as usize;
        assert(o[p] as int == i);
        assert(o[p] < steps.len() && step_outputs(steps[o[p] as int]).contains(x));
    }
}

/// Which products a run holds does not depend on the valid order it follows:
/// two valid orders of the same graph run steps that make the same products.
/// ([execute_steps] ends with an entry for exactly the products of the steps
/// it ran.)
pub proof fn run_products_independent_of_order(
    steps: Seq<ReportingStep>,
    deps: Seq<DependencyView>,
    first: Seq<usize>,
    second: Seq<usize>,
)
    requires
        steps.len() <= usize::MAX,
        valid_order(steps_ids(steps), deps, first),
        valid_order(steps_ids(steps), deps, second),
    ensures
        forall|x: ProductIdView|
            #[trigger] ran_output(steps, first, first.len() as int, x) == ran_output(
                steps,
                second,
                second.len() as int,
                x,
            ),
{
    assert forall|x: ProductIdView|
        #[trigger] ran_output(steps, first, first.len() as int, x) == ran_output(
            steps,
            second,
            second.len() as int,
            x,
        ) by {
        lemma_valid_order_outputs(steps, deps, first, x);
        lemma_valid_order_outputs(steps, deps, second, x);
    }
}

} // verus!
