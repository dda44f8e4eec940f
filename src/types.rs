//! Identifiers of reporting products and steps, and the arguments that
//! parameterise them.

use vstd::prelude::*;

verus! {

/// A calendar date, as the number of days since the start of the common era
/// (0001-01-01 is day 1)
#[derive(Clone, Copy, Debug, PartialEq, Eq, Structural, Hash)]
pub struct Date {
    pub days: i32,
}

/// The shape of a reporting product
#[derive(Clone, Copy, Debug, PartialEq, Eq, Structural, Hash)]
pub enum ReportingProductKind {
    Transactions,
    BalancesAt,
    BalancesBetween,
    Generic,
}

/// Arguments naming a single date
#[derive(Clone, Copy, Debug, PartialEq, Eq, Structural, Hash)]
pub struct DateArgs {
    pub date: Date,
}

/// Arguments naming a date range, both ends included
#[derive(Clone, Copy, Debug, PartialEq, Eq, Structural, Hash)]
pub struct DateStartDateEndArgs {
    pub date_start: Date,
    pub date_end: Date,
}

/// Arguments naming no parameter
#[derive(Clone, Copy, Debug, PartialEq, Eq, Structural, Hash)]
pub struct VoidArgs {}

/// Arguments naming several dates
#[derive(Clone, Debug, Hash)]
pub struct MultipleDateArgs {
    pub dates: Vec<DateArgs>,
}

/// Arguments naming several date ranges
#[derive(Clone, Debug, Hash)]
pub struct MultipleDateStartDateEndArgs {
    pub dates: Vec<DateStartDateEndArgs>,
}

/// Arguments of a reporting step or product, one variant per shape
#[derive(Clone, Debug, Hash)]
pub enum ReportingStepArgs {
    VoidArgs(VoidArgs),
    DateArgs(DateArgs),
    DateStartDateEndArgs(DateStartDateEndArgs),
    MultipleDateArgs(MultipleDateArgs),
    MultipleDateStartDateEndArgs(MultipleDateStartDateEndArgs),
}

/// Abstract value of [ReportingStepArgs]
pub enum ArgsView {
    Void,
    Date(Date),
    DateRange(DateStartDateEndArgs),
    MultipleDates(Seq<DateArgs>),
    MultipleDateRanges(Seq<DateStartDateEndArgs>),
}

impl View for ReportingStepArgs {
    type V = ArgsView;

    open spec fn view(&self) -> ArgsView {
        match self {
            ReportingStepArgs::VoidArgs(_) => ArgsView::Void,
            ReportingStepArgs::DateArgs(a) => ArgsView::Date(a.date),
            ReportingStepArgs::DateStartDateEndArgs(a) => ArgsView::DateRange(*a),
            ReportingStepArgs::MultipleDateArgs(a) => ArgsView::MultipleDates(a.dates@),
            ReportingStepArgs::MultipleDateStartDateEndArgs(a) => ArgsView::MultipleDateRanges(
                a.dates@,
            ),
        }
    }
}

fn date_args_seq_eq(a: &Vec<DateArgs>, b: &Vec<DateArgs>) -> (r: bool)
    ensures
        r == (a@ == b@),
{
    if a.len() != b.len() {
        return false;
    }
    let n = a.len();
    let mut i: usize = 0;
    while i < n
        invariant
            n == a@.len(),
            n == b@.len(),
            i <= n,
            forall|j: int| 0 <= j < i ==> a@[j] == b@[j],
        decreases n - i,
    {
        if a[i] != b[i] {
            return false;
        }
        i = i + 1;
    }
    assert(a@ =~= b@);
    true
}

fn range_args_seq_eq(a: &Vec<DateStartDateEndArgs>, b: &Vec<DateStartDateEndArgs>) -> (r: bool)
    ensures
        r == (a@ == b@),
{
    if a.len() != b.len() {
        return false;
    }
    let n = a.len();
    let mut i: usize = 0;
    while i < n
        invariant
            n == a@.len(),
            n == b@.len(),
            i <= n,
            forall|j: int| 0 <= j < i ==> a@[j] == b@[j],
        decreases n - i,
    {
        if a[i] != b[i] {
            return false;
        }
        i = i + 1;
    }
    assert(a@ =~= b@);
    true
}

impl ReportingStepArgs {
    /// Whether two arguments have the same shape and the same values
    pub fn same_as(&self, other: &ReportingStepArgs) -> (r: bool)
        ensures
            r == (self@ == other@),
    {
        match (self, other) {
            (ReportingStepArgs::VoidArgs(_), ReportingStepArgs::VoidArgs(_)) => true,
            (ReportingStepArgs::DateArgs(a), ReportingStepArgs::DateArgs(b)) => a.date == b.date,
            (
                ReportingStepArgs::DateStartDateEndArgs(a),
                ReportingStepArgs::DateStartDateEndArgs(b),
            ) => *a == *b,
            (ReportingStepArgs::MultipleDateArgs(a), ReportingStepArgs::MultipleDateArgs(b)) => {
                date_args_seq_eq(&a.dates, &b.dates)
            },
            (
                ReportingStepArgs::MultipleDateStartDateEndArgs(a),
                ReportingStepArgs::MultipleDateStartDateEndArgs(b),
            ) => range_args_seq_eq(&a.dates, &b.dates),
            _ => false,
        }
    }

    /// A copy of these arguments
    pub fn copy(&self) -> (r: ReportingStepArgs)
        ensures
            r@ == self@,
    {
        match self {
            ReportingStepArgs::VoidArgs(_) => ReportingStepArgs::VoidArgs(VoidArgs {  }),
            ReportingStepArgs::DateArgs(a) => ReportingStepArgs::DateArgs(*a),
            ReportingStepArgs::DateStartDateEndArgs(a) => ReportingStepArgs::DateStartDateEndArgs(
                *a,
            ),
            ReportingStepArgs::MultipleDateArgs(a) => {
                let mut dates: Vec<DateArgs> = Vec::new();
                let n = a.dates.len();
                let mut i: usize = 0;
                while i < n
                    invariant
                        n == a.dates@.len(),
                        i <= n,
                        dates@ == a.dates@.subrange(0, i as int),
                    decreases n - i,
                {
                    dates.push(a.dates[i]);
                    i = i + 1;
                }
                assert(dates@ =~= a.dates@);
                ReportingStepArgs::MultipleDateArgs(MultipleDateArgs { dates })
            },
            ReportingStepArgs::MultipleDateStartDateEndArgs(a) => {
                let mut dates: Vec<DateStartDateEndArgs> = Vec::new();
                let n = a.dates.len();
                let mut i: usize = 0;
                while i < n
                    invariant
                        n == a.dates@.len(),
                        i <= n,
                        dates@ == a.dates@.subrange(0, i as int),
                    decreases n - i,
                {
                    dates.push(a.dates[i]);
                    i = i + 1;
                }
                assert(dates@ =~= a.dates@);
                ReportingStepArgs::MultipleDateStartDateEndArgs(
                    MultipleDateStartDateEndArgs { dates },
                )
            },
        }
    }
}

/// Identifies a reporting product: its name, its kind and its arguments
#[derive(Clone, Debug, Hash)]
pub struct ReportingProductId {
    pub name: String,
    pub kind: ReportingProductKind,
    pub args: ReportingStepArgs,
}

/// Abstract value of a [ReportingProductId]
pub struct ProductIdView {
    pub name: Seq<char>,
    pub kind: ReportingProductKind,
    pub args: ArgsView,
}

impl View for ReportingProductId {
    type V = ProductIdView;

    open spec fn view(&self) -> ProductIdView {
        ProductIdView { name: self.name@, kind: self.kind, args: self.args@ }
    }
}

impl ReportingProductId {
    /// Whether two ids have the same name, kind and arguments
    pub fn same_as(&self, other: &ReportingProductId) -> (r: bool)
        ensures
            r == (self@ == other@),
    {
        self.name == other.name && self.kind == other.kind && self.args.same_as(&other.args)
    }

    /// A copy of this id
    pub fn copy(&self) -> (r: ReportingProductId)
        ensures
            r@ == self@,
    {
        ReportingProductId { name: self.name.clone(), kind: self.kind, args: self.args.copy() }
    }
}

/// Identifies a reporting step: its name, the kinds of product it makes and
/// its arguments
#[derive(Clone, Debug, Hash)]
pub struct ReportingStepId {
    pub name: String,
    pub product_kinds: Vec<ReportingProductKind>,
    pub args: ReportingStepArgs,
}

/// Abstract value of a [ReportingStepId]
pub struct StepIdView {
    pub name: Seq<char>,
    pub kinds: Seq<ReportingProductKind>,
    pub args: ArgsView,
}

impl View for ReportingStepId {
    type V = StepIdView;

    open spec fn view(&self) -> StepIdView {
        StepIdView { name: self.name@, kinds: self.product_kinds@, args: self.args@ }
    }
}

/// Whether the step `s` makes the product `p`: same name and arguments, and
/// the product's kind among the step's kinds
pub open spec fn produces(s: StepIdView, p: ProductIdView) -> bool {
    s.name == p.name && s.args == p.args && s.kinds.contains(p.kind)
}

fn kinds_contain(kinds: &Vec<ReportingProductKind>, kind: ReportingProductKind) -> (r: bool)
    ensures
        r == kinds@.contains(kind),
{
    let n = kinds.len();
    let mut i: usize = 0;
    while i < n
        invariant
            n == kinds@.len(),
            i <= n,
            forall|j: int| 0 <= j < i ==> kinds@[j] != kind,
        decreases n - i,
    {
        if kinds[i] == kind {
            return true;
        }
        i = i + 1;
    }
    false
}

fn kinds_eq(a: &Vec<ReportingProductKind>, b: &Vec<ReportingProductKind>) -> (r: bool)
    ensures
        r == (a@ == b@),
{
    if a.len() != b.len() {
        return false;
    }
    let n = a.len();
    let mut i: usize = 0;
    while i < n
        invariant
            n == a@.len(),
            n == b@.len(),
            i <= n,
            forall|j: int| 0 <= j < i ==> a@[j] == b@[j],
        decreases n - i,
    {
        if a[i] != b[i] {
            return false;
        }
        i = i + 1;
    }
    assert(a@ =~= b@);
    true
}

impl ReportingStepId {
    /// Whether two ids have the same name, kinds and arguments
    pub fn same_as(&self, other: &ReportingStepId) -> (r: bool)
        ensures
            r == (self@ == other@),
    {
        self.name == other.name && kinds_eq(&self.product_kinds, &other.product_kinds)
            && self.args.same_as(&other.args)
    }

    /// Whether this step makes the product `product`
    pub fn produces(&self, product: &ReportingProductId) -> (r: bool)
        ensures
            r == produces(self@, product@),
    {
        self.name == product.name && self.args.same_as(&product.args) && kinds_contain(
            &self.product_kinds,
            product.kind,
        )
    }

    /// Whether this step is named `name` and makes products of kind `kind`
    pub fn makes_kind(&self, name: &String, kind: ReportingProductKind) -> (r: bool)
        ensures
            r == (self.name@ == name@ && self.product_kinds@.contains(kind)),
    {
        self.name == *name && kinds_contain(&self.product_kinds, kind)
    }

    /// A copy of this id
    pub fn copy(&self) -> (r: ReportingStepId)
        ensures
            r@ == self@,
    {
        let mut kinds: Vec<ReportingProductKind> = Vec::new();
        let n = self.product_kinds.len();
        let mut i: usize = 0;
        while i < n
            invariant
                n == self.product_kinds@.len(),
                i <= n,
                kinds@ == self.product_kinds@.subrange(0, i as int),
            decreases n - i,
        {
            kinds.push(self.product_kinds[i]);
            i = i + 1;
        }
        assert(kinds@ =~= self.product_kinds@);
        ReportingStepId { name: self.name.clone(), product_kinds: kinds, args: self.args.copy() }
    }
}

} // verus!
