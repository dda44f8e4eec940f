//! A report as a tree of sections and rows, with formula rows, subtotals and
//! the pruning of zero-valued lines.

use vstd::prelude::*;

use crate::{fits_i64, QuantityInt};

verus! {

/// A report composed of [DynamicReportEntry]s under a title and column labels
pub struct DynamicReport {
    pub title: String,
    pub columns: Vec<String>,
    pub entries: Vec<DynamicReportEntry>,
}

/// One line, or group of lines, of a [DynamicReport]
pub enum DynamicReportEntry {
    Section(Section),
    LiteralRow(LiteralRow),
    CalculatedRow(CalculatedRow),
    Spacer,
}

/// A group of entries, with an optional heading text
pub struct Section {
    pub text: String,
    pub id: Option<String>,
    pub visible: bool,
    pub auto_hide: bool,
    pub entries: Vec<DynamicReportEntry>,
}

/// A row whose quantities are known, one per column
pub struct LiteralRow {
    pub text: String,
    pub quantity: Vec<QuantityInt>,
    pub id: Option<String>,
    pub visible: bool,
    pub auto_hide: bool,
    pub link: Option<String>,
    pub heading: bool,
    pub bordered: bool,
}

/// One term of a formula: the value of the line named `id`, negated or not
pub struct FormulaTerm {
    pub id: String,
    pub negate: bool,
}

/// A row whose quantities are the sum of its formula terms, each evaluated
/// against the whole enclosing report
///
/// A term naming a [Section] stands for that section's subtotal, a term naming
/// a [LiteralRow] for its quantities; a term naming nothing stands for zero.
pub struct CalculatedRow {
    pub text: String,
    pub id: Option<String>,
    pub visible: bool,
    pub auto_hide: bool,
    pub link: Option<String>,
    pub heading: bool,
    pub bordered: bool,
    pub terms: Vec<FormulaTerm>,
}

// ---------------------------------------------------------------------------
// Model

/// Whether an optional id is the given text
pub open spec fn id_is(id: Option<String>, target: Seq<char>) -> bool {
    match id {
        Some(s) => s@ == target,
        None => false,
    }
}

/// The first section or literal row named `id`, depth first, among the
/// entries of `es` from index `i` on
pub open spec fn find_from(es: Seq<DynamicReportEntry>, id: Seq<char>, i: int) -> Option<
    DynamicReportEntry,
>
    decreases es, es.len() - i,
{
    if i < 0 || i >= es.len() {
        None
    } else {
        match es[i] {
            DynamicReportEntry::Section(s) => {
                if id_is(s.id, id) {
                    Some(es[i])
                } else {
                    match find_from(s.entries@, id, 0) {
                        Some(e) => Some(e),
                        None => find_from(es, id, i + 1),
                    }
                }
            },
            DynamicReportEntry::LiteralRow(r) => {
                if id_is(r.id, id) {
                    Some(es[i])
                } else {
                    find_from(es, id, i + 1)
                }
            },
            _ => find_from(es, id, i + 1),
        }
    }
}

/// Value of column `c` of a row's quantities; a missing column counts as zero
pub open spec fn col_value(q: Seq<QuantityInt>, c: int) -> int {
    if 0 <= c < q.len() {
        q[c] as int
    } else {
        0
    }
}

/// Sum over column `c` of the first `k` entries of `es`, nested sections
/// included; spacers and calculated rows count as zero
pub open spec fn sum_prefix(es: Seq<DynamicReportEntry>, c: int, k: int) -> int
    decreases es, k,
{
    if k <= 0 || k > es.len() {
        0
    } else {
        sum_prefix(es, c, k - 1) + match es[k - 1] {
            DynamicReportEntry::Section(s) => sum_prefix(s.entries@, c, s.entries@.len() as int),
            DynamicReportEntry::LiteralRow(r) => col_value(r.quantity@, c),
            _ => 0,
        }
    }
}

/// Subtotal over column `c` of all literal rows under `es`
pub open spec fn entries_total(es: Seq<DynamicReportEntry>, c: int) -> int {
    sum_prefix(es, c, es.len() as int)
}

/// The first `k` entries of `es` have rows of at most `ncols` quantities, and
/// every partial sum that a subtotal over `ncols` columns forms fits in i64
pub open spec fn sums_fit(es: Seq<DynamicReportEntry>, ncols: int, k: int) -> bool
    decreases es, k,
{
    if k <= 0 || k > es.len() {
        true
    } else {
        &&& sums_fit(es, ncols, k - 1)
        &&& forall|c: int| 0 <= c < ncols ==> fits_i64(#[trigger] sum_prefix(es, c, k))
        &&& match es[k - 1] {
            DynamicReportEntry::Section(s) => sums_fit(s.entries@, ncols, s.entries@.len() as int),
            DynamicReportEntry::LiteralRow(r) => r.quantity@.len() <= ncols,
            _ => true,
        }
    }
}

/// All subtotals over the entries of `es` can be formed in i64
pub open spec fn entries_fit(es: Seq<DynamicReportEntry>, ncols: int) -> bool {
    sums_fit(es, ncols, es.len() as int)
}

proof fn lemma_sums_fit_prefix(es: Seq<DynamicReportEntry>, ncols: int, k: int, j: int)
    requires
        sums_fit(es, ncols, k),
        0 < j <= k <= es.len(),
    ensures
        sums_fit(es, ncols, j),
        forall|c: int| 0 <= c < ncols ==> fits_i64(#[trigger] sum_prefix(es, c, j)),
        match es[j - 1] {
            DynamicReportEntry::Section(s) => sums_fit(s.entries@, ncols, s.entries@.len() as int),
            DynamicReportEntry::LiteralRow(r) => r.quantity@.len() <= ncols,
            _ => true,
        },
    decreases k,
{
    if j < k {
        lemma_sums_fit_prefix(es, ncols, k - 1, j);
    }
}

/// Abstract value of a [LiteralRow], and of the display fields of a
/// [CalculatedRow] (whose `quantity` is then empty)
pub struct RowView {
    pub text: Seq<char>,
    pub quantity: Seq<QuantityInt>,
    pub id: Option<Seq<char>>,
    pub visible: bool,
    pub auto_hide: bool,
    pub link: Option<Seq<char>>,
    pub heading: bool,
    pub bordered: bool,
}

/// Abstract value of a [Section]
pub struct SectionView {
    pub text: Seq<char>,
    pub id: Option<Seq<char>>,
    pub visible: bool,
    pub auto_hide: bool,
    pub entries: Seq<EntryView>,
}

/// Abstract value of a [DynamicReportEntry]; a formula is a sequence of
/// (id, negated) terms
pub enum EntryView {
    Section(SectionView),
    Row(RowView),
    Calculated(RowView, Seq<(Seq<char>, bool)>),
    Spacer,
}

pub open spec fn opt_view(o: Option<String>) -> Option<Seq<char>> {
    match o {
        Some(s) => Some(s@),
        None => None,
    }
}

pub open spec fn row_view(r: LiteralRow) -> RowView {
    RowView {
        text: r.text@,
        quantity: r.quantity@,
        id: opt_view(r.id),
        visible: r.visible,
        auto_hide: r.auto_hide,
        link: opt_view(r.link),
        heading: r.heading,
        bordered: r.bordered,
    }
}

pub open spec fn calculated_view(r: CalculatedRow) -> EntryView {
    EntryView::Calculated(
        RowView {
            text: r.text@,
            quantity: Seq::empty(),
            id: opt_view(r.id),
            visible: r.visible,
            auto_hide: r.auto_hide,
            link: opt_view(r.link),
            heading: r.heading,
            bordered: r.bordered,
        },
        terms_view(r.terms@),
    )
}

/// Abstract value of a formula: its (id, negated) terms
pub open spec fn terms_view(ts: Seq<FormulaTerm>) -> Seq<(Seq<char>, bool)> {
    Seq::new(ts.len(), |i: int| (ts[i].id@, ts[i].negate))
}

pub open spec fn entry_view(e: DynamicReportEntry) -> EntryView
    decreases e, 0int,
{
    match e {
        DynamicReportEntry::Section(s) => EntryView::Section(
            SectionView {
                text: s.text@,
                id: opt_view(s.id),
                visible: s.visible,
                auto_hide: s.auto_hide,
                entries: views_prefix(s.entries@, s.entries@.len() as int),
            },
        ),
        DynamicReportEntry::LiteralRow(r) => EntryView::Row(row_view(r)),
        DynamicReportEntry::CalculatedRow(r) => calculated_view(r),
        DynamicReportEntry::Spacer => EntryView::Spacer,
    }
}

/// Abstract values of the first `k` entries of `es`
pub open spec fn views_prefix(es: Seq<DynamicReportEntry>, k: int) -> Seq<EntryView>
    decreases es, k,
{
    if k <= 0 || k > es.len() {
        Seq::empty()
    } else {
        views_prefix(es, k - 1).push(entry_view(es[k - 1]))
    }
}

/// Abstract values of a list of entries
pub open spec fn views(es: Seq<DynamicReportEntry>) -> Seq<EntryView> {
    views_prefix(es, es.len() as int)
}

proof fn lemma_views_prefix(es: Seq<DynamicReportEntry>, k: int)
    requires
        0 <= k <= es.len(),
    ensures
        views_prefix(es, k).len() == k,
        forall|i: int| 0 <= i < k ==> #[trigger] views_prefix(es, k)[i] == entry_view(es[i]),
    decreases k,
{
    if k > 0 {
        lemma_views_prefix(es, k - 1);
    }
}

/// Whether a row is hidden automatically: auto-hide is set and every
/// quantity is zero
pub open spec fn row_hideable(r: RowView) -> bool {
    r.auto_hide && forall|c: int| 0 <= c < r.quantity.len() ==> r.quantity[c] == 0
}

/// Whether each of the first `k` entries of `es` is hidden automatically
/// (spacers are, calculated rows are not)
pub open spec fn all_hideable(es: Seq<EntryView>, k: int) -> bool
    decreases es, k,
{
    if k <= 0 || k > es.len() {
        true
    } else {
        all_hideable(es, k - 1) && match es[k - 1] {
            EntryView::Section(s) => s.auto_hide && all_hideable(s.entries, s.entries.len() as int),
            EntryView::Row(r) => row_hideable(r),
            EntryView::Calculated(_, _) => false,
            EntryView::Spacer => true,
        }
    }
}

/// Whether a section is hidden automatically: auto-hide is set and every
/// child is hidden automatically
pub open spec fn section_hideable(s: SectionView) -> bool {
    s.auto_hide && all_hideable(s.entries, s.entries.len() as int)
}

/// The first `k` entries of `es` after auto-hiding, bottom up
pub open spec fn pruned_prefix(es: Seq<EntryView>, k: int) -> Seq<EntryView>
    decreases es, k,
{
    if k <= 0 || k > es.len() {
        Seq::empty()
    } else {
        let prev = pruned_prefix(es, k - 1);
        match es[k - 1] {
            EntryView::Section(s) => {
                let s2 = SectionView { entries: pruned_prefix(s.entries, s.entries.len() as int), ..s };
                if section_hideable(s2) {
                    prev
                } else {
                    prev.push(EntryView::Section(s2))
                }
            },
            EntryView::Row(r) => {
                if row_hideable(r) {
                    prev
                } else {
                    prev.push(es[k - 1])
                }
            },
            _ => prev.push(es[k - 1]),
        }
    }
}

/// A list of entries after auto-hiding
pub open spec fn pruned(es: Seq<EntryView>) -> Seq<EntryView> {
    pruned_prefix(es, es.len() as int)
}

/// Value over column `c` of the line named `id` in the entries `report`: a
/// section's subtotal, a literal row's quantity, or zero if nothing has that id
pub open spec fn term_value(report: Seq<DynamicReportEntry>, id: Seq<char>, c: int) -> int {
    match find_from(report, id, 0) {
        Some(DynamicReportEntry::Section(s)) => entries_total(s.entries@, c),
        Some(DynamicReportEntry::LiteralRow(r)) => col_value(r.quantity@, c),
        _ => 0,
    }
}

/// Sum over column `c` of the first `k` terms of a formula
pub open spec fn formula_prefix(
    report: Seq<DynamicReportEntry>,
    terms: Seq<(Seq<char>, bool)>,
    c: int,
    k: int,
) -> int
    decreases k,
{
    if k <= 0 || k > terms.len() {
        0
    } else if terms[k - 1].1 {
        formula_prefix(report, terms, c, k - 1) - term_value(report, terms[k - 1].0, c)
    } else {
        formula_prefix(report, terms, c, k - 1) + term_value(report, terms[k - 1].0, c)
    }
}

/// Value over column `c` of a formula evaluated against the entries `report`
pub open spec fn formula_value(
    report: Seq<DynamicReportEntry>,
    terms: Seq<(Seq<char>, bool)>,
    c: int,
) -> int {
    formula_prefix(report, terms, c, terms.len() as int)
}

/// A formula can be evaluated in i64 over `ncols` columns: the subtotal of
/// each section it names, and each of its partial sums, fit
pub open spec fn terms_fit(
    report: Seq<DynamicReportEntry>,
    terms: Seq<(Seq<char>, bool)>,
    ncols: int,
) -> bool {
    &&& forall|j: int|
        0 <= j < terms.len() ==> match #[trigger] find_from(report, terms[j].0, 0) {
            Some(DynamicReportEntry::Section(s)) => entries_fit(s.entries@, ncols),
            _ => true,
        }
    &&& forall|c: int, k: int|
        0 <= c < ncols && 0 <= k <= terms.len() ==> fits_i64(
            #[trigger] formula_prefix(report, terms, c, k),
        )
}

/// Whether every formula among the first `k` entries of `es` can be
/// evaluated against `report` over `ncols` columns
pub open spec fn formulas_fit(
    es: Seq<EntryView>,
    report: Seq<DynamicReportEntry>,
    ncols: int,
    k: int,
) -> bool
    decreases es, k,
{
    if k <= 0 || k > es.len() {
        true
    } else {
        formulas_fit(es, report, ncols, k - 1) && match es[k - 1] {
            EntryView::Section(s) => formulas_fit(s.entries, report, ncols, s.entries.len() as int),
            EntryView::Calculated(_, terms) => terms_fit(report, terms, ncols),
            _ => true,
        }
    }
}

/// The literal row that a calculated row becomes against `report`
pub open spec fn calculated_row(
    r: RowView,
    terms: Seq<(Seq<char>, bool)>,
    report: Seq<DynamicReportEntry>,
    ncols: int,
) -> RowView {
    RowView {
        quantity: Seq::new(ncols as nat, |c: int| formula_value(report, terms, c) as QuantityInt),
        ..r
    }
}

/// The first `k` entries of `es` with every calculated row, nested ones
/// included, replaced by its literal row against `report`
pub open spec fn calculated_prefix(
    es: Seq<EntryView>,
    report: Seq<DynamicReportEntry>,
    ncols: int,
    k: int,
) -> Seq<EntryView>
    decreases es, k,
{
    if k <= 0 || k > es.len() {
        Seq::empty()
    } else {
        calculated_prefix(es, report, ncols, k - 1).push(
            match es[k - 1] {
                EntryView::Section(s) => EntryView::Section(
                    SectionView {
                        entries: calculated_prefix(s.entries, report, ncols, s.entries.len() as int),
                        ..s
                    },
                ),
                EntryView::Calculated(r, terms) => EntryView::Row(
                    calculated_row(r, terms, report, ncols),
                ),
                other => other,
            },
        )
    }
}

/// A list of entries after calculation against `report`
pub open spec fn calculated(
    es: Seq<EntryView>,
    report: Seq<DynamicReportEntry>,
    ncols: int,
) -> Seq<EntryView> {
    calculated_prefix(es, report, ncols, es.len() as int)
}

/// Whether no calculated row stands among the first `k` entries of `es`,
/// nested ones included
pub open spec fn literal_prefix(es: Seq<EntryView>, k: int) -> bool
    decreases es, k,
{
    if k <= 0 || k > es.len() {
        true
    } else {
        literal_prefix(es, k - 1) && match es[k - 1] {
            EntryView::Section(s) => literal_prefix(s.entries, s.entries.len() as int),
            EntryView::Calculated(_, _) => false,
            _ => true,
        }
    }
}

/// Whether no calculated row stands in a list of entries
pub open spec fn is_literal(es: Seq<EntryView>) -> bool {
    literal_prefix(es, es.len() as int)
}

// ---------------------------------------------------------------------------
// Subtotals

/// Per-column subtotals of the rows under `entries`
fn entries_subtotal(entries: &Vec<DynamicReportEntry>, ncols: usize) -> (r: Vec<QuantityInt>)
    requires
        entries_fit(entries@, ncols as int),
    ensures
        r@.len() == ncols,
        forall|c: int| 0 <= c < ncols ==> r@[c] == entries_total(entries@, c),
    decreases entries,
{
    let mut subtotals: Vec<QuantityInt> = Vec::new();
    let mut c: usize = 0;
    while c < ncols
        invariant
            c <= ncols,
            subtotals@.len() == c,
            forall|j: int| 0 <= j < c ==> subtotals@[j] == 0,
        decreases ncols - c,
    {
        subtotals.push(0);
        c = c + 1;
    }
    let n = entries.len();
    let mut k: usize = 0;
    while k < n
        invariant
            n == entries@.len(),
            k <= n,
            entries_fit(entries@, ncols as int),
            subtotals@.len() == ncols,
            forall|j: int| 0 <= j < ncols ==> subtotals@[j] == sum_prefix(entries@, j, k as int),
        decreases n - k,
    {
        proof {
            lemma_sums_fit_prefix(entries@, ncols as int, n as int, k + 1);
        }
        match &entries[k] {
            DynamicReportEntry::Section(section) => {
                assert(decreases_to!(entries => section.entries));
                let inner = entries_subtotal(&section.entries, ncols);
                assert(entries@[k as int] == DynamicReportEntry::Section(*section));
                assert(forall|j: int| 0 <= j < ncols ==> #[trigger] sum_prefix(entries@, j, k + 1) == sum_prefix(entries@, j, k as int) + entries_total(section.entries@, j));
                let mut c: usize = 0;
                while c < ncols
                    invariant
                        c <= ncols,
                        subtotals@.len() == ncols,
                        inner@.len() == ncols,
                        forall|j: int| 0 <= j < ncols ==> inner@[j] == entries_total(section.entries@, j),
                        forall|j: int| 0 <= j < ncols ==> #[trigger] sum_prefix(entries@, j, k + 1) == sum_prefix(entries@, j, k as int) + entries_total(section.entries@, j),
                        forall|j: int| 0 <= j < ncols ==> fits_i64(#[trigger] sum_prefix(entries@, j, k + 1)),
                        forall|j: int|
                            0 <= j < c ==> subtotals@[j] == sum_prefix(entries@, j, k + 1),
                        forall|j: int|
                            c <= j < ncols ==> subtotals@[j] == sum_prefix(entries@, j, k as int),
                    decreases ncols - c,
                {
                    assert(fits_i64(sum_prefix(entries@, c as int, k + 1)));
                    let v = subtotals[c] + inner[c];
                    subtotals.set(c, v);
                    c = c + 1;
                }
            },
            DynamicReportEntry::LiteralRow(row) => {
                let m = row.quantity.len();
                assert(entries@[k as int] == DynamicReportEntry::LiteralRow(*row));
                assert(forall|j: int| 0 <= j < ncols ==> #[trigger] sum_prefix(entries@, j, k + 1) == sum_prefix(entries@, j, k as int) + col_value(row.quantity@, j));
                let mut c: usize = 0;
                while c < ncols
                    invariant
                        c <= ncols,
                        m == row.quantity@.len(),
                        m <= ncols,
                        forall|j: int| 0 <= j < ncols ==> #[trigger] sum_prefix(entries@, j, k + 1) == sum_prefix(entries@, j, k as int) + col_value(row.quantity@, j),
                        subtotals@.len() == ncols,
                        forall|j: int| 0 <= j < ncols ==> fits_i64(#[trigger] sum_prefix(entries@, j, k + 1)),
                        forall|j: int|
                            0 <= j < c ==> subtotals@[j] == sum_prefix(entries@, j, k + 1),
                        forall|j: int|
                            c <= j < ncols ==> subtotals@[j] == sum_prefix(entries@, j, k as int),
                    decreases ncols - c,
                {
                    if c < m {
                        assert(fits_i64(sum_prefix(entries@, c as int, k + 1)));
                        let v = subtotals[c] + row.quantity[c];
                        subtotals.set(c, v);
                    }
                    c = c + 1;
                }
            },
            _ => {
                assert(forall|j: int| 0 <= j < ncols ==> sum_prefix(entries@, j, k + 1) == sum_prefix(entries@, j, k as int));
            },
        }
        k = k + 1;
    }
    subtotals
}

impl Section {
    /// Per-column subtotals of all literal rows under this section, nested
    /// sections included, over the columns of `report`
    pub fn subtotal(&self, report: &DynamicReport) -> (r: Vec<QuantityInt>)
        requires
            entries_fit(self.entries@, report.columns@.len() as int),
        ensures
            r@.len() == report.columns@.len(),
            forall|c: int| 0 <= c < r@.len() ==> r@[c] == entries_total(self.entries@, c),
    {
        entries_subtotal(&self.entries, report.columns.len())
    }
}

} // verus!

verus! {

/// The entry that an optional reference points to
pub open spec fn deref_entry(r: Option<&DynamicReportEntry>) -> Option<DynamicReportEntry> {
    match r {
        Some(e) => Some(*e),
        None => None,
    }
}

/// Whether a string holds the given text
pub fn text_eq(a: &String, b: &str) -> (r: bool)
    ensures
        r == (a@ == b@),
{
    let b_owned = b.to_owned();
    *a == b_owned
}

fn opt_text_eq(a: &Option<String>, b: &str) -> (r: bool)
    ensures
        r == id_is(*a, b@),
{
    match a {
        Some(s) => text_eq(s, b),
        None => false,
    }
}

/// The first section or literal row named `id` under `entries`, depth first
fn entries_by_id<'a>(entries: &'a Vec<DynamicReportEntry>, id: &str) -> (r: Option<
    &'a DynamicReportEntry,
>)
    ensures
        deref_entry(r) == find_from(entries@, id@, 0),
    decreases entries,
{
    let n = entries.len();
    let mut i: usize = 0;
    while i < n
        invariant
            n == entries@.len(),
            i <= n,
            find_from(entries@, id@, 0) == find_from(entries@, id@, i as int),
        decreases n - i,
    {
        let entry = &entries[i];
        match entry {
            DynamicReportEntry::Section(section) => {
                if opt_text_eq(&section.id, id) {
                    return Some(entry);
                }
                assert(decreases_to!(entries => section.entries));
                let found = entries_by_id(&section.entries, id);
                if found.is_some() {
                    return found;
                }
            },
            DynamicReportEntry::LiteralRow(row) => {
                if opt_text_eq(&row.id, id) {
                    return Some(entry);
                }
            },
            _ => {},
        }
        i = i + 1;
    }
    None
}

proof fn lemma_all_hideable_mono(es: Seq<EntryView>, k: int, m: int)
    requires
        0 <= k <= m <= es.len(),
        all_hideable(es, m),
    ensures
        all_hideable(es, k),
    decreases m,
{
    if k < m {
        lemma_all_hideable_mono(es, k, m - 1);
    }
}

proof fn lemma_views_push(es: Seq<DynamicReportEntry>, x: DynamicReportEntry, k: int)
    requires
        0 <= k <= es.len(),
    ensures
        views_prefix(es.push(x), k) == views_prefix(es, k),
    decreases k,
{
    if k > 0 {
        lemma_views_push(es, x, k - 1);
        assert(es.push(x)[k - 1] == es[k - 1]);
    }
}

proof fn lemma_views_append(es: Seq<DynamicReportEntry>, x: DynamicReportEntry)
    ensures
        views(es.push(x)) == views(es).push(entry_view(x)),
{
    lemma_views_push(es, x, es.len() as int);
}

impl LiteralRow {
    /// Whether the row has auto-hide enabled and all quantities are zero
    pub fn can_auto_hide(&self) -> (r: bool)
        ensures
            r == row_hideable(row_view(*self)),
    {
        if !self.auto_hide {
            return false;
        }
        let n = self.quantity.len();
        let mut c: usize = 0;
        while c < n
            invariant
                n == self.quantity@.len(),
                c <= n,
                forall|j: int| 0 <= j < c ==> self.quantity@[j] == 0,
            decreases n - c,
        {
            if self.quantity[c] != 0 {
                assert(row_view(*self).quantity[c as int] != 0);
                return false;
            }
            c = c + 1;
        }
        true
    }
}

/// Whether every entry of `entries` is hidden automatically
fn entries_hideable(entries: &Vec<DynamicReportEntry>) -> (r: bool)
    ensures
        r == all_hideable(views(entries@), entries@.len() as int),
    decreases entries,
{
    let n = entries.len();
    let ghost vs = views(entries@);
    proof {
        lemma_views_prefix(entries@, n as int);
    }
    let mut i: usize = 0;
    while i < n
        invariant
            n == entries@.len(),
            i <= n,
            vs == views(entries@),
            vs.len() == n,
            forall|j: int| 0 <= j < n ==> #[trigger] vs[j] == entry_view(entries@[j]),
            all_hideable(vs, i as int),
        decreases n - i,
    {
        let ok = match &entries[i] {
            DynamicReportEntry::Section(section) => {
                assert(decreases_to!(entries => section.entries));
                proof {
                    lemma_views_prefix(section.entries@, section.entries@.len() as int);
                }
                section.auto_hide && entries_hideable(&section.entries)
            },
            DynamicReportEntry::LiteralRow(row) => row.can_auto_hide(),
            DynamicReportEntry::CalculatedRow(_) => false,
            DynamicReportEntry::Spacer => true,
        };
        assert(all_hideable(vs, i + 1) == ok);
        if !ok {
            proof {
                if all_hideable(vs, n as int) {
                    lemma_all_hideable_mono(vs, i + 1, n as int);
                }
            }
            return false;
        }
        i = i + 1;
    }
    true
}

/// The entries that remain of `entries` after auto-hiding, bottom up
fn prune_entries(entries: Vec<DynamicReportEntry>) -> (r: Vec<DynamicReportEntry>)
    ensures
        views(r@) == pruned(views(entries@)),
    decreases entries,
{
    let ghost orig = entries@;
    let ghost vs = views(orig);
    proof {
        lemma_views_prefix(orig, orig.len() as int);
    }
    let mut src = entries;
    let mut out: Vec<DynamicReportEntry> = Vec::new();
    let ghost mut k: int = 0;
    while src.len() > 0
        invariant
            0 <= k <= orig.len(),
            orig == entries@,
            src@ == orig.subrange(k, orig.len() as int),
            vs == views(orig),
            vs.len() == orig.len(),
            forall|j: int| 0 <= j < orig.len() ==> #[trigger] vs[j] == entry_view(orig[j]),
            views(out@) == pruned_prefix(vs, k),
        decreases src@.len(),
    {
        let e = src.remove(0);
        assert(e == orig[k]);
        proof {
            lemma_views_append(out@, e);
        }
        match e {
            DynamicReportEntry::Section(section) => {
                assert(decreases_to!(entries => entries@[k]));
                let Section { text, id, visible, auto_hide, entries: inner } = section;
                let kept = prune_entries(inner);
                let s2 = Section { text, id, visible, auto_hide, entries: kept };
                let hide = s2.can_auto_hide_self();
                if !hide {
                    proof {
                        lemma_views_append(out@, DynamicReportEntry::Section(s2));
                    }
                    out.push(DynamicReportEntry::Section(s2));
                }
            },
            DynamicReportEntry::LiteralRow(row) => {
                if !row.can_auto_hide() {
                    proof {
                        lemma_views_append(out@, DynamicReportEntry::LiteralRow(row));
                    }
                    out.push(DynamicReportEntry::LiteralRow(row));
                }
            },
            other => {
                proof {
                    lemma_views_append(out@, other);
                }
                out.push(other);
            },
        }
        proof {
            k = k + 1;
        }
    }
    out
}

impl Section {
    /// A section with the given fields
    pub fn new(
        text: String,
        id: Option<String>,
        visible: bool,
        auto_hide: bool,
        entries: Vec<DynamicReportEntry>,
    ) -> (r: Section)
        ensures
            r == (Section { text, id, visible, auto_hide, entries }),
    {
        Section { text, id, visible, auto_hide, entries }
    }

    /// Whether this section has auto-hide enabled and every child is hidden
    /// automatically
    pub fn can_auto_hide_self(&self) -> (r: bool)
        ensures
            r == section_hideable(
                match entry_view(DynamicReportEntry::Section(*self)) {
                    EntryView::Section(s) => s,
                    _ => arbitrary(),
                },
            ),
    {
        proof {
            lemma_views_prefix(self.entries@, self.entries@.len() as int);
        }
        self.auto_hide && entries_hideable(&self.entries)
    }

    /// Remove the children that are hidden automatically, bottom up
    pub fn auto_hide_children(&mut self)
        ensures
            final(self).text == old(self).text,
            final(self).id == old(self).id,
            final(self).visible == old(self).visible,
            final(self).auto_hide == old(self).auto_hide,
            views(final(self).entries@) == pruned(views(old(self).entries@)),
    {
        let mut taken: Vec<DynamicReportEntry> = Vec::new();
        core::mem::swap(&mut self.entries, &mut taken);
        self.entries = prune_entries(taken);
    }

    /// The first section or literal row named `id` under this section, depth
    /// first
    pub fn by_id(&self, id: &str) -> (r: Option<&DynamicReportEntry>)
        ensures
            deref_entry(r) == find_from(self.entries@, id@, 0),
    {
        entries_by_id(&self.entries, id)
    }
}

} // verus!

verus! {

fn copy_opt_text(o: &Option<String>) -> (r: Option<String>)
    ensures
        opt_view(r) == opt_view(*o),
{
    match o {
        Some(s) => Some(s.clone()),
        None => None,
    }
}

fn copy_quantities(q: &Vec<QuantityInt>) -> (r: Vec<QuantityInt>)
    ensures
        r@ == q@,
{
    let mut out: Vec<QuantityInt> = Vec::new();
    let n = q.len();
    let mut i: usize = 0;
    while i < n
        invariant
            n == q@.len(),
            i <= n,
            out@ == q@.subrange(0, i as int),
        decreases n - i,
    {
        out.push(q[i]);
        i = i + 1;
    }
    assert(out@ == q@.subrange(0, n as int));
    out
}

fn copy_row(row: &LiteralRow) -> (r: LiteralRow)
    ensures
        row_view(r) == row_view(*row),
{
    LiteralRow {
        text: row.text.clone(),
        quantity: copy_quantities(&row.quantity),
        id: copy_opt_text(&row.id),
        visible: row.visible,
        auto_hide: row.auto_hide,
        link: copy_opt_text(&row.link),
        heading: row.heading,
        bordered: row.bordered,
    }
}

/// Quantities over `ncols` columns of the line named `id` in `report`
fn term_quantities(report: &Vec<DynamicReportEntry>, id: &str, ncols: usize) -> (r: Vec<
    QuantityInt,
>)
    requires
        match find_from(report@, id@, 0) {
            Some(DynamicReportEntry::Section(s)) => entries_fit(s.entries@, ncols as int),
            _ => true,
        },
    ensures
        r@.len() == ncols,
        forall|c: int| 0 <= c < ncols ==> r@[c] == term_value(report@, id@, c),
{
    match entries_by_id(report, id) {
        Some(DynamicReportEntry::Section(section)) => entries_subtotal(&section.entries, ncols),
        found => {
            let mut out: Vec<QuantityInt> = Vec::new();
            let mut c: usize = 0;
            while c < ncols
                invariant
                    c <= ncols,
                    out@.len() == c,
                    deref_entry(found) == find_from(report@, id@, 0),
                    found is None || found->0 is LiteralRow || found->0 is CalculatedRow
                        || found->0 is Spacer,
                    forall|j: int| 0 <= j < c ==> out@[j] == term_value(report@, id@, j),
                decreases ncols - c,
            {
                let v: QuantityInt = match found {
                    Some(DynamicReportEntry::LiteralRow(row)) => {
                        if c < row.quantity.len() {
                            row.quantity[c]
                        } else {
                            0
                        }
                    },
                    _ => 0,
                };
                out.push(v);
                c = c + 1;
            }
            out
        },
    }
}

/// Quantities over `ncols` columns of a formula evaluated against `report`
fn formula_quantities(
    terms: &Vec<FormulaTerm>,
    report: &Vec<DynamicReportEntry>,
    ncols: usize,
) -> (r: Vec<QuantityInt>)
    requires
        terms_fit(report@, terms_view(terms@), ncols as int),
    ensures
        r@.len() == ncols,
        forall|c: int| 0 <= c < ncols ==> r@[c] == formula_value(report@, terms_view(terms@), c),
{
    let ghost tv = terms_view(terms@);
    let mut acc: Vec<QuantityInt> = Vec::new();
    let mut c: usize = 0;
    while c < ncols
        invariant
            c <= ncols,
            acc@.len() == c,
            forall|j: int| 0 <= j < c ==> acc@[j] == 0,
        decreases ncols - c,
    {
        acc.push(0);
        c = c + 1;
    }
    let n = terms.len();
    let mut t: usize = 0;
    while t < n
        invariant
            n == terms@.len(),
            t <= n,
            tv == terms_view(terms@),
            terms_fit(report@, tv, ncols as int),
            acc@.len() == ncols,
            forall|j: int| 0 <= j < ncols ==> acc@[j] == formula_prefix(report@, tv, j, t as int),
        decreases n - t,
    {
        let term = &terms[t];
        assert(tv[t as int] == (term.id@, term.negate));
        assert(match find_from(report@, tv[t as int].0, 0) {
            Some(DynamicReportEntry::Section(s)) => entries_fit(s.entries@, ncols as int),
            _ => true,
        });
        let v = term_quantities(report, term.id.as_str(), ncols);
        let mut c: usize = 0;
        while c < ncols
            invariant
                c <= ncols,
                t < n,
                n == terms@.len(),
                tv == terms_view(terms@),
                tv[t as int] == (term.id@, term.negate),
                terms_fit(report@, tv, ncols as int),
                acc@.len() == ncols,
                v@.len() == ncols,
                forall|j: int| 0 <= j < ncols ==> v@[j] == term_value(report@, term.id@, j),
                forall|j: int|
                    0 <= j < c ==> acc@[j] == formula_prefix(report@, tv, j, t + 1),
                forall|j: int|
                    c <= j < ncols ==> acc@[j] == formula_prefix(report@, tv, j, t as int),
            decreases ncols - c,
        {
            assert(fits_i64(formula_prefix(report@, tv, c as int, t + 1)));
            let x = if term.negate {
                acc[c] - v[c]
            } else {
                acc[c] + v[c]
            };
            acc.set(c, x);
            c = c + 1;
        }
        t = t + 1;
    }
    acc
}

impl CalculatedRow {
    /// The literal row that this row becomes against `report`: its display
    /// fields, with quantities given by its formula over the report's columns
    pub fn calculate(&self, report: &DynamicReport) -> (r: LiteralRow)
        requires
            terms_fit(report.entries@, terms_view(self.terms@), report.columns@.len() as int),
        ensures
            calculated_view(*self) matches EntryView::Calculated(v, terms) && row_view(r)
                == calculated_row(v, terms, report.entries@, report.columns@.len() as int),
    {
        let q = formula_quantities(&self.terms, &report.entries, report.columns.len());
        let r = LiteralRow {
            text: self.text.clone(),
            quantity: q,
            id: copy_opt_text(&self.id),
            visible: self.visible,
            auto_hide: self.auto_hide,
            link: copy_opt_text(&self.link),
            heading: self.heading,
            bordered: self.bordered,
        };
        assert(row_view(r).quantity =~= Seq::new(
            report.columns@.len() as nat,
            |c: int| formula_value(report.entries@, terms_view(self.terms@), c) as QuantityInt,
        ));
        r
    }
}

/// The entries of `entries` with every calculated row, nested ones included,
/// replaced by its literal row against `report`
fn calculate_entries(
    entries: &Vec<DynamicReportEntry>,
    report: &DynamicReport,
) -> (r: Vec<DynamicReportEntry>)
    requires
        formulas_fit(
            views(entries@),
            report.entries@,
            report.columns@.len() as int,
            entries@.len() as int,
        ),
    ensures
        views(r@) == calculated(views(entries@), report.entries@, report.columns@.len() as int),
    decreases entries,
{
    let ghost ncols = report.columns@.len() as int;
    let ghost vs = views(entries@);
    proof {
        lemma_views_prefix(entries@, entries@.len() as int);
    }
    let n = entries.len();
    let mut out: Vec<DynamicReportEntry> = Vec::new();
    let mut i: usize = 0;
    while i < n
        invariant
            n == entries@.len(),
            i <= n,
            ncols == report.columns@.len(),
            vs == views(entries@),
            vs.len() == n,
            forall|j: int| 0 <= j < n ==> #[trigger] vs[j] == entry_view(entries@[j]),
            formulas_fit(vs, report.entries@, ncols, n as int),
            views(out@) == calculated_prefix(vs, report.entries@, ncols, i as int),
        decreases n - i,
    {
        proof {
            lemma_formulas_fit_prefix(vs, report.entries@, ncols, n as int, i + 1);
        }
        let e = match &entries[i] {
            DynamicReportEntry::Section(section) => {
                assert(decreases_to!(entries => section.entries));
                proof {
                    lemma_views_prefix(section.entries@, section.entries@.len() as int);
                }
                let inner = calculate_entries(&section.entries, report);
                DynamicReportEntry::Section(
                    Section {
                        text: section.text.clone(),
                        id: copy_opt_text(&section.id),
                        visible: section.visible,
                        auto_hide: section.auto_hide,
                        entries: inner,
                    },
                )
            },
            DynamicReportEntry::LiteralRow(row) => DynamicReportEntry::LiteralRow(copy_row(row)),
            DynamicReportEntry::CalculatedRow(row) => DynamicReportEntry::LiteralRow(
                row.calculate(report),
            ),
            DynamicReportEntry::Spacer => DynamicReportEntry::Spacer,
        };
        proof {
            lemma_views_append(out@, e);
        }
        out.push(e);
        i = i + 1;
    }
    out
}

proof fn lemma_formulas_fit_prefix(
    es: Seq<EntryView>,
    report: Seq<DynamicReportEntry>,
    ncols: int,
    k: int,
    j: int,
)
    requires
        formulas_fit(es, report, ncols, k),
        0 < j <= k <= es.len(),
    ensures
        formulas_fit(es, report, ncols, j),
        match es[j - 1] {
            EntryView::Section(s) => formulas_fit(s.entries, report, ncols, s.entries.len() as int),
            EntryView::Calculated(_, terms) => terms_fit(report, terms, ncols),
            _ => true,
        },
    decreases k,
{
    if j < k {
        lemma_formulas_fit_prefix(es, report, ncols, k - 1, j);
    }
}

} // verus!

verus! {

impl Section {
    /// Replace every calculated row under this section, nested ones included,
    /// by its literal row against `report`
    pub fn calculate(&mut self, report: &DynamicReport)
        requires
            formulas_fit(
                views(old(self).entries@),
                report.entries@,
                report.columns@.len() as int,
                old(self).entries@.len() as int,
            ),
        ensures
            final(self).text == old(self).text,
            final(self).id == old(self).id,
            final(self).visible == old(self).visible,
            final(self).auto_hide == old(self).auto_hide,
            views(final(self).entries@) == calculated(
                views(old(self).entries@),
                report.entries@,
                report.columns@.len() as int,
            ),
    {
        let new_entries = calculate_entries(&self.entries, report);
        self.entries = new_entries;
    }
}

impl DynamicReport {
    /// A report with the given title, column labels and entries
    pub fn new(title: String, columns: Vec<String>, entries: Vec<DynamicReportEntry>) -> (r:
        DynamicReport)
        ensures
            r == (DynamicReport { title, columns, entries }),
    {
        DynamicReport { title, columns, entries }
    }

    /// Remove, bottom up, every row that has auto-hide set and only zero
    /// quantities, and every section that has auto-hide set and, after its
    /// own children were pruned, only such children left
    pub fn auto_hide(&mut self)
        ensures
            final(self).title == old(self).title,
            final(self).columns == old(self).columns,
            views(final(self).entries@) == pruned(views(old(self).entries@)),
    {
        let mut taken: Vec<DynamicReportEntry> = Vec::new();
        core::mem::swap(&mut self.entries, &mut taken);
        self.entries = prune_entries(taken);
    }

    /// Replace every calculated row, nested ones included, by its literal
    /// row; each formula is evaluated against the report as it stood before
    /// the call
    pub fn calculate(&mut self)
        requires
            formulas_fit(
                views(old(self).entries@),
                old(self).entries@,
                old(self).columns@.len() as int,
                old(self).entries@.len() as int,
            ),
        ensures
            final(self).title == old(self).title,
            final(self).columns == old(self).columns,
            views(final(self).entries@) == calculated(
                views(old(self).entries@),
                old(self).entries@,
                old(self).columns@.len() as int,
            ),
            is_literal(views(final(self).entries@)),
    {
        let new_entries = calculate_entries(&self.entries, &*self);
        proof {
            lemma_views_prefix(self.entries@, self.entries@.len() as int);
            lemma_calculated_is_literal(
                views(self.entries@),
                self.entries@,
                self.columns@.len() as int,
                self.entries@.len() as int,
            );
            lemma_views_prefix(new_entries@, new_entries@.len() as int);
        }
        self.entries = new_entries;
    }

    /// The first section or literal row named `id`, depth first
    pub fn by_id(&self, id: &str) -> (r: Option<&DynamicReportEntry>)
        ensures
            deref_entry(r) == find_from(self.entries@, id@, 0),
    {
        entries_by_id(&self.entries, id)
    }

    /// The subtotals of the section named `id`
    pub fn subtotal_for_id(&self, id: &str) -> (r: Vec<QuantityInt>)
        requires
            find_from(self.entries@, id@, 0) matches Some(DynamicReportEntry::Section(s))
                && entries_fit(s.entries@, self.columns@.len() as int),
        ensures
            r@.len() == self.columns@.len(),
            forall|c: int| 0 <= c < r@.len() ==> r@[c] == term_value(self.entries@, id@, c),
    {
        match self.by_id(id) {
            Some(DynamicReportEntry::Section(section)) => section.subtotal(self),
            _ => {
                assert(false);
                Vec::new()
            },
        }
    }

    /// The quantities of the literal row named `id`, if there is one
    pub fn quantity_for_id(&self, id: &str) -> (r: Option<&Vec<QuantityInt>>)
        requires
            !(find_from(self.entries@, id@, 0) matches Some(DynamicReportEntry::Section(_))),
        ensures
            match find_from(self.entries@, id@, 0) {
                Some(DynamicReportEntry::LiteralRow(row)) => r == Some(&row.quantity),
                _ => r is None,
            },
    {
        match self.by_id(id) {
            Some(DynamicReportEntry::LiteralRow(row)) => Some(&row.quantity),
            _ => None,
        }
    }
}

proof fn lemma_calculated_is_literal(
    es: Seq<EntryView>,
    report: Seq<DynamicReportEntry>,
    ncols: int,
    k: int,
)
    requires
        0 <= k <= es.len(),
    ensures
        calculated_prefix(es, report, ncols, k).len() == k,
        literal_prefix(calculated_prefix(es, report, ncols, k), k),
    decreases es, k,
{
    if k > 0 {
        let prev = calculated_prefix(es, report, ncols, k - 1);
        let cur = calculated_prefix(es, report, ncols, k);
        lemma_calculated_is_literal(es, report, ncols, k - 1);
        lemma_literal_prefix_push(prev, cur.last(), k - 1);
        match es[k - 1] {
            EntryView::Section(s) => {
                lemma_calculated_is_literal(s.entries, report, ncols, s.entries.len() as int);
            },
            _ => {},
        }
    }
}

proof fn lemma_literal_prefix_push(es: Seq<EntryView>, x: EntryView, k: int)
    requires
        0 <= k <= es.len(),
    ensures
        literal_prefix(es.push(x), k) == literal_prefix(es, k),
    decreases k,
{
    if k > 0 {
        lemma_literal_prefix_push(es, x, k - 1);
        assert(es.push(x)[k - 1] == es[k - 1]);
    }
}

proof fn lemma_literal_calculated_prefix(
    es: Seq<EntryView>,
    report: Seq<DynamicReportEntry>,
    ncols: int,
    k: int,
)
    requires
        0 <= k <= es.len(),
        literal_prefix(es, k),
    ensures
        calculated_prefix(es, report, ncols, k) == es.subrange(0, k),
    decreases es, k,
{
    if k > 0 {
        lemma_literal_calculated_prefix(es, report, ncols, k - 1);
        match es[k - 1] {
            EntryView::Section(s) => {
                lemma_literal_calculated_prefix(s.entries, report, ncols, s.entries.len() as int);
                assert(s.entries.subrange(0, s.entries.len() as int) =~= s.entries);
                assert(EntryView::Section(SectionView { entries: s.entries, ..s }) == es[k - 1]);
            },
            _ => {},
        }
        assert(es.subrange(0, k - 1).push(es[k - 1]) =~= es.subrange(0, k));
    }
}

/// Calculating a report that holds no calculated row changes nothing, so a
/// second calculation is a no-op: whatever report the formulas of the first
/// pass saw, calculating its result again gives the same entries.
pub proof fn calculate_is_idempotent(
    es: Seq<EntryView>,
    first: Seq<DynamicReportEntry>,
    second: Seq<DynamicReportEntry>,
    ncols: int,
)
    ensures
        is_literal(es) ==> calculated(es, second, ncols) == es,
        calculated(calculated(es, first, ncols), second, ncols) == calculated(es, first, ncols),
{
    if is_literal(es) {
        lemma_literal_calculated_prefix(es, second, ncols, es.len() as int);
        assert(es.subrange(0, es.len() as int) =~= es);
    }
    let once = calculated(es, first, ncols);
    lemma_calculated_is_literal(es, first, ncols, es.len() as int);
    lemma_literal_calculated_prefix(once, second, ncols, once.len() as int);
    assert(once.subrange(0, once.len() as int) =~= once);
}

} // verus!
