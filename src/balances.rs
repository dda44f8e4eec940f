//! Transactions, postings and account balances, and the balance arithmetic of
//! the generic builder steps.

use vstd::prelude::*;

use crate::types::Date;
use crate::{fits_i64, QuantityInt};

verus! {

/// A transaction's header
pub struct Transaction {
    pub id: Option<u64>,
    /// The day of the transaction
    pub dt: Date,
    pub description: String,
}

/// One leg of a transaction: a quantity moved into or out of an account
pub struct Posting {
    pub id: Option<u64>,
    pub transaction_id: Option<u64>,
    pub description: Option<String>,
    pub account: String,
    pub quantity: QuantityInt,
    pub commodity: String,
    pub quantity_ascost: Option<QuantityInt>,
}

/// A transaction with its postings
pub struct TransactionWithPostings {
    pub transaction: Transaction,
    pub postings: Vec<Posting>,
}

/// Balances of accounts, each account listed once
pub struct BalanceMap {
    entries: Vec<(String, QuantityInt)>,
}

/// Abstract balances: a quantity for each account that has one
pub type BalancesView = Map<Seq<char>, int>;

/// The balance of `account`, zero when it has none
pub open spec fn balance_of(m: BalancesView, account: Seq<char>) -> int {
    if m.contains_key(account) {
        m[account]
    } else {
        0
    }
}

spec fn entries_map(es: Seq<(String, QuantityInt)>) -> BalancesView
    decreases es.len(),
{
    if es.len() == 0 {
        Map::empty()
    } else {
        entries_map(es.drop_last()).insert(es.last().0@, es.last().1 as int)
    }
}

impl View for BalanceMap {
    type V = BalancesView;

    closed spec fn view(&self) -> BalancesView {
        entries_map(self.entries@)
    }
}

proof fn lemma_entries_map(es: Seq<(String, QuantityInt)>)
    requires
        forall|i: int, j: int| 0 <= i < j < es.len() ==> es[i].0@ != es[j].0@,
    ensures
        forall|k: Seq<char>|
            #[trigger] entries_map(es).contains_key(k) <==> exists|i: int|
                0 <= i < es.len() && es[i].0@ == k,
        forall|i: int|
            0 <= i < es.len() ==> #[trigger] entries_map(es)[es[i].0@] == es[i].1 as int,
    decreases es.len(),
{
    if es.len() > 0 {
        lemma_entries_map(es.drop_last());
        let m = entries_map(es.drop_last());
        assert forall|k: Seq<char>|
            #[trigger] entries_map(es).contains_key(k) <==> exists|i: int|
                0 <= i < es.len() && es[i].0@ == k by {
            if entries_map(es).contains_key(k) && k != es.last().0@ {
                let i = choose|i: int| 0 <= i < es.len() - 1 && es.drop_last()[i].0@ == k;
                assert(es[i].0@ == k);
            }
            if exists|i: int| 0 <= i < es.len() && es[i].0@ == k {
                let i = choose|i: int| 0 <= i < es.len() && es[i].0@ == k;
                if i < es.len() - 1 {
                    assert(es.drop_last()[i].0@ == k);
                }
            }
        }
        assert forall|i: int| 0 <= i < es.len() implies #[trigger] entries_map(es)[es[i].0@]
            == es[i].1 as int by {
            if i < es.len() - 1 {
                assert(es.drop_last()[i] == es[i]);
            }
        }
    }
}

impl BalanceMap {
    /// Whether each account is listed once
    #[verifier::type_invariant]
    pub closed spec fn wf(&self) -> bool {
        forall|i: int, j: int|
            0 <= i < j < self.entries@.len() ==> self.entries@[i].0@ != self.entries@[j].0@
    }

    /// No balance at all
    pub fn new() -> (r: BalanceMap)
        ensures
            r.wf(),
            r@ == BalancesView::empty(),
    {
        BalanceMap { entries: Vec::new() }
    }

    fn position(&self, account: &String) -> (r: Option<usize>)
        requires
            self.wf(),
        ensures
            match r {
                Some(i) => i < self.entries@.len() && self.entries@[i as int].0@ == account@,
                None => forall|i: int|
                    0 <= i < self.entries@.len() ==> self.entries@[i].0@ != account@,
            },
    {
        let n = self.entries.len();
        let mut i: usize = 0;
        while i < n
            invariant
                n == self.entries@.len(),
                i <= n,
                forall|j: int| 0 <= j < i ==> self.entries@[j].0@ != account@,
            decreases n - i,
        {
            if self.entries[i].0 == *account {
                return Some(i);
            }
            i = i + 1;
        }
        None
    }

    /// The balance of `account`, zero when it has none
    pub fn get(&self, account: &String) -> (r: QuantityInt)
        requires
            self.wf(),
        ensures
            r as int == balance_of(self@, account@),
    {
        proof {
            lemma_entries_map(self.entries@);
        }
        match self.position(account) {
            Some(i) => self.entries[i].1,
            None => 0,
        }
    }

    /// Set the balance of `account` to `quantity`
    pub fn insert(&mut self, account: String, quantity: QuantityInt)
        requires
            old(self).wf(),
        ensures
            final(self).wf(),
            final(self)@ == old(self)@.insert(account@, quantity as int),
    {
        proof {
            use_type_invariant(&*self);
            lemma_entries_map(self.entries@);
        }
        let pos = self.position(&account);
        let mut es: Vec<(String, QuantityInt)> = Vec::new();
        core::mem::swap(&mut es, &mut self.entries);
        let ghost before = es@;
        match pos {
            Some(i) => {
                es.set(i, (account, quantity));
                proof {
                    lemma_entries_map(es@);
                    assert(entries_map(es@) =~= entries_map(before).insert(es@[i as int].0@, quantity as int)) by {
                        assert forall|k: Seq<char>| #[trigger] entries_map(es@).contains_key(k) implies entries_map(before).insert(
                            es@[i as int].0@,
                            quantity as int,
                        ).contains_key(k) by {
                            let j = choose|j: int| 0 <= j < es@.len() && es@[j].0@ == k;
                            if j != i {
                                assert(before[j] == es@[j]);
                            }
                        }
                        assert forall|k: Seq<char>| #[trigger] entries_map(before).insert(
                            es@[i as int].0@,
                            quantity as int,
                        ).contains_key(k) implies entries_map(es@).contains_key(k) by {
                            if k != es@[i as int].0@ {
                                let j = choose|j: int| 0 <= j < before.len() && before[j].0@ == k;
                                assert(es@[j] == before[j]);
                            }
                        }
                        assert forall|k: Seq<char>| #[trigger] entries_map(es@).contains_key(k) implies entries_map(es@)[k]
                            == entries_map(before).insert(
                            es@[i as int].0@,
                            quantity as int,
                        )[k] by {
                            let j = choose|j: int| 0 <= j < es@.len() && es@[j].0@ == k;
                            if j != i {
                                assert(before[j] == es@[j]);
                            }
                        }
                    }
                }
            },
            None => {
                es.push((account, quantity));
                assert(es@.drop_last() =~= before);
            },
        }
        self.entries = es;
    }

    /// The accounts and their balances, each account once
    pub fn to_vec(&self) -> (r: &Vec<(String, QuantityInt)>)
        requires
            self.wf(),
        ensures
            forall|i: int, j: int| 0 <= i < j < r@.len() ==> r@[i].0@ != r@[j].0@,
            forall|k: Seq<char>|
                #[trigger] self@.contains_key(k) <==> exists|i: int| 0 <= i < r@.len() && r@[i].0@ == k,
            forall|i: int| 0 <= i < r@.len() ==> #[trigger] self@[r@[i].0@] == r@[i].1 as int,
    {
        proof {
            lemma_entries_map(self.entries@);
        }
        &self.entries
    }
}

/// Records cumulative account balances at a point in time
pub struct BalancesAt {
    pub balances: BalanceMap,
}

/// Records the total of the postings to each account between two points in
/// time
pub struct BalancesBetween {
    pub balances: BalanceMap,
}

// ---------------------------------------------------------------------------
// Folding postings into balances

/// Balances `m` after adding, in order, the quantities of the postings `ps`
pub open spec fn apply_postings(m: BalancesView, ps: Seq<Posting>) -> BalancesView
    decreases ps.len(),
{
    if ps.len() == 0 {
        m
    } else {
        let prev = apply_postings(m, ps.drop_last());
        prev.insert(ps.last().account@, balance_of(prev, ps.last().account@) + ps.last().quantity)
    }
}

/// Whether every running balance formed by adding the postings `ps` to `m`
/// fits in i64
pub open spec fn postings_fit(m: BalancesView, ps: Seq<Posting>) -> bool
    decreases ps.len(),
{
    if ps.len() == 0 {
        true
    } else {
        let prev = apply_postings(m, ps.drop_last());
        postings_fit(m, ps.drop_last()) && fits_i64(
            balance_of(prev, ps.last().account@) + ps.last().quantity,
        )
    }
}

/// Balances `m` after the postings of the transactions `ts`, in order
pub open spec fn apply_transactions(m: BalancesView, ts: Seq<TransactionWithPostings>) -> BalancesView
    decreases ts.len(),
{
    if ts.len() == 0 {
        m
    } else {
        apply_postings(apply_transactions(m, ts.drop_last()), ts.last().postings@)
    }
}

/// Whether every running balance formed by applying `ts` to `m` fits in i64
pub open spec fn transactions_fit(m: BalancesView, ts: Seq<TransactionWithPostings>) -> bool
    decreases ts.len(),
{
    if ts.len() == 0 {
        true
    } else {
        transactions_fit(m, ts.drop_last()) && postings_fit(
            apply_transactions(m, ts.drop_last()),
            ts.last().postings@,
        )
    }
}

/// The transactions of `ts` dated from `start` to `end`, both included, in
/// order
pub open spec fn dated_within(ts: Seq<TransactionWithPostings>, start: Date, end: Date) -> Seq<
    TransactionWithPostings,
> {
    ts.filter(
        |t: TransactionWithPostings|
            start.days <= t.transaction.dt.days && t.transaction.dt.days <= end.days,
    )
}

/// Add the quantity of each posting of `postings` to the balance of its account
fn apply_postings_exec(balances: &mut BalanceMap, postings: &Vec<Posting>)
    requires
        old(balances).wf(),
        postings_fit(old(balances)@, postings@),
    ensures
        final(balances).wf(),
        final(balances)@ == apply_postings(old(balances)@, postings@),
{
    let n = postings.len();
    let mut i: usize = 0;
    while i < n
        invariant
            n == postings@.len(),
            i <= n,
            balances.wf(),
            postings_fit(old(balances)@, postings@),
            balances@ == apply_postings(old(balances)@, postings@.subrange(0, i as int)),
        decreases n - i,
    {
        proof {
            lemma_postings_fit_prefix(old(balances)@, postings@, i + 1);
            assert(postings@.subrange(0, i + 1).drop_last() =~= postings@.subrange(0, i as int));
        }
        let p = &postings[i];
        let current = balances.get(&p.account);
        let running = current + p.quantity;
        balances.insert(p.account.clone(), running);
        i = i + 1;
    }
    assert(postings@.subrange(0, n as int) =~= postings@);
}

proof fn lemma_postings_fit_prefix(m: BalancesView, ps: Seq<Posting>, k: int)
    requires
        postings_fit(m, ps),
        0 <= k <= ps.len(),
    ensures
        postings_fit(m, ps.subrange(0, k)),
    decreases ps.len(),
{
    if k < ps.len() {
        assert(ps.drop_last().subrange(0, k) =~= ps.subrange(0, k));
        lemma_postings_fit_prefix(m, ps.drop_last(), k);
    } else {
        assert(ps.subrange(0, k) =~= ps);
    }
}

proof fn lemma_transactions_fit_prefix(m: BalancesView, ts: Seq<TransactionWithPostings>, k: int)
    requires
        transactions_fit(m, ts),
        0 <= k <= ts.len(),
    ensures
        transactions_fit(m, ts.subrange(0, k)),
    decreases ts.len(),
{
    if k < ts.len() {
        assert(ts.drop_last().subrange(0, k) =~= ts.subrange(0, k));
        lemma_transactions_fit_prefix(m, ts.drop_last(), k);
    } else {
        assert(ts.subrange(0, k) =~= ts);
    }
}

/// Add the postings of each transaction of `transactions`, in order, to the
/// balances of their accounts
pub fn update_balances_from_transactions(
    balances: &mut BalanceMap,
    transactions: &Vec<TransactionWithPostings>,
)
    requires
        old(balances).wf(),
        transactions_fit(old(balances)@, transactions@),
    ensures
        final(balances).wf(),
        final(balances)@ == apply_transactions(old(balances)@, transactions@),
{
    let n = transactions.len();
    let mut i: usize = 0;
    while i < n
        invariant
            n == transactions@.len(),
            i <= n,
            balances.wf(),
            transactions_fit(old(balances)@, transactions@),
            balances@ == apply_transactions(old(balances)@, transactions@.subrange(0, i as int)),
        decreases n - i,
    {
        proof {
            lemma_transactions_fit_prefix(old(balances)@, transactions@, i + 1);
            assert(transactions@.subrange(0, i + 1).drop_last() =~= transactions@.subrange(
                0,
                i as int,
            ));
        }
        apply_postings_exec(balances, &transactions[i].postings);
        i = i + 1;
    }
    assert(transactions@.subrange(0, n as int) =~= transactions@);
}

/// The filter of a prefix is a prefix of the filter
proof fn lemma_filter_prefix<A>(s: Seq<A>, pred: spec_fn(A) -> bool, k: int)
    requires
        0 <= k <= s.len(),
    ensures
        s.subrange(0, k).filter(pred).len() <= s.filter(pred).len(),
        s.filter(pred).subrange(0, s.subrange(0, k).filter(pred).len() as int) == s.subrange(
            0,
            k,
        ).filter(pred),
    decreases s.len() - k,
{
    if k < s.len() {
        lemma_filter_prefix(s, pred, k + 1);
        assert(s.subrange(0, k + 1) =~= s.subrange(0, k).push(s[k]));
        s.subrange(0, k).lemma_filter_push(s[k], pred);
        let a = s.subrange(0, k).filter(pred);
        let b = s.subrange(0, k + 1).filter(pred);
        assert(s.filter(pred).subrange(0, a.len() as int) =~= b.subrange(0, a.len() as int));
        assert(b.subrange(0, a.len() as int) =~= a);
    } else {
        assert(s.subrange(0, k) =~= s);
        assert(s.filter(pred).subrange(0, s.filter(pred).len() as int) =~= s.filter(pred));
    }
}

} // verus!

verus! {

/// Balances over an interval from the balances at its two ends: for each
/// account with a balance at either end, the closing balance less the opening
/// one
pub open spec fn difference(closing: BalancesView, opening: BalancesView) -> BalancesView {
    Map::new(
        |k: Seq<char>| closing.contains_key(k) || opening.contains_key(k),
        |k: Seq<char>| balance_of(closing, k) - balance_of(opening, k),
    )
}

/// Whether each account's difference between `closing` and `opening` fits
/// in i64
pub open spec fn difference_fits(closing: BalancesView, opening: BalancesView) -> bool {
    forall|k: Seq<char>|
        opening.contains_key(k) ==> fits_i64(
            #[trigger] balance_of(closing, k) - balance_of(opening, k),
        )
}

/// Partial difference: the accounts of `opening` listed in `done` are
/// subtracted, the others not yet
spec fn difference_upto(
    closing: BalancesView,
    opening: BalancesView,
    done: Set<Seq<char>>,
) -> BalancesView {
    Map::new(
        |k: Seq<char>| closing.contains_key(k) || done.contains(k),
        |k: Seq<char>|
            if done.contains(k) {
                balance_of(closing, k) - balance_of(opening, k)
            } else {
                balance_of(closing, k)
            },
    )
}

/// The balances over an interval, from the balances at its end (`closing`)
/// and those at the day before its start (`opening`)
pub fn balances_between(closing: &BalanceMap, opening: &BalanceMap) -> (r: BalanceMap)
    requires
        closing.wf(),
        opening.wf(),
        difference_fits(closing@, opening@),
    ensures
        r.wf(),
        r@ == difference(closing@, opening@),
{
    let mut result = BalanceMap::new();
    let cv = closing.to_vec();
    let n = cv.len();
    let mut i: usize = 0;
    while i < n
        invariant
            n == cv@.len(),
            i <= n,
            closing.wf(),
            forall|a: int, b: int| 0 <= a < b < cv@.len() ==> cv@[a].0@ != cv@[b].0@,
            forall|k: Seq<char>|
                #[trigger] closing@.contains_key(k) <==> exists|a: int| 0 <= a < cv@.len() && cv@[a].0@ == k,
            forall|a: int| 0 <= a < cv@.len() ==> #[trigger] closing@[cv@[a].0@] == cv@[a].1 as int,
            result.wf(),
            result@ == Map::new(
                |k: Seq<char>| exists|a: int| 0 <= a < i && cv@[a].0@ == k,
                |k: Seq<char>| closing@[k],
            ),
        decreases n - i,
    {
        let ghost before = result@;
        result.insert(cv[i].0.clone(), cv[i].1);
        proof {
            assert(result@ =~= Map::new(
                |k: Seq<char>| exists|a: int| 0 <= a < i + 1 && cv@[a].0@ == k,
                |k: Seq<char>| closing@[k],
            )) by {
                assert forall|k: Seq<char>| (exists|a: int| 0 <= a < i + 1 && cv@[a].0@ == k) implies result@.contains_key(k) by {
                    let a = choose|a: int| 0 <= a < i + 1 && cv@[a].0@ == k;
                    if a < i {
                        assert(before.contains_key(k));
                    }
                }
                assert forall|k: Seq<char>| result@.contains_key(k) implies (exists|a: int| 0 <= a < i + 1 && cv@[a].0@ == k) by {
                    if k != cv@[i as int].0@ {
                        assert(before.contains_key(k));
                    } else {
                        assert(cv@[i as int].0@ == k);
                    }
                }
            }
        }
        i = i + 1;
    }
    proof {
        assert(result@ =~= closing@) by {
            assert forall|k: Seq<char>| closing@.contains_key(k) implies result@.contains_key(k) by {
                let a = choose|a: int| 0 <= a < cv@.len() && cv@[a].0@ == k;
                assert(0 <= a < n && cv@[a].0@ == k);
            }
        }
        assert(result@ =~= difference_upto(closing@, opening@, Set::empty()));
    }
    let ov = opening.to_vec();
    let m = ov.len();
    let mut j: usize = 0;
    while j < m
        invariant
            m == ov@.len(),
            j <= m,
            opening.wf(),
            forall|a: int, b: int| 0 <= a < b < ov@.len() ==> ov@[a].0@ != ov@[b].0@,
            forall|k: Seq<char>|
                #[trigger] opening@.contains_key(k) <==> exists|a: int| 0 <= a < ov@.len() && ov@[a].0@ == k,
            forall|a: int| 0 <= a < ov@.len() ==> #[trigger] opening@[ov@[a].0@] == ov@[a].1 as int,
            difference_fits(closing@, opening@),
            result.wf(),
            result@ == difference_upto(
                closing@,
                opening@,
                Set::new(|k: Seq<char>| exists|a: int| 0 <= a < j && ov@[a].0@ == k),
            ),
        decreases m - j,
    {
        let ghost done = Set::new(|k: Seq<char>| exists|a: int| 0 <= a < j && ov@[a].0@ == k);
        let ghost key = ov@[j as int].0@;
        proof {
            assert(opening@.contains_key(key));
            assert(fits_i64(balance_of(closing@, key) - balance_of(opening@, key)));
            assert(!done.contains(key)) by {
                if done.contains(key) {
                    let a = choose|a: int| 0 <= a < j && ov@[a].0@ == key;
                    assert(ov@[a].0@ != ov@[j as int].0@);
                }
            }
        }
        let current = result.get(&ov[j].0);
        let v = current - ov[j].1;
        result.insert(ov[j].0.clone(), v);
        proof {
            let done2 = Set::new(|k: Seq<char>| exists|a: int| 0 <= a < j + 1 && ov@[a].0@ == k);
            assert(done2 =~= done.insert(key)) by {
                assert forall|k: Seq<char>| done2.contains(k) implies done.insert(key).contains(k) by {
                    let a = choose|a: int| 0 <= a < j + 1 && ov@[a].0@ == k;
                    if a < j {
                        assert(done.contains(k));
                    }
                }
                assert forall|k: Seq<char>| done.insert(key).contains(k) implies done2.contains(k) by {
                    if k == key {
                        assert(0 <= j < j + 1 && ov@[j as int].0@ == k);
                    } else {
                        let a = choose|a: int| 0 <= a < j && ov@[a].0@ == k;
                        assert(0 <= a < j + 1 && ov@[a].0@ == k);
                    }
                }
            }
            assert(result@ =~= difference_upto(closing@, opening@, done2));
        }
        j = j + 1;
    }
    proof {
        let done = Set::new(|k: Seq<char>| exists|a: int| 0 <= a < m && ov@[a].0@ == k);
        assert forall|k: Seq<char>| opening@.contains_key(k) implies done.contains(k) by {
            let a = choose|a: int| 0 <= a < ov@.len() && ov@[a].0@ == k;
            assert(0 <= a < m && ov@[a].0@ == k);
        }
        assert(result@ =~= difference(closing@, opening@));
    }
    result
}

} // verus!

verus! {

proof fn lemma_postings_fit_extend(m: BalancesView, ps: Seq<Posting>, k: int)
    requires
        0 <= k < ps.len(),
        !postings_fit(m, ps.subrange(0, k + 1)),
    ensures
        !postings_fit(m, ps),
{
    if postings_fit(m, ps) {
        lemma_postings_fit_prefix(m, ps, k + 1);
    }
}

/// Add the quantity of each posting to its account's balance, unless some
/// running balance would leave i64; returns whether all fitted
fn try_apply_postings(balances: &mut BalanceMap, postings: &Vec<Posting>) -> (r: bool)
    requires
        old(balances).wf(),
    ensures
        final(balances).wf(),
        r == postings_fit(old(balances)@, postings@),
        r ==> final(balances)@ == apply_postings(old(balances)@, postings@),
{
    let n = postings.len();
    let mut i: usize = 0;
    while i < n
        invariant
            n == postings@.len(),
            i <= n,
            balances.wf(),
            postings_fit(old(balances)@, postings@.subrange(0, i as int)),
            balances@ == apply_postings(old(balances)@, postings@.subrange(0, i as int)),
        decreases n - i,
    {
        proof {
            assert(postings@.subrange(0, i + 1).drop_last() =~= postings@.subrange(0, i as int));
        }
        let p = &postings[i];
        let current = balances.get(&p.account);
        match current.checked_add(p.quantity) {
            Some(running) => {
                balances.insert(p.account.clone(), running);
            },
            None => {
                proof {
                    lemma_postings_fit_extend(old(balances)@, postings@, i as int);
                }
                return false;
            },
        }
        i = i + 1;
    }
    assert(postings@.subrange(0, n as int) =~= postings@);
    true
}

/// The balances that the transactions `transactions` give from no balance,
/// or `None` if some running balance would leave i64
pub fn balances_from_transactions(transactions: &Vec<TransactionWithPostings>) -> (r: Option<
    BalanceMap,
>)
    ensures
        r is Some <==> transactions_fit(BalancesView::empty(), transactions@),
        r matches Some(m) ==> m.wf() && m@ == apply_transactions(
            BalancesView::empty(),
            transactions@,
        ),
{
    let mut balances = BalanceMap::new();
    let ghost start = balances@;
    let n = transactions.len();
    let mut i: usize = 0;
    while i < n
        invariant
            n == transactions@.len(),
            i <= n,
            balances.wf(),
            start == BalancesView::empty(),
            transactions_fit(start, transactions@.subrange(0, i as int)),
            balances@ == apply_transactions(start, transactions@.subrange(0, i as int)),
        decreases n - i,
    {
        proof {
            assert(transactions@.subrange(0, i + 1).drop_last() =~= transactions@.subrange(
                0,
                i as int,
            ));
        }
        if !try_apply_postings(&mut balances, &transactions[i].postings) {
            proof {
                if transactions_fit(start, transactions@) {
                    lemma_transactions_fit_prefix(start, transactions@, i + 1);
                }
            }
            return None;
        }
        i = i + 1;
    }
    assert(transactions@.subrange(0, n as int) =~= transactions@);
    Some(balances)
}

/// Whether every account's difference between `closing` and `opening` fits
/// in i64
pub fn check_difference_fits(closing: &BalanceMap, opening: &BalanceMap) -> (r: bool)
    requires
        closing.wf(),
        opening.wf(),
    ensures
        r == difference_fits(closing@, opening@),
{
    let ov = opening.to_vec();
    let m = ov.len();
    let mut j: usize = 0;
    while j < m
        invariant
            m == ov@.len(),
            j <= m,
            closing.wf(),
            opening.wf(),
            forall|k: Seq<char>|
                #[trigger] opening@.contains_key(k) <==> exists|a: int| 0 <= a < ov@.len() && ov@[a].0@ == k,
            forall|a: int| 0 <= a < ov@.len() ==> #[trigger] opening@[ov@[a].0@] == ov@[a].1 as int,
            forall|a: int|
                0 <= a < j ==> fits_i64(
                    #[trigger] balance_of(closing@, ov@[a].0@) - balance_of(opening@, ov@[a].0@),
                ),
        decreases m - j,
    {
        let c = closing.get(&ov[j].0);
        assert(opening@.contains_key(ov@[j as int].0@));
        if c.checked_sub(ov[j].1).is_none() {
            assert(!fits_i64(balance_of(closing@, ov@[j as int].0@) - balance_of(opening@, ov@[j as int].0@)));
            return false;
        }
        j = j + 1;
    }
    assert forall|k: Seq<char>| opening@.contains_key(k) implies fits_i64(
        #[trigger] balance_of(closing@, k) - balance_of(opening@, k),
    ) by {
        let a = choose|a: int| 0 <= a < ov@.len() && ov@[a].0@ == k;
        assert(fits_i64(balance_of(closing@, ov@[a].0@) - balance_of(opening@, ov@[a].0@)));
    }
    true
}

} // verus!

verus! {

impl BalanceMap {
    /// A copy of these balances
    pub fn copy(&self) -> (r: BalanceMap)
        ensures
            r@ == self@,
    {
        proof {
            use_type_invariant(self);
        }
        let mut es: Vec<(String, QuantityInt)> = Vec::new();
        let n = self.entries.len();
        let mut i: usize = 0;
        while i < n
            invariant
                n == self.entries@.len(),
                i <= n,
                es@ == self.entries@.subrange(0, i as int),
            decreases n - i,
        {
            let k = self.entries[i].0.clone();
            es.push((k, self.entries[i].1));
            assert(es@ =~= self.entries@.subrange(0, i + 1));
            i = i + 1;
        }
        assert(es@ =~= self.entries@);
        BalanceMap { entries: es }
    }
}

/// Add to `balances` the postings of the transactions of `transactions` dated
/// from `start` to `end`, in order, unless some running balance would leave
/// i64; returns whether all fitted
pub fn try_update_balances_within(
    balances: &mut BalanceMap,
    transactions: &Vec<TransactionWithPostings>,
    start: Date,
    end: Date,
) -> (r: bool)
    ensures
        r == transactions_fit(old(balances)@, dated_within(transactions@, start, end)),
        r ==> final(balances)@ == apply_transactions(
            old(balances)@,
            dated_within(transactions@, start, end),
        ),
{
    proof {
        use_type_invariant(&*balances);
    }
    let ghost pred = |t: TransactionWithPostings|
        start.days <= t.transaction.dt.days && t.transaction.dt.days <= end.days;
    let ghost m0 = balances@;
    let n = transactions.len();
    let mut i: usize = 0;
    while i < n
        invariant
            n == transactions@.len(),
            i <= n,
            m0 == old(balances)@,
            pred == (|t: TransactionWithPostings|
                start.days <= t.transaction.dt.days && t.transaction.dt.days <= end.days),
            balances.wf(),
            transactions_fit(m0, transactions@.subrange(0, i as int).filter(pred)),
            balances@ == apply_transactions(m0, transactions@.subrange(0, i as int).filter(pred)),
        decreases n - i,
    {
        proof {
            assert(transactions@.subrange(0, i + 1) =~= transactions@.subrange(0, i as int).push(
                transactions@[i as int],
            ));
            transactions@.subrange(0, i as int).lemma_filter_push(transactions@[i as int], pred);
            lemma_filter_prefix(transactions@, pred, i + 1);
        }
        let t = &transactions[i];
        if start.days <= t.transaction.dt.days && t.transaction.dt.days <= end.days {
            let ghost f = transactions@.subrange(0, i + 1).filter(pred);
            assert(f.drop_last() =~= transactions@.subrange(0, i as int).filter(pred));
            if !try_apply_postings(balances, &t.postings) {
                proof {
                    let all = transactions@.filter(pred);
                    if transactions_fit(m0, all) {
                        lemma_transactions_fit_prefix(m0, all, f.len() as int);
                    }
                }
                return false;
            }
        }
        i = i + 1;
    }
    assert(transactions@.subrange(0, n as int) =~= transactions@);
    true
}

} // verus!
