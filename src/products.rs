//! Reporting products and the insertion-ordered store that collects them.

use vstd::prelude::*;
use vstd::string::StringExecFns;

use crate::balances::{BalancesAt, BalancesBetween, TransactionWithPostings};
use crate::report::DynamicReport;
use crate::types::{ProductIdView, ReportingProductId};

verus! {

/// Records a list of transactions made by a step
pub struct Transactions {
    pub transactions: Vec<TransactionWithPostings>,
}

/// The result of a reporting step, one variant per kind of product
pub enum ReportingProduct {
    Transactions(Transactions),
    BalancesAt(BalancesAt),
    BalancesBetween(BalancesBetween),
    Generic(DynamicReport),
}

/// Errors raised while the steps run
pub enum ReportingExecutionError {
    /// A step asked for a product that is not in the store
    DependencyNotAvailable { message: String },
}

/// Products keyed by their id, in the order they were first inserted
pub struct ReportingProducts {
    map: Vec<(ReportingProductId, ReportingProduct)>,
}

/// Whether the id `k` has an entry in the store's view `s`
pub open spec fn store_has(s: Seq<(ProductIdView, ReportingProduct)>, k: ProductIdView) -> bool {
    exists|i: int| 0 <= i < s.len() && (#[trigger] s[i]).0 == k
}

/// The product under the id `k` in the store's view, if there is one
pub open spec fn store_get(s: Seq<(ProductIdView, ReportingProduct)>, k: ProductIdView) -> Option<
    ReportingProduct,
> {
    if store_has(s, k) {
        Some(s[choose|i: int| 0 <= i < s.len() && (#[trigger] s[i]).0 == k].1)
    } else {
        None
    }
}

/// In a store with one entry per id, the entry of an id is the product under it
pub proof fn lemma_store_get(s: Seq<(ProductIdView, ReportingProduct)>, k: ProductIdView, i: int)
    requires
        keys_unique(s),
        0 <= i < s.len(),
        s[i].0 == k,
    ensures
        store_get(s, k) == Some(s[i].1),
{
    let c = choose|c: int| 0 <= c < s.len() && (#[trigger] s[c]).0 == k;
    assert(c == i);
}

/// The store's view after inserting `(k, v)`: the value of an existing entry
/// is replaced in place, else the entry is appended
pub open spec fn store_insert(
    s: Seq<(ProductIdView, ReportingProduct)>,
    k: ProductIdView,
    v: ReportingProduct,
) -> Seq<(ProductIdView, ReportingProduct)> {
    if store_has(s, k) {
        let i = choose|i: int| 0 <= i < s.len() && (#[trigger] s[i]).0 == k;
        s.update(i, (k, v))
    } else {
        s.push((k, v))
    }
}

/// The store's view after inserting, in order, the entries of `o`
pub open spec fn store_append(
    s: Seq<(ProductIdView, ReportingProduct)>,
    o: Seq<(ProductIdView, ReportingProduct)>,
) -> Seq<(ProductIdView, ReportingProduct)>
    decreases o.len(),
{
    if o.len() == 0 {
        s
    } else {
        store_insert(store_append(s, o.drop_last()), o.last().0, o.last().1)
    }
}

/// Whether no id has two entries
pub open spec fn keys_unique(s: Seq<(ProductIdView, ReportingProduct)>) -> bool {
    forall|i: int, j: int| 0 <= i < j < s.len() ==> s[i].0 != s[j].0
}

impl View for ReportingProducts {
    type V = Seq<(ProductIdView, ReportingProduct)>;

    closed spec fn view(&self) -> Seq<(ProductIdView, ReportingProduct)> {
        Seq::new(self.map@.len(), |i: int| (self.map@[i].0@, self.map@[i].1))
    }
}

proof fn lemma_store_insert_unique(
    s: Seq<(ProductIdView, ReportingProduct)>,
    k: ProductIdView,
    v: ReportingProduct,
)
    requires
        keys_unique(s),
    ensures
        keys_unique(store_insert(s, k, v)),
        store_has(store_insert(s, k, v), k),
        forall|x: ProductIdView|
            x != k ==> (store_has(store_insert(s, k, v), x) == store_has(s, x)),
{
    let r = store_insert(s, k, v);
    if store_has(s, k) {
        let i = choose|i: int| 0 <= i < s.len() && (#[trigger] s[i]).0 == k;
        assert(r[i].0 == k);
        assert forall|x: ProductIdView| x != k implies (store_has(r, x) == store_has(s, x)) by {
            if store_has(s, x) {
                let j = choose|j: int| 0 <= j < s.len() && (#[trigger] s[j]).0 == x;
                assert(r[j].0 == x);
            }
            if store_has(r, x) {
                let j = choose|j: int| 0 <= j < r.len() && (#[trigger] r[j]).0 == x;
                assert(s[j].0 == x);
            }
        }
    } else {
        assert(r[s.len() as int].0 == k);
        assert forall|x: ProductIdView| x != k implies (store_has(r, x) == store_has(s, x)) by {
            if store_has(s, x) {
                let j = choose|j: int| 0 <= j < s.len() && (#[trigger] s[j]).0 == x;
                assert(r[j].0 == x);
            }
            if store_has(r, x) {
                let j = choose|j: int| 0 <= j < r.len() && (#[trigger] r[j]).0 == x;
                assert(s[j].0 == x);
            }
        }
    }
}

fn not_available(key: &ReportingProductId) -> (r: ReportingExecutionError) {
    let mut message = key.name.clone();
    message.append(" is not available when expected");
    ReportingExecutionError::DependencyNotAvailable { message }
}

impl ReportingProducts {
    /// Whether no id has two entries
    pub open spec fn wf(&self) -> bool {
        keys_unique(self@)
    }

    /// An empty store
    pub fn new() -> (r: ReportingProducts)
        ensures
            r@ == Seq::<(ProductIdView, ReportingProduct)>::empty(),
            r.wf(),
    {
        let r = ReportingProducts { map: Vec::new() };
        assert(r@ =~= Seq::<(ProductIdView, ReportingProduct)>::empty());
        r
    }

    /// The entries, in the order their ids were first inserted
    pub fn map(&self) -> (r: &Vec<(ReportingProductId, ReportingProduct)>)
        ensures
            r@.len() == self@.len(),
            forall|i: int| 0 <= i < r@.len() ==> (#[trigger] r@[i]).0@ == self@[i].0 && r@[i].1 == self@[i].1,
    {
        &self.map
    }

    /// The number of entries
    pub fn len(&self) -> (r: usize)
        ensures
            r == self@.len(),
    {
        self.map.len()
    }

    fn position(&self, key: &ReportingProductId) -> (r: Option<usize>)
        ensures
            match r {
                Some(i) => i < self@.len() && self@[i as int].0 == key@,
                None => !store_has(self@, key@),
            },
    {
        let n = self.map.len();
        let mut i: usize = 0;
        while i < n
            invariant
                n == self@.len(),
                n == self.map@.len(),
                i <= n,
                forall|j: int| 0 <= j < i ==> self@[j].0 != key@,
            decreases n - i,
        {
            assert(self@[i as int].0 == self.map@[i as int].0@);
            if self.map[i].0.same_as(key) {
                return Some(i);
            }
            i = i + 1;
        }
        None
    }

    /// Insert `value` under `key`; an existing entry of that id keeps its
    /// place and takes the new value
    pub fn insert(&mut self, key: ReportingProductId, value: ReportingProduct)
        requires
            old(self).wf(),
        ensures
            final(self).wf(),
            final(self)@ == store_insert(old(self)@, key@, value),
    {
        let ghost k = key@;
        let ghost before = self@;
        proof {
            lemma_store_insert_unique(before, k, value);
        }
        match self.position(&key) {
            Some(i) => {
                proof {
                    assert(store_has(before, k));
                    let c = choose|c: int| 0 <= c < before.len() && (#[trigger] before[c]).0 == k;
                    assert(c == i);
                }
                self.map.set(i, (key, value));
                assert(self@ =~= before.update(i as int, (k, value)));
            },
            None => {
                self.map.push((key, value));
                assert(self@ =~= before.push((k, value)));
            },
        }
    }

    /// Move every entry of `other` into this store, in order, leaving `other`
    /// empty
    pub fn append(&mut self, other: &mut ReportingProducts)
        requires
            old(self).wf(),
        ensures
            final(self).wf(),
            final(self)@ == store_append(old(self)@, old(other)@),
            final(other)@.len() == 0,
    {
        let mut taken: Vec<(ReportingProductId, ReportingProduct)> = Vec::new();
        core::mem::swap(&mut other.map, &mut taken);
        let ghost o = Seq::new(taken@.len(), |i: int| (taken@[i].0@, taken@[i].1));
        let ghost start = self@;
        let n = taken.len();
        proof {
            assert(other@ =~= Seq::<(ProductIdView, ReportingProduct)>::empty());
            assert(o.subrange(0, 0) =~= Seq::<(ProductIdView, ReportingProduct)>::empty());
        }
        let mut done: usize = 0;
        while taken.len() > 0
            invariant
                self.wf(),
                taken@.len() + done == n,
                o.len() == n,
                forall|i: int| 0 <= i < taken@.len() ==> (taken@[i].0@, taken@[i].1) == o[done + i],
                self@ == store_append(start, o.subrange(0, done as int)),
            decreases taken@.len(),
        {
            let (k, v) = taken.remove(0);
            proof {
                assert((k@, v) == o[done as int]);
                assert(o.subrange(0, done + 1).drop_last() =~= o.subrange(0, done as int));
            }
            self.insert(k, v);
            done = done + 1;
        }
        assert(o.subrange(0, n as int) =~= o);
    }

    /// The product under `key`, or an error if there is none
    pub fn get_or_err(&self, key: &ReportingProductId) -> (r: Result<
        &ReportingProduct,
        ReportingExecutionError,
    >)
        requires
            self.wf(),
        ensures
            r is Ok <==> store_has(self@, key@),
            r matches Ok(v) ==> exists|i: int|
                0 <= i < self@.len() && self@[i].0 == key@ && self@[i].1 == *v,
            r matches Ok(v) ==> store_get(self@, key@) == Some(*v),
    {
        match self.position(key) {
            Some(i) => {
                assert(self@[i as int].1 == self.map@[i as int].1);
                proof {
                    lemma_store_get(self@, key@, i as int);
                }
                Ok(&self.map[i].1)
            },
            None => Err(not_available(key)),
        }
    }

    /// Take the product under `key` out of the store, or an error if there is
    /// none
    pub fn get_owned_or_err(self, key: &ReportingProductId) -> (r: Result<
        ReportingProduct,
        ReportingExecutionError,
    >)
        requires
            self.wf(),
        ensures
            r is Ok <==> store_has(self@, key@),
            r matches Ok(v) ==> exists|i: int|
                0 <= i < self@.len() && self@[i].0 == key@ && self@[i].1 == v,
    {
        let ghost s = self@;
        match self.position(key) {
            Some(i) => {
                let mut map = self.map;
                assert(s[i as int].1 == map@[i as int].1);
                let (_k, v) = map.swap_remove(i);
                Ok(v)
            },
            None => Err(not_available(key)),
        }
    }
}

} // verus!

verus! {

/// After an insertion the store has an entry for the inserted id and for the
/// ids it had
pub proof fn lemma_store_insert_has(
    s: Seq<(ProductIdView, ReportingProduct)>,
    k: ProductIdView,
    v: ReportingProduct,
)
    ensures
        forall|x: ProductIdView|
            #[trigger] store_has(store_insert(s, k, v), x) == (x == k || store_has(s, x)),
{
    let r = store_insert(s, k, v);
    assert forall|x: ProductIdView| #[trigger] store_has(r, x) == (x == k || store_has(s, x)) by {
        if store_has(s, k) {
            let i = choose|i: int| 0 <= i < s.len() && (#[trigger] s[i]).0 == k;
            assert(r[i].0 == k);
            if store_has(s, x) {
                let j = choose|j: int| 0 <= j < s.len() && (#[trigger] s[j]).0 == x;
                assert(r[j].0 == x);
            }
            if store_has(r, x) {
                let j = choose|j: int| 0 <= j < r.len() && (#[trigger] r[j]).0 == x;
                assert(s[j].0 == x);
            }
        } else {
            assert(r[s.len() as int].0 == k);
            if store_has(s, x) {
                let j = choose|j: int| 0 <= j < s.len() && (#[trigger] s[j]).0 == x;
                assert(r[j].0 == x);
            }
            if store_has(r, x) && x != k {
                let j = choose|j: int| 0 <= j < r.len() && (#[trigger] r[j]).0 == x;
                assert(s[j].0 == x);
            }
        }
    }
}

/// After moving the entries of `o` in, the store has an entry for exactly the
/// ids it had and those of `o`
pub proof fn lemma_store_append_has(
    s: Seq<(ProductIdView, ReportingProduct)>,
    o: Seq<(ProductIdView, ReportingProduct)>,
)
    ensures
        forall|x: ProductIdView|
            #[trigger] store_has(store_append(s, o), x) == (store_has(s, x) || store_has(o, x)),
    decreases o.len(),
{
    if o.len() > 0 {
        let prev = store_append(s, o.drop_last());
        lemma_store_append_has(s, o.drop_last());
        lemma_store_insert_has(prev, o.last().0, o.last().1);
        assert forall|x: ProductIdView|
            #[trigger] store_has(store_append(s, o), x) == (store_has(s, x) || store_has(o, x)) by {
            if store_has(o.drop_last(), x) {
                let j = choose|j: int| 0 <= j < o.drop_last().len() && (#[trigger] o.drop_last()[j]).0 == x;
                assert(o[j].0 == x);
            }
            if store_has(o, x) && x != o.last().0 {
                let j = choose|j: int| 0 <= j < o.len() && (#[trigger] o[j]).0 == x;
                assert(o.drop_last()[j].0 == x);
            }
            if x == o.last().0 {
                assert(o[o.len() - 1].0 == x);
            }
        }
    }
}

} // verus!

verus! {

/// Abstract value of a product: balances by their accounts' quantities
pub enum ProductValue {
    Transactions(Seq<TransactionWithPostings>),
    BalancesAt(crate::balances::BalancesView),
    BalancesBetween(crate::balances::BalancesView),
    Generic(DynamicReport),
}

/// Abstract value of a product
pub open spec fn product_value(p: ReportingProduct) -> ProductValue {
    match p {
        ReportingProduct::Transactions(t) => ProductValue::Transactions(t.transactions@),
        ReportingProduct::BalancesAt(b) => ProductValue::BalancesAt(b.balances@),
        ReportingProduct::BalancesBetween(b) => ProductValue::BalancesBetween(b.balances@),
        ReportingProduct::Generic(r) => ProductValue::Generic(r),
    }
}

/// Abstract value of a store: its ids, in order, with their products' values
pub type StoreValue = Seq<(ProductIdView, ProductValue)>;

/// Abstract value of a store's view
pub open spec fn store_value(s: Seq<(ProductIdView, ReportingProduct)>) -> StoreValue {
    Seq::new(s.len(), |i: int| (s[i].0, product_value(s[i].1)))
}

/// Whether the id `k` has an entry in `s`
pub open spec fn value_has(s: StoreValue, k: ProductIdView) -> bool {
    exists|i: int| 0 <= i < s.len() && (#[trigger] s[i]).0 == k
}

/// The value under the id `k` in `s` (its first entry), if there is one
pub open spec fn value_at(s: StoreValue, k: ProductIdView) -> Option<ProductValue> {
    if value_has(s, k) {
        Some(
            s[choose|i: int|
                0 <= i < s.len() && s[i].0 == k && forall|j: int|
                    0 <= j < i ==> (#[trigger] s[j]).0 != k].1,
        )
    } else {
        None
    }
}

/// `s` after inserting `(k, v)`: the value of an existing entry is replaced
/// in place, else the entry is appended
pub open spec fn value_insert(s: StoreValue, k: ProductIdView, v: ProductValue) -> StoreValue {
    if value_has(s, k) {
        let i = choose|i: int|
            0 <= i < s.len() && s[i].0 == k && forall|j: int| 0 <= j < i ==> (#[trigger] s[j]).0 != k;
        s.update(i, (k, v))
    } else {
        s.push((k, v))
    }
}

/// `s` after inserting, in order, the entries of `o`
pub open spec fn value_append(s: StoreValue, o: StoreValue) -> StoreValue
    decreases o.len(),
{
    if o.len() == 0 {
        s
    } else {
        value_insert(value_append(s, o.drop_last()), o.last().0, o.last().1)
    }
}

proof fn lemma_first_index(s: Seq<(ProductIdView, ReportingProduct)>, k: ProductIdView, i: int)
    requires
        keys_unique(s),
        0 <= i < s.len(),
        s[i].0 == k,
    ensures
        ({
            let vs = store_value(s);
            let c = choose|c: int|
                0 <= c < vs.len() && vs[c].0 == k && forall|j: int|
                    0 <= j < c ==> (#[trigger] vs[j]).0 != k;
            c == i
        }),
{
    let vs = store_value(s);
    assert(0 <= i < vs.len() && vs[i].0 == k && forall|j: int| 0 <= j < i ==> (#[trigger] vs[j]).0 != k) by {
        assert forall|j: int| 0 <= j < i implies (#[trigger] vs[j]).0 != k by {
            assert(s[j].0 != s[i].0);
        }
    }
    let c = choose|c: int|
        0 <= c < vs.len() && vs[c].0 == k && forall|j: int| 0 <= j < c ==> (#[trigger] vs[j]).0 != k;
    if c != i {
        if c < i {
            assert(vs[c].0 != k);
        } else {
            assert(vs[i].0 != k);
        }
    }
}

/// In a store with one entry per id, the value under an id is the value of
/// its entry
pub proof fn lemma_value_at(s: Seq<(ProductIdView, ReportingProduct)>, k: ProductIdView)
    requires
        keys_unique(s),
    ensures
        value_at(store_value(s), k) == match store_get(s, k) {
            Some(p) => Some(product_value(p)),
            None => None,
        },
{
    let vs = store_value(s);
    if store_has(s, k) {
        let i = choose|i: int| 0 <= i < s.len() && (#[trigger] s[i]).0 == k;
        lemma_store_get(s, k, i);
        lemma_first_index(s, k, i);
        assert(vs[i].0 == k);
    } else {
        if value_has(vs, k) {
            let i = choose|i: int| 0 <= i < vs.len() && (#[trigger] vs[i]).0 == k;
            assert(s[i].0 == k);
        }
    }
}

/// Inserting commutes with taking values, in a store with one entry per id
pub proof fn lemma_value_insert(
    s: Seq<(ProductIdView, ReportingProduct)>,
    k: ProductIdView,
    v: ReportingProduct,
)
    requires
        keys_unique(s),
    ensures
        store_value(store_insert(s, k, v)) == value_insert(store_value(s), k, product_value(v)),
{
    let vs = store_value(s);
    if store_has(s, k) {
        let i = choose|i: int| 0 <= i < s.len() && (#[trigger] s[i]).0 == k;
        lemma_first_index(s, k, i);
        assert(vs[i].0 == k);
        assert(value_has(vs, k));
        assert(store_value(store_insert(s, k, v)) =~= value_insert(vs, k, product_value(v)));
    } else {
        if value_has(vs, k) {
            let i = choose|i: int| 0 <= i < vs.len() && (#[trigger] vs[i]).0 == k;
            assert(s[i].0 == k);
        }
        assert(store_value(store_insert(s, k, v)) =~= value_insert(vs, k, product_value(v)));
    }
}

/// Moving entries in commutes with taking values, in a store with one entry
/// per id
pub proof fn lemma_value_append(
    s: Seq<(ProductIdView, ReportingProduct)>,
    o: Seq<(ProductIdView, ReportingProduct)>,
)
    requires
        keys_unique(s),
    ensures
        store_value(store_append(s, o)) == value_append(store_value(s), store_value(o)),
        keys_unique(store_append(s, o)),
    decreases o.len(),
{
    if o.len() > 0 {
        lemma_value_append(s, o.drop_last());
        assert(store_value(o).drop_last() =~= store_value(o.drop_last()));
        lemma_value_insert(store_append(s, o.drop_last()), o.last().0, o.last().1);
        lemma_store_insert_unique(store_append(s, o.drop_last()), o.last().0, o.last().1);
    }
}

} // verus!
