//! Account classification and the report rows of the accounts of one kind.

use vstd::prelude::*;
use vstd::string::StrSliceExecFns;

use crate::balances::{balance_of, BalanceMap};
use crate::report::{DynamicReportEntry, LiteralRow};
use crate::QuantityInt;

verus! {

/// One classification tag of an account
pub struct AccountConfiguration {
    pub id: Option<u64>,
    pub account: String,
    pub kind: String,
    pub data: Option<String>,
}

/// The kinds of each account, each account listed once, its kinds in the
/// order they were given
pub struct AccountKinds {
    entries: Vec<(String, Vec<String>)>,
}

/// Abstract value of [AccountKinds]: for each account that has a kind, its
/// kinds in order
pub type KindsView = Map<Seq<char>, Seq<Seq<char>>>;

pub open spec fn texts_view(v: Seq<String>) -> Seq<Seq<char>> {
    Seq::new(v.len(), |i: int| v[i]@)
}

impl View for AccountKinds {
    type V = KindsView;

    closed spec fn view(&self) -> KindsView {
        Map::new(
            |k: Seq<char>| exists|i: int| 0 <= i < self.entries@.len() && self.entries@[i].0@ == k,
            |k: Seq<char>|
                {
                    let i = choose|i: int|
                        0 <= i < self.entries@.len() && self.entries@[i].0@ == k;
                    texts_view(self.entries@[i].1@)
                },
        )
    }
}

/// The kinds after recording, in order, the configurations `cs`
pub open spec fn kinds_after(cs: Seq<AccountConfiguration>) -> KindsView
    decreases cs.len(),
{
    if cs.len() == 0 {
        Map::empty()
    } else {
        let prev = kinds_after(cs.drop_last());
        let c = cs.last();
        let old_kinds = if prev.contains_key(c.account@) {
            prev[c.account@]
        } else {
            Seq::empty()
        };
        prev.insert(c.account@, old_kinds.push(c.kind@))
    }
}

impl AccountKinds {
    /// Whether each account is listed once
    pub closed spec fn wf(&self) -> bool {
        forall|i: int, j: int|
            0 <= i < j < self.entries@.len() ==> self.entries@[i].0@ != self.entries@[j].0@
    }

    /// The accounts, each once
    pub closed spec fn accounts(&self) -> Seq<Seq<char>> {
        Seq::new(self.entries@.len(), |i: int| self.entries@[i].0@)
    }

    proof fn lemma_view(&self)
        requires
            self.wf(),
        ensures
            forall|i: int|
                0 <= i < self.entries@.len() ==> #[trigger] self@[self.entries@[i].0@] == texts_view(
                    self.entries@[i].1@,
                ),
            forall|k: Seq<char>|
                #[trigger] self@.contains_key(k) <==> exists|i: int|
                    0 <= i < self.entries@.len() && self.entries@[i].0@ == k,
            self.accounts().len() == self.entries@.len(),
            forall|k: Seq<char>| #[trigger] self@.contains_key(k) <==> self.accounts().contains(k),
    {
        assert forall|i: int| 0 <= i < self.entries@.len() implies #[trigger] self@[self.entries@[i].0@]
            == texts_view(self.entries@[i].1@) by {
            let k = self.entries@[i].0@;
            let c = choose|c: int| 0 <= c < self.entries@.len() && self.entries@[c].0@ == k;
            assert(c == i);
        }
        assert forall|k: Seq<char>| #[trigger] self@.contains_key(k) <==> self.accounts().contains(k) by {
            if self@.contains_key(k) {
                let i = choose|i: int| 0 <= i < self.entries@.len() && self.entries@[i].0@ == k;
                assert(self.accounts()[i] == k);
            }
            if self.accounts().contains(k) {
                let i = choose|i: int| 0 <= i < self.accounts().len() && self.accounts()[i] == k;
                assert(self.entries@[i].0@ == k);
            }
        }
    }

    /// The kinds of `account`, if it has any
    pub fn get(&self, account: &String) -> (r: Option<&Vec<String>>)
        requires
            self.wf(),
        ensures
            match r {
                Some(v) => self@.contains_key(account@) && texts_view(v@) == self@[account@],
                None => !self@.contains_key(account@),
            },
    {
        proof {
            self.lemma_view();
        }
        let n = self.entries.len();
        let mut i: usize = 0;
        while i < n
            invariant
                n == self.entries@.len(),
                i <= n,
                self.wf(),
                forall|j: int| 0 <= j < i ==> self.entries@[j].0@ != account@,
            decreases n - i,
        {
            if self.entries[i].0 == *account {
                proof {
                    self.lemma_view();
                }
                assert(self.entries@[i as int].0@ == account@);
                assert(self@.contains_key(account@));
                assert(self@[self.entries@[i as int].0@] == texts_view(self.entries@[i as int].1@));
                return Some(&self.entries[i].1);
            }
            i = i + 1;
        }
        None
    }
}

/// The kinds of each account, from its configurations: each configuration
/// adds its kind, in order, to those of its account
pub fn kinds_for_account(account_configurations: Vec<AccountConfiguration>) -> (r: AccountKinds)
    ensures
        r.wf(),
        r@ == kinds_after(account_configurations@),
{
    let ghost all = account_configurations@;
    let mut result = AccountKinds { entries: Vec::new() };
    let mut rest = account_configurations;
    let ghost mut k: int = 0;
    proof {
        result.lemma_view();
        assert(result@ =~= kinds_after(all.subrange(0, 0)));
    }
    while rest.len() > 0
        invariant
            0 <= k <= all.len(),
            rest@ == all.subrange(k, all.len() as int),
            result.wf(),
            result@ == kinds_after(all.subrange(0, k)),
        decreases rest@.len(),
    {
        let c = rest.remove(0);
        assert(c == all[k]);
        proof {
            result.lemma_view();
            assert(all.subrange(0, k + 1).drop_last() =~= all.subrange(0, k));
        }
        let ghost prev = result@;
        let n = result.entries.len();
        let mut i: usize = 0;
        let mut pos: usize = n;
        while i < n
            invariant
                n == result.entries@.len(),
                i <= n,
                pos == n ==> forall|j: int| 0 <= j < i ==> result.entries@[j].0@ != c.account@,
                pos != n ==> pos < n && result.entries@[pos as int].0@ == c.account@,
            decreases n - i,
        {
            if pos == n && result.entries[i].0 == c.account {
                pos = i;
            }
            i = i + 1;
        }
        let AccountConfiguration { id: _, account, kind, data: _ } = c;
        let mut es: Vec<(String, Vec<String>)> = Vec::new();
        core::mem::swap(&mut es, &mut result.entries);
        let ghost before = es@;
        let ghost key = all[k].account@;
        proof {
            assert(forall|j: int| 0 <= j < before.len() ==> #[trigger] prev[before[j].0@] == texts_view(before[j].1@));
            assert(forall|a: Seq<char>| #[trigger] prev.contains_key(a) <==> exists|j: int| 0 <= j < before.len() && before[j].0@ == a);
        }
        if pos < n {
            let mut slot: (String, Vec<String>) = (String::new(), Vec::new());
            es.set_and_swap(pos, &mut slot);
            let (name, mut kinds) = slot;
            let ghost old_kinds = kinds@;
            kinds.push(kind);
            es.set(pos, (name, kinds));
            proof {
                assert(texts_view(es@[pos as int].1@) =~= texts_view(old_kinds).push(all[k].kind@));
                assert(prev.contains_key(key));
                assert(prev[key] == texts_view(old_kinds));
            }
        } else {
            let mut kinds: Vec<String> = Vec::new();
            kinds.push(kind);
            es.push((account, kinds));
            proof {
                assert(texts_view(es@[n as int].1@) =~= Seq::<Seq<char>>::empty().push(all[k].kind@));
                assert(!prev.contains_key(key));
            }
        }
        let ghost at = if pos < n { pos as int } else { n as int };
        proof {
            assert(es@[at].0@ == key);
            assert(forall|j: int| 0 <= j < before.len() && j != at ==> es@[j] == before[j]);
            assert(es@.len() == before.len() || es@.len() == before.len() + 1);
            assert forall|a: int, b: int| 0 <= a < b < es@.len() implies es@[a].0@ != es@[b].0@ by {
                if a != at && b != at {
                    assert(es@[a] == before[a] && es@[b] == before[b]);
                } else if a == at {
                    assert(es@[b] == before[b]);
                    if pos < n {
                        assert(before[at].0@ == key);
                    }
                } else {
                    assert(es@[a] == before[a]);
                    if pos < n {
                        assert(before[at].0@ == key);
                    }
                }
            }
        }
        result.entries = es;
        proof {
            result.lemma_view();
            let target = kinds_after(all.subrange(0, k + 1));
            assert forall|a: Seq<char>| #[trigger] result@.contains_key(a) <==> target.contains_key(a) by {
                if result@.contains_key(a) && a != key {
                    let j = choose|j: int| 0 <= j < result.entries@.len() && result.entries@[j].0@ == a;
                    assert(j != at);
                    assert(before[j].0@ == a);
                }
                if target.contains_key(a) && a != key {
                    let j = choose|j: int| 0 <= j < before.len() && before[j].0@ == a;
                    assert(j != at);
                    assert(result.entries@[j].0@ == a);
                }
                if a == key {
                    assert(result.entries@[at].0@ == a);
                }
            }
            assert forall|a: Seq<char>| #[trigger] result@.contains_key(a) implies result@[a]
                == target[a] by {
                let j = choose|j: int| 0 <= j < result.entries@.len() && result.entries@[j].0@ == a;
                assert(result@[result.entries@[j].0@] == texts_view(result.entries@[j].1@));
                if a != key {
                    assert(j != at);
                    assert(before[j] == result.entries@[j]);
                } else {
                    assert(j == at);
                }
            }
            assert(result@ =~= target);
            k = k + 1;
        }
    }
    assert(all.subrange(0, all.len() as int) =~= all);
    result
}

// ---------------------------------------------------------------------------
// Sorting account names

/// Lexicographic order of texts, by character
pub open spec fn text_lt(a: Seq<char>, b: Seq<char>) -> bool
    decreases a.len(),
{
    if b.len() == 0 {
        false
    } else if a.len() == 0 {
        true
    } else if a[0] != b[0] {
        (a[0] as u32) < (b[0] as u32)
    } else {
        text_lt(a.drop_first(), b.drop_first())
    }
}

proof fn lemma_char_code_injective(a: char, b: char)
    ensures
        a != b ==> (a as u32) != (b as u32),
{
}

proof fn lemma_text_lt_total(a: Seq<char>, b: Seq<char>)
    ensures
        a != b ==> (text_lt(a, b) || text_lt(b, a)),
        !(text_lt(a, b) && text_lt(b, a)),
        !text_lt(a, a),
    decreases a.len(),
{
    if a.len() > 0 {
        lemma_text_lt_total(a.drop_first(), a.drop_first());
    }
    if a.len() > 0 && b.len() > 0 {
        lemma_text_lt_total(a.drop_first(), b.drop_first());
        if a != b && a[0] == b[0] {
            assert(a =~= seq![a[0]] + a.drop_first());
            assert(b =~= seq![b[0]] + b.drop_first());
            assert(a.drop_first() != b.drop_first());
        }
        if a[0] != b[0] {
            lemma_char_code_injective(a[0], b[0]);
        }
    }
    if a.len() == 0 && b.len() == 0 {
        assert(a =~= b);
    }
}

proof fn lemma_text_lt_trans(a: Seq<char>, b: Seq<char>, c: Seq<char>)
    requires
        text_lt(a, b),
        text_lt(b, c),
    ensures
        text_lt(a, c),
    decreases a.len(),
{
    if a.len() > 0 && b.len() > 0 && c.len() > 0 && a[0] == b[0] && b[0] == c[0] {
        lemma_text_lt_trans(a.drop_first(), b.drop_first(), c.drop_first());
    }
}

/// Whether `a` comes strictly before `b`
fn text_less(a: &String, b: &String) -> (r: bool)
    ensures
        r == text_lt(a@, b@),
{
    let sa = a.as_str();
    let sb = b.as_str();
    let la = sa.unicode_len();
    let lb = sb.unicode_len();
    let mut i: usize = 0;
    assert(a@.subrange(0, la as int) =~= a@);
    assert(b@.subrange(0, lb as int) =~= b@);
    while i < la && i < lb
        invariant
            la == a@.len(),
            lb == b@.len(),
            sa@ == a@,
            sb@ == b@,
            i <= la,
            i <= lb,
            text_lt(a@, b@) == text_lt(a@.subrange(i as int, la as int), b@.subrange(i as int, lb as int)),
        decreases la - i,
    {
        let ca = sa.get_char(i);
        let cb = sb.get_char(i);
        let ghost ra = a@.subrange(i as int, la as int);
        let ghost rb = b@.subrange(i as int, lb as int);
        assert(ra[0] == ca && rb[0] == cb);
        if ca != cb {
            return (ca as u32) < (cb as u32);
        }
        assert(ra.drop_first() =~= a@.subrange(i + 1, la as int));
        assert(rb.drop_first() =~= b@.subrange(i + 1, lb as int));
        i = i + 1;
    }
    i < lb
}

/// Whether a list of texts is in strictly increasing order
pub open spec fn strictly_sorted(s: Seq<Seq<char>>) -> bool {
    forall|i: int, j: int| 0 <= i < j < s.len() ==> text_lt(s[i], s[j])
}

/// Insert `x` into the sorted list `v`, which does not hold it
fn insert_sorted(v: &mut Vec<String>, x: String)
    requires
        strictly_sorted(texts_view(old(v)@)),
        !texts_view(old(v)@).contains(x@),
    ensures
        strictly_sorted(texts_view(final(v)@)),
        texts_view(final(v)@).to_set() == texts_view(old(v)@).to_set().insert(x@),
        final(v)@.len() == old(v)@.len() + 1,
{
    let ghost before = texts_view(v@);
    let n = v.len();
    let mut i: usize = 0;
    while i < n && text_less(&v[i], &x)
        invariant
            n == v@.len(),
            i <= n,
            before == texts_view(v@),
            forall|j: int| 0 <= j < i ==> text_lt(v@[j]@, x@),
        decreases n - i,
    {
        i = i + 1;
    }
    proof {
        if i < n {
            lemma_text_lt_total(v@[i as int]@, x@);
            assert(before[i as int] != x@);
        }
    }
    v.insert(i, x);
    proof {
        let after = texts_view(v@);
        assert(after.len() == n + 1);
        assert(forall|j: int| 0 <= j < i ==> after[j] == before[j]);
        assert(after[i as int] == x@);
        assert(forall|j: int| i < j <= n ==> after[j] == before[j - 1]);
        assert forall|a: int, b: int| 0 <= a < b < after.len() implies text_lt(after[a], after[b]) by {
            if a < i && b < i {
            } else if a < i && b == i {
            } else if a < i && b > i {
                assert(after[b] == before[b - 1]);
                assert(text_lt(before[a], before[b - 1]));
            } else if a == i && b > i {
                assert(after[b] == before[b - 1]);
                if b - 1 > i {
                    assert(text_lt(before[i as int], before[b - 1]));
                    lemma_text_lt_trans(x@, before[i as int], before[b - 1]);
                }
            } else {
                assert(after[a] == before[a - 1]);
                assert(after[b] == before[b - 1]);
            }
        }
        assert forall|t: Seq<char>| after.to_set().contains(t) <==> before.to_set().insert(x@).contains(t) by {
            if after.contains(t) {
                let j = choose|j: int| 0 <= j < after.len() && after[j] == t;
                if j < i {
                    assert(before[j] == t);
                } else if j > i {
                    assert(before[j - 1] == t);
                }
            }
            if before.contains(t) {
                let j = choose|j: int| 0 <= j < before.len() && before[j] == t;
                if j < i {
                    assert(after[j] == t);
                } else {
                    assert(after[j + 1] == t);
                }
            }
            if t == x@ {
                assert(after[i as int] == t);
            }
        }
        assert(after.to_set() =~= before.to_set().insert(x@));
    }
}

/// Whether `kind` is among the texts `v`
fn has_kind(v: &Vec<String>, kind: &str) -> (r: bool)
    ensures
        r == texts_view(v@).contains(kind@),
{
    let n = v.len();
    let mut i: usize = 0;
    while i < n
        invariant
            n == v@.len(),
            i <= n,
            forall|j: int| 0 <= j < i ==> v@[j]@ != kind@,
        decreases n - i,
    {
        if crate::report::text_eq(&v[i], kind) {
            assert(texts_view(v@)[i as int] == kind@);
            return true;
        }
        i = i + 1;
    }
    false
}

/// The accounts that have the kind `kind`
pub open spec fn accounts_of_kind(kinds: KindsView, kind: Seq<char>) -> Set<Seq<char>> {
    Set::new(|a: Seq<char>| kinds.contains_key(a) && kinds[a].contains(kind))
}

/// The accounts that have the kind `kind`, in increasing order of name
pub fn sorted_accounts_of_kind(kinds_for_account: &AccountKinds, kind: &str) -> (r: Vec<String>)
    requires
        kinds_for_account.wf(),
    ensures
        strictly_sorted(texts_view(r@)),
        texts_view(r@).to_set() == accounts_of_kind(kinds_for_account@, kind@),
{
    proof {
        kinds_for_account.lemma_view();
    }
    let es = &kinds_for_account.entries;
    let n = es.len();
    let mut out: Vec<String> = Vec::new();
    let mut i: usize = 0;
    while i < n
        invariant
            n == es@.len(),
            i <= n,
            *es == kinds_for_account.entries,
            kinds_for_account.wf(),
            strictly_sorted(texts_view(out@)),
            texts_view(out@).to_set() == Set::new(
                |a: Seq<char>|
                    exists|j: int|
                        0 <= j < i && es@[j].0@ == a && texts_view(es@[j].1@).contains(kind@),
            ),
        decreases n - i,
    {
        let ghost before = texts_view(out@).to_set();
        if has_kind(&es[i].1, kind) {
            proof {
                if texts_view(out@).contains(es@[i as int].0@) {
                    assert(before.contains(es@[i as int].0@));
                    let j = choose|j: int|
                        0 <= j < i && es@[j].0@ == es@[i as int].0@ && texts_view(es@[j].1@).contains(
                            kind@,
                        );
                    assert(kinds_for_account.entries@[j].0@ != kinds_for_account.entries@[i as int].0@);
                }
            }
            insert_sorted(&mut out, es[i].0.clone());
        }
        proof {
            let want = Set::new(
                |a: Seq<char>|
                    exists|j: int|
                        0 <= j < i + 1 && es@[j].0@ == a && texts_view(es@[j].1@).contains(kind@),
            );
            assert forall|a: Seq<char>| texts_view(out@).to_set().contains(a) <==> want.contains(a) by {
                if want.contains(a) {
                    let j = choose|j: int|
                        0 <= j < i + 1 && es@[j].0@ == a && texts_view(es@[j].1@).contains(kind@);
                    if j < i {
                        assert(before.contains(a));
                    }
                }
                if before.contains(a) {
                    let j = choose|j: int|
                        0 <= j < i && es@[j].0@ == a && texts_view(es@[j].1@).contains(kind@);
                    assert(0 <= j < i + 1);
                }
            }
            assert(texts_view(out@).to_set() =~= want);
        }
        i = i + 1;
    }
    proof {
        assert forall|a: Seq<char>| texts_view(out@).to_set().contains(a) <==> accounts_of_kind(
            kinds_for_account@,
            kind@,
        ).contains(a) by {
            if accounts_of_kind(kinds_for_account@, kind@).contains(a) {
                let j = choose|j: int| 0 <= j < es@.len() && es@[j].0@ == a;
                assert(kinds_for_account@[es@[j].0@] == texts_view(es@[j].1@));
            }
            if texts_view(out@).to_set().contains(a) {
                let j = choose|j: int|
                    0 <= j < n && es@[j].0@ == a && texts_view(es@[j].1@).contains(kind@);
                assert(kinds_for_account@[es@[j].0@] == texts_view(es@[j].1@));
            }
        }
        assert(texts_view(out@).to_set() =~= accounts_of_kind(kinds_for_account@, kind@));
    }
    out
}

} // verus!

verus! {

/// The quantity a row shows for a balance: negated when `invert` is set
pub open spec fn shown(q: int, invert: bool) -> int {
    if invert {
        -q
    } else {
        q
    }
}

/// Whether `e` is the row that [entries_for_kind] makes for `account`
pub open spec fn kind_row(
    e: DynamicReportEntry,
    account: Seq<char>,
    invert: bool,
    balances: Seq<&BalanceMap>,
) -> bool {
    match e {
        DynamicReportEntry::LiteralRow(row) => {
            &&& row.text@ == account
            &&& row.quantity@.len() == balances.len()
            &&& forall|j: int|
                0 <= j < balances.len() ==> row.quantity@[j] as int == shown(
                    balance_of(balances[j]@, account),
                    invert,
                )
            &&& row.id is None
            &&& row.visible
            &&& row.auto_hide
            &&& row.link is None
            &&& !row.heading
            &&& !row.bordered
        },
        _ => false,
    }
}

/// One auto-hiding row for each account of kind `kind`, in increasing order
/// of name, with its balance in each of `balances` (negated when `invert` is
/// set) as quantities
pub fn entries_for_kind(
    kind: &str,
    invert: bool,
    balances: &Vec<&BalanceMap>,
    kinds_for_account: &AccountKinds,
) -> (r: Vec<DynamicReportEntry>)
    requires
        kinds_for_account.wf(),
        invert ==> forall|j: int, a: Seq<char>|
            0 <= j < balances@.len() ==> #[trigger] balance_of(balances@[j]@, a) > i64::MIN,
    ensures
        exists|accounts: Seq<Seq<char>>|
            {
                &&& strictly_sorted(accounts)
                &&& accounts.to_set() == accounts_of_kind(kinds_for_account@, kind@)
                &&& r@.len() == accounts.len()
                &&& forall|i: int|
                    0 <= i < r@.len() ==> kind_row(#[trigger] r@[i], accounts[i], invert, balances@)
            },
{
    let accounts = sorted_accounts_of_kind(kinds_for_account, kind);
    let ghost names = texts_view(accounts@);
    let mut entries: Vec<DynamicReportEntry> = Vec::new();
    let n = accounts.len();
    let m = balances.len();
    let mut i: usize = 0;
    while i < n
        invariant
            n == accounts@.len(),
            m == balances@.len(),
            i <= n,
            names == texts_view(accounts@),
            invert ==> forall|j: int, a: Seq<char>|
                0 <= j < balances@.len() ==> #[trigger] balance_of(balances@[j]@, a) > i64::MIN,
            entries@.len() == i,
            forall|k: int| 0 <= k < i ==> kind_row(#[trigger] entries@[k], names[k], invert, balances@),
        decreases n - i,
    {
        let account = &accounts[i];
        let mut quantities: Vec<QuantityInt> = Vec::new();
        let mut j: usize = 0;
        while j < m
            invariant
                m == balances@.len(),
                j <= m,
                i < n,
                n == accounts@.len(),
                *account == accounts@[i as int],
                invert ==> forall|j: int, a: Seq<char>|
                    0 <= j < balances@.len() ==> #[trigger] balance_of(balances@[j]@, a) > i64::MIN,
                quantities@.len() == j,
                forall|k: int|
                    0 <= k < j ==> quantities@[k] as int == shown(
                        balance_of(balances@[k]@, accounts@[i as int]@),
                        invert,
                    ),
            decreases m - j,
        {
            let b: &BalanceMap = balances[j];
            proof {
                use_type_invariant(b);
            }
            let q = b.get(account);
            assert(balance_of(balances@[j as int]@, accounts@[i as int]@) > i64::MIN || !invert);
            let v = if invert {
                -q
            } else {
                q
            };
            quantities.push(v);
            j = j + 1;
        }
        let row = LiteralRow {
            text: account.clone(),
            quantity: quantities,
            id: None,
            visible: true,
            auto_hide: true,
            link: None,
            heading: false,
            bordered: false,
        };
        entries.push(DynamicReportEntry::LiteralRow(row));
        proof {
            assert(names[i as int] == accounts@[i as int]@);
            assert(kind_row(entries@[i as int], names[i as int], invert, balances@));
            assert forall|k: int| 0 <= k < i + 1 implies kind_row(
                #[trigger] entries@[k],
                names[k],
                invert,
                balances@,
            ) by {
                if k < i {
                    assert(entries@[k] == entries@.drop_last()[k]);
                }
            }
        }
        i = i + 1;
    }
    entries
}

} // verus!
