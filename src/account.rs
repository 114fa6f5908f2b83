use vstd::prelude::*;
use crate::amount::{amount_from_bytes, amount_to_bytes, be_bytes, be_value};
use crate::codec::{decode, enc_list, encode, lemma_parse_enc_list, parse};
use crate::amount::lemma_amount_round_trip;
use crate::merkle::{array_bytes, merkle_pair, merkle_root, merkle_root_of, views};
use crate::address::{key_equal, key_less, key_lt, lemma_seq_lt_irreflexive, lemma_seq_lt_total, lemma_seq_lt_transitive};

verus! {

/// One storage entry: a 32-byte key and its 32-byte value.
pub type StorageEntry = ([u8; 32], [u8; 32]);

/// The state of one address: its balance, its nonce and its key/value storage.
#[derive(Clone, Debug)]
pub struct Account {
    pub balance: u128,
    pub counter: u128,
    pub storage: Vec<StorageEntry>,
}

/// An account as a mathematical value.
pub struct AccountModel {
    pub balance: int,
    pub counter: int,
    pub storage: Seq<StorageEntry>,
}

impl View for Account {
    type V = AccountModel;

    open spec fn view(&self) -> AccountModel {
        AccountModel { balance: self.balance as int, counter: self.counter as int, storage: self.storage@ }
    }
}

/// The same account with another balance.
pub open spec fn with_balance(a: AccountModel, b: int) -> AccountModel {
    AccountModel { balance: b, counter: a.counter, storage: a.storage }
}

/// A fresh account holding `b`.
pub open spec fn fresh_account(b: int) -> AccountModel {
    AccountModel { balance: b, counter: 0, storage: Seq::empty() }
}

/// Keyed entries in strictly ascending key order (so keys are unique).
pub open spec fn sorted<V>(s: Seq<([u8; 32], V)>) -> bool {
    forall|i: int, j: int| 0 <= i < j < s.len() ==> key_lt(s[i].0, s[j].0)
}

/// `s` with `e` put in its place by key: a present key takes the new value, an
/// absent one goes before the first larger key.
pub open spec fn insert_entry<V>(s: Seq<([u8; 32], V)>, e: ([u8; 32], V)) -> Seq<([u8; 32], V)>
    decreases s.len(),
{
    if s.len() == 0 {
        seq![e]
    } else if s[0].0 == e.0 {
        seq![e] + s.drop_first()
    } else if key_lt(e.0, s[0].0) {
        seq![e] + s
    } else {
        seq![s[0]] + insert_entry(s.drop_first(), e)
    }
}

/// Every entry after an insertion is the new one or was there before.
pub proof fn lemma_insert_entries<V>(s: Seq<([u8; 32], V)>, e: ([u8; 32], V))
    ensures
        forall|k: int| 0 <= k < insert_entry(s, e).len() ==> insert_entry(s, e)[k] == e || s.contains(#[trigger] insert_entry(s, e)[k]),
    decreases s.len(),
{
    let r = insert_entry(s, e);
    if s.len() > 0 {
        let t = s.drop_first();
        lemma_insert_entries(t, e);
        assert forall|k: int| 0 <= k < r.len() implies r[k] == e || s.contains(r[k]) by {
            if s[0].0 == e.0 {
                if k > 0 {
                    assert(r[k] == s[k]);
                }
            } else if key_lt(e.0, s[0].0) {
                if k > 0 {
                    assert(r[k] == s[k - 1]);
                }
            } else if k == 0 {
                assert(r[0] == s[0]);
            } else {
                let it = insert_entry(t, e);
                assert(r[k] == it[k - 1]);
                if it[k - 1] != e {
                    let m = choose|m: int| 0 <= m < t.len() && t[m] == it[k - 1];
                    assert(s[m + 1] == r[k]);
                }
            }
        }
    }
}

/// Sorted entries are fixed by the entries they hold: two that hold the same
/// entries are equal.
pub proof fn lemma_sorted_unique<V>(s1: Seq<([u8; 32], V)>, s2: Seq<([u8; 32], V)>)
    requires
        sorted(s1),
        sorted(s2),
        forall|x: ([u8; 32], V)| s1.contains(x) <==> s2.contains(x),
    ensures
        s1 == s2,
    decreases s1.len(),
{
    if s1.len() == 0 {
        if s2.len() > 0 {
            assert(s2.contains(s2[0]));
        }
        assert(s1 =~= s2);
    } else if s2.len() == 0 {
        assert(s1.contains(s1[0]));
    } else {
        assert(s1.contains(s1[0]));
        assert(s2.contains(s2[0]));
        let i = choose|i: int| 0 <= i < s1.len() && s1[i] == s2[0];
        let j = choose|j: int| 0 <= j < s2.len() && s2[j] == s1[0];
        lemma_key_order(s1[0].0, s2[0].0);
        if i > 0 {
            assert(key_lt(s1[0].0, s1[i].0));
        }
        if j > 0 {
            assert(key_lt(s2[0].0, s2[j].0));
        }
        if i > 0 && j > 0 {
            assert(false);
        }
        if i > 0 && j == 0 {
            assert(false);
        }
        if i == 0 && j > 0 {
            assert(false);
        }
        assert(s1[0] == s2[0]);
        let t1 = s1.drop_first();
        let t2 = s2.drop_first();
        assert forall|x: ([u8; 32], V)| t1.contains(x) <==> t2.contains(x) by {
            if t1.contains(x) {
                let a = choose|a: int| 0 <= a < t1.len() && t1[a] == x;
                assert(s1[a + 1] == x);
                assert(key_lt(s1[0].0, x.0));
                assert(s2.contains(x));
                let b = choose|b: int| 0 <= b < s2.len() && s2[b] == x;
                lemma_key_order(x.0, x.0);
                assert(b > 0);
                assert(t2[b - 1] == x);
            }
            if t2.contains(x) {
                let a = choose|a: int| 0 <= a < t2.len() && t2[a] == x;
                assert(s2[a + 1] == x);
                assert(key_lt(s2[0].0, x.0));
                assert(s1.contains(x));
                let b = choose|b: int| 0 <= b < s1.len() && s1[b] == x;
                lemma_key_order(x.0, x.0);
                assert(b > 0);
                assert(t1[b - 1] == x);
            }
        }
        lemma_sorted_unique(t1, t2);
        assert(s1 =~= seq![s1[0]] + t1);
        assert(s2 =~= seq![s2[0]] + t2);
    }
}

/// Inserting into sorted entries keeps them sorted; every key of the result is the
/// new key or an old one.
pub proof fn lemma_insert_sorted<V>(s: Seq<([u8; 32], V)>, e: ([u8; 32], V))
    requires
        sorted(s),
    ensures
        sorted(insert_entry(s, e)),
        forall|k: int| 0 <= k < insert_entry(s, e).len() ==> insert_entry(s, e)[k].0 == e.0 || exists|m: int| 0 <= m < s.len() && s[m].0 == insert_entry(s, e)[k].0,
    decreases s.len(),
{
    let r = insert_entry(s, e);
    if s.len() == 0 {
    } else if s[0].0 == e.0 {
        assert forall|k: int| 0 <= k < r.len() implies r[k].0 == e.0 || exists|m: int| 0 <= m < s.len() && s[m].0 == r[k].0 by {
            if k > 0 {
                assert(s[k].0 == r[k].0);
            }
        }
    } else if key_lt(e.0, s[0].0) {
        assert forall|i: int, j: int| 0 <= i < j < r.len() implies key_lt(r[i].0, r[j].0) by {
            if i == 0 && j > 1 {
                assert(key_lt(s[0].0, s[j - 1].0));
                lemma_seq_lt_transitive(e.0@, s[0].0@, s[j - 1].0@);
            }
        }
        assert forall|k: int| 0 <= k < r.len() implies r[k].0 == e.0 || exists|m: int| 0 <= m < s.len() && s[m].0 == r[k].0 by {
            if k > 0 {
                assert(s[k - 1].0 == r[k].0);
            }
        }
    } else {
        let t = s.drop_first();
        assert(sorted(t));
        lemma_insert_sorted(t, e);
        let it = insert_entry(t, e);
        assert(r == seq![s[0]] + it);
        if s[0].0@ == e.0@ {
            assert(s[0].0 =~= e.0);
        }
        lemma_seq_lt_total(s[0].0@, e.0@);
        assert forall|k: int| 0 <= k < r.len() implies r[k].0 == e.0 || exists|m: int| 0 <= m < s.len() && s[m].0 == r[k].0 by {
            if k > 0 && r[k].0 != e.0 {
                let m = choose|m: int| 0 <= m < t.len() && t[m].0 == it[k - 1].0;
                assert(s[m + 1].0 == r[k].0);
            }
        }
        assert forall|i: int, j: int| 0 <= i < j < r.len() implies key_lt(r[i].0, r[j].0) by {
            if i == 0 {
                if r[j].0 == e.0 {
                } else {
                    let m = choose|m: int| 0 <= m < t.len() && t[m].0 == it[j - 1].0;
                    assert(s[m + 1].0 == r[j].0);
                }
            } else {
                assert(r[i] == it[i - 1]);
                assert(r[j] == it[j - 1]);
            }
        }
    }
}

proof fn lemma_key_order(a: [u8; 32], b: [u8; 32])
    ensures
        a == b || key_lt(a, b) || key_lt(b, a),
        !(key_lt(a, b) && key_lt(b, a)),
        !key_lt(a, a),
{
    if a@ == b@ {
        assert(a =~= b);
    } else {
        lemma_seq_lt_total(a@, b@);
    }
    if key_lt(a, b) && key_lt(b, a) {
        lemma_seq_lt_transitive(a@, b@, a@);
        lemma_seq_lt_irreflexive(a@);
    }
    lemma_seq_lt_irreflexive(a@);
}

/// Two entries with different keys can be inserted in either order.
pub proof fn lemma_insert_commutes<V>(s: Seq<([u8; 32], V)>, a: ([u8; 32], V), b: ([u8; 32], V))
    requires
        sorted(s),
        a.0 != b.0,
    ensures
        insert_entry(insert_entry(s, a), b) == insert_entry(insert_entry(s, b), a),
    decreases s.len(),
{
    reveal_with_fuel(insert_entry, 2);
    lemma_key_order(a.0, b.0);
    lemma_key_order(b.0, a.0);
    if s.len() == 0 {
        assert(insert_entry(seq![a], b) =~= insert_entry(seq![b], a)) by {
            assert(seq![a].drop_first() =~= Seq::<([u8; 32], V)>::empty());
            assert(seq![b].drop_first() =~= Seq::<([u8; 32], V)>::empty());
        }
    } else {
        let h = s[0];
        let t = s.drop_first();
        lemma_key_order(a.0, h.0);
        lemma_key_order(b.0, h.0);
        if key_lt(a.0, h.0) && key_lt(b.0, h.0) {
            let ia = seq![a] + s;
            let ib = seq![b] + s;
            assert(ia.drop_first() =~= s);
            assert(ib.drop_first() =~= s);
            assert(insert_entry(ia, b) =~= insert_entry(ib, a));
        } else if !key_lt(a.0, h.0) && a.0 != h.0 && !key_lt(b.0, h.0) && b.0 != h.0 {
            assert(sorted(t));
            lemma_insert_commutes(t, a, b);
            let ia = seq![h] + insert_entry(t, a);
            let ib = seq![h] + insert_entry(t, b);
            assert(ia.drop_first() =~= insert_entry(t, a));
            assert(ib.drop_first() =~= insert_entry(t, b));
            assert(insert_entry(ia, b) =~= seq![h] + insert_entry(insert_entry(t, a), b));
            assert(insert_entry(ib, a) =~= seq![h] + insert_entry(insert_entry(t, b), a));
        } else if key_lt(a.0, h.0) {
            let ia = seq![a] + s;
            assert(ia.drop_first() =~= s);
            if b.0 == h.0 {
                let ib = seq![b] + t;
                assert(ib.drop_first() =~= t);
                assert(insert_entry(ia, b) =~= insert_entry(ib, a));
            } else {
                lemma_seq_lt_transitive(a.0@, h.0@, b.0@);
                let ib = seq![h] + insert_entry(t, b);
                assert(ib.drop_first() =~= insert_entry(t, b));
                assert(insert_entry(ia, b) =~= insert_entry(ib, a));
            }
        } else if key_lt(b.0, h.0) {
            let ib = seq![b] + s;
            assert(ib.drop_first() =~= s);
            if a.0 == h.0 {
                let ia = seq![a] + t;
                assert(ia.drop_first() =~= t);
                assert(insert_entry(ia, b) =~= insert_entry(ib, a));
            } else {
                lemma_seq_lt_transitive(b.0@, h.0@, a.0@);
                let ia = seq![h] + insert_entry(t, a);
                assert(ia.drop_first() =~= insert_entry(t, a));
                assert(insert_entry(ia, b) =~= insert_entry(ib, a));
            }
        } else if a.0 == h.0 {
            let ia = seq![a] + t;
            let ib = seq![h] + insert_entry(t, b);
            assert(ia.drop_first() =~= t);
            assert(ib.drop_first() =~= insert_entry(t, b));
            assert(insert_entry(ia, b) =~= insert_entry(ib, a));
        } else {
            let ib = seq![b] + t;
            let ia = seq![h] + insert_entry(t, a);
            assert(ib.drop_first() =~= t);
            assert(ia.drop_first() =~= insert_entry(t, a));
            assert(insert_entry(ia, b) =~= insert_entry(ib, a));
        }
    }
}

/// Why a persisted account record could not be read.
#[derive(Clone, Copy, Debug, PartialEq, Eq, Structural)]
pub enum DecodeError {
    /// The record is not three well-framed fields, or an amount is wider than sixteen bytes.
    Account,
    /// The storage list is not well framed, or an entry is not a 32-byte key and a 32-byte value.
    KeyValue,
}

/// The record of one storage entry: its key and its value, framed.
pub open spec fn entry_record(e: StorageEntry) -> Seq<u8> {
    enc_list(seq![e.0@, e.1@])
}

/// The persisted record of an account: balance, counter and the list of entry records.
pub open spec fn account_record(a: AccountModel) -> Seq<u8> {
    enc_list(seq![be_bytes(a.balance as nat, 16), be_bytes(a.counter as nat, 16),
        enc_list(a.storage.map_values(|e: StorageEntry| entry_record(e)))])
}

/// The three fields of a record, where it has exactly three and both amounts fit.
pub open spec fn record_fields(b: Seq<u8>) -> Option<Seq<Seq<u8>>> {
    match parse(b) {
        Some(f) => if f.len() == 3 && f[0].len() <= 16 && f[1].len() <= 16 {
            Some(f)
        } else {
            None
        },
        None => None,
    }
}

/// An entry record holds exactly a 32-byte key and a 32-byte value.
pub open spec fn entry_ok(b: Seq<u8>) -> bool {
    parse(b) matches Some(kv) && kv.len() == 2 && kv[0].len() == 32 && kv[1].len() == 32
}

/// A storage list is well framed and each of its entries is.
pub open spec fn storage_ok(l: Seq<u8>) -> bool {
    parse(l) matches Some(es) && forall|i: int| 0 <= i < es.len() ==> entry_ok(es[i])
}

/// The 32-byte array whose bytes are `s`.
pub open spec fn array_of(s: Seq<u8>) -> [u8; 32] {
    choose|a: [u8; 32]| a@ == s
}

/// The entry that an entry record holds.
pub open spec fn entry_of(b: Seq<u8>) -> StorageEntry {
    let kv = parse(b)->0;
    (array_of(kv[0]), array_of(kv[1]))
}

/// `s` with the entries of the records `es` inserted one after another.
pub open spec fn insert_all(s: Seq<StorageEntry>, es: Seq<Seq<u8>>) -> Seq<StorageEntry>
    decreases es.len(),
{
    if es.len() == 0 {
        s
    } else {
        insert_all(insert_entry(s, entry_of(es[0])), es.drop_first())
    }
}

/// What reading the record `b` yields.
pub open spec fn read_record(b: Seq<u8>) -> Result<AccountModel, DecodeError> {
    match record_fields(b) {
        None => Err(DecodeError::Account),
        Some(f) => if storage_ok(f[2]) {
            Ok(AccountModel {
                balance: be_value(f[0]) as int,
                counter: be_value(f[1]) as int,
                storage: insert_all(Seq::empty(), parse(f[2])->0),
            })
        } else {
            Err(DecodeError::KeyValue)
        },
    }
}

/// The leaf that commits to one storage entry.
pub open spec fn entry_leaf(e: StorageEntry) -> Seq<u8> {
    merkle_root_of(seq![e.0@, e.1@])@
}

/// The commitment to a storage held in ascending key order (see `sorted`).
pub open spec fn storage_root(s: Seq<StorageEntry>) -> [u8; 32] {
    merkle_root_of(s.map_values(|e: StorageEntry| entry_leaf(e)))
}

/// The commitment to an account: balance, counter and storage commitment.
pub open spec fn account_root(a: AccountModel) -> [u8; 32] {
    merkle_root_of(seq![be_bytes(a.balance as nat, 16), be_bytes(a.counter as nat, 16), storage_root(a.storage)@])
}

/// The commitment to an account does not depend on the order in which two
/// storage entries with different keys were set.
pub proof fn lemma_account_hash_order_free(a: AccountModel, e1: StorageEntry, e2: StorageEntry)
    requires
        sorted(a.storage),
        e1.0 != e2.0,
    ensures
        account_root(AccountModel { storage: insert_entry(insert_entry(a.storage, e1), e2), ..a })
            == account_root(AccountModel { storage: insert_entry(insert_entry(a.storage, e2), e1), ..a }),
{
    lemma_insert_commutes(a.storage, e1, e2);
}

proof fn lemma_insert_last<V>(s: Seq<([u8; 32], V)>, e: ([u8; 32], V))
    requires
        forall|j: int| 0 <= j < s.len() ==> key_lt(#[trigger] s[j].0, e.0),
    ensures
        insert_entry(s, e) == s.push(e),
    decreases s.len(),
{
    if s.len() > 0 {
        lemma_key_order(s[0].0, e.0);
        lemma_insert_last(s.drop_first(), e);
        assert(seq![s[0]] + s.drop_first().push(e) =~= s.push(e));
    }
}

proof fn lemma_enc_list_holds(items: Seq<Seq<u8>>, i: int)
    requires
        0 <= i < items.len(),
    ensures
        items[i].len() <= enc_list(items).len(),
    decreases items.len(),
{
    if i > 0 {
        lemma_enc_list_holds(items.drop_first(), i - 1);
    }
}

proof fn lemma_array_of(a: [u8; 32])
    ensures
        array_of(a@) == a,
{
    let b = array_of(a@);
    assert(exists|x: [u8; 32]| x@ == a@);
    assert(b =~= a);
}

proof fn lemma_entry_record(e: StorageEntry)
    ensures
        entry_ok(entry_record(e)),
        entry_of(entry_record(e)) == e,
{
    lemma_parse_enc_list(seq![e.0@, e.1@]);
    lemma_array_of(e.0);
    lemma_array_of(e.1);
}

proof fn lemma_insert_all_sorted(s: Seq<StorageEntry>, i: int)
    requires
        sorted(s),
        0 <= i <= s.len(),
    ensures
        insert_all(s.subrange(0, i), s.map_values(|e: StorageEntry| entry_record(e)).subrange(i, s.len() as int)) == s,
    decreases s.len() - i,
{
    let recs = s.map_values(|e: StorageEntry| entry_record(e));
    if i == s.len() {
        assert(s.subrange(0, i) =~= s);
    } else {
        let rest = recs.subrange(i, s.len() as int);
        lemma_entry_record(s[i]);
        assert(rest[0] == entry_record(s[i]));
        assert(rest.drop_first() =~= recs.subrange(i + 1, s.len() as int));
        lemma_insert_last(s.subrange(0, i), s[i]);
        assert(s.subrange(0, i).push(s[i]) =~= s.subrange(0, i + 1));
        lemma_insert_all_sorted(s, i + 1);
    }
}

/// Reading back the record of an account whose storage is in key order gives the
/// account.
pub proof fn lemma_record_round_trip(a: AccountModel)
    requires
        sorted(a.storage),
        0 <= a.balance <= u128::MAX,
        0 <= a.counter <= u128::MAX,
        account_record(a).len() <= u64::MAX,
    ensures
        read_record(account_record(a)) == Ok::<AccountModel, DecodeError>(a),
{
    let recs = a.storage.map_values(|e: StorageEntry| entry_record(e));
    let l = enc_list(recs);
    let f = seq![be_bytes(a.balance as nat, 16), be_bytes(a.counter as nat, 16), l];
    lemma_amount_round_trip(a.balance as u128);
    lemma_amount_round_trip(a.counter as u128);
    lemma_enc_list_holds(f, 2);
    assert forall|i: int| 0 <= i < f.len() implies f[i].len() <= u64::MAX by {
        lemma_enc_list_holds(f, i);
    }
    lemma_parse_enc_list(f);
    assert forall|i: int| 0 <= i < recs.len() implies recs[i].len() <= u64::MAX by {
        lemma_enc_list_holds(recs, i);
    }
    lemma_parse_enc_list(recs);
    assert forall|i: int| 0 <= i < recs.len() implies entry_ok(recs[i]) by {
        lemma_entry_record(a.storage[i]);
    }
    lemma_insert_all_sorted(a.storage, 0);
    assert(a.storage.subrange(0, 0) =~= Seq::<StorageEntry>::empty());
    assert(recs.subrange(0, recs.len() as int) =~= recs);
}

/// The commitment to an account depends on its storage only through the entries
/// it holds, not on the order in which they were set.
pub proof fn lemma_account_hash_canonical(a1: AccountModel, a2: AccountModel)
    requires
        sorted(a1.storage),
        sorted(a2.storage),
        a1.balance == a2.balance,
        a1.counter == a2.counter,
        forall|e: StorageEntry| a1.storage.contains(e) <==> a2.storage.contains(e),
    ensures
        storage_root(a1.storage) == storage_root(a2.storage),
        account_root(a1) == account_root(a2),
{
    lemma_sorted_unique(a1.storage, a2.storage);
}

fn to_array(v: &Vec<u8>) -> (r: [u8; 32])
    requires
        v@.len() == 32,
    ensures
        r@ == v@,
        r == array_of(v@),
{
    let mut r: [u8; 32] = [0u8; 32];
    let mut i: usize = 0;
    while i < 32
        invariant
            i <= 32,
            v@.len() == 32,
            forall|j: int| 0 <= j < i ==> r@[j] == v@[j],
        decreases 32 - i,
    {
        r[i] = v[i];
        i = i + 1;
    }
    assert(r@ =~= v@);
    let ghost a = array_of(v@);
    assert(a =~= r);
    r
}

impl Account {
    /// A zeroed account with empty storage.
    pub fn new() -> (r: Account)
        ensures
            r@ == fresh_account(0),
    {
        Account { balance: 0, counter: 0, storage: Vec::new() }
    }

    /// A copy of this account whose balance is `balance`.
    pub fn with_balance(&self, balance: u128) -> (r: Account)
        ensures
            r@ == with_balance(self@, balance as int),
    {
        let mut storage: Vec<StorageEntry> = Vec::new();
        let mut i: usize = 0;
        while i < self.storage.len()
            invariant
                i <= self.storage@.len(),
                storage@ == self.storage@.subrange(0, i as int),
            decreases self.storage@.len() - i,
        {
            storage.push(self.storage[i]);
            i = i + 1;
            assert(storage@ =~= self.storage@.subrange(0, i as int));
        }
        assert(storage@ =~= self.storage@);
        Account { balance, counter: self.counter, storage }
    }

    /// Sets the storage value under `key`, keeping the storage in key order.
    pub fn set(&mut self, key: [u8; 32], value: [u8; 32])
        requires
            sorted(old(self).storage@),
        ensures
            final(self)@ == (AccountModel { storage: insert_entry(old(self)@.storage, (key, value)), ..old(self)@ }),
            sorted(final(self).storage@),
    {
        proof {
            lemma_insert_sorted(self.storage@, (key, value));
        }
        let ghost s = self.storage@;
        let ghost e: StorageEntry = (key, value);
        let mut out: Vec<StorageEntry> = Vec::new();
        let mut placed: bool = false;
        let mut i: usize = 0;
        let n = self.storage.len();
        assert(s.subrange(0, s.len() as int) =~= s);
        while i < n
            invariant
                n == s.len(),
                e == (key, value),
                i <= n,
                self.storage@ == s,
                insert_entry(s, e) == out@ + (if placed {
                    s.subrange(i as int, n as int)
                } else {
                    insert_entry(s.subrange(i as int, n as int), e)
                }),
            decreases n - i,
        {
            let x = self.storage[i];
            let ghost rest = s.subrange(i as int, n as int);
            assert(rest.drop_first() =~= s.subrange(i + 1, n as int));
            assert(rest[0] == x);
            assert(rest =~= seq![x] + rest.drop_first());
            let ghost before = out@;
            let ghost rd = rest.drop_first();
            if placed {
                out.push(x);
                assert(out@ + rd =~= before + rest);
            } else if key_equal(&x.0, &key) {
                assert(rest.len() > 0);
                assert(rest[0].0 == e.0);
                assert(insert_entry(rest, e) == seq![e] + rd);
                out.push((key, value));
                placed = true;
                assert(out@ + rd =~= before + insert_entry(rest, e));
            } else if key_less(&key, &x.0) {
                assert(rest.len() > 0);
                assert(rest[0].0 != e.0);
                assert(key_lt(e.0, rest[0].0));
                assert(insert_entry(rest, e) == seq![e] + rest);
                out.push((key, value));
                out.push(x);
                placed = true;
                assert(out@ + rd =~= before + insert_entry(rest, e));
            } else {
                assert(insert_entry(rest, e) == seq![x] + insert_entry(rd, e));
                out.push(x);
                assert(out@ + insert_entry(rd, e) =~= before + insert_entry(rest, e));
            }
            i = i + 1;
        }
        if !placed {
            out.push((key, value));
        }
        assert(s.subrange(n as int, n as int) =~= Seq::<StorageEntry>::empty());
        assert(insert_entry(s, e) =~= out@);
        self.storage = out;
    }

    /// The persisted record of this account.
    pub fn to_bytes(&self) -> (r: Vec<u8>)
        ensures
            r@ == account_record(self@),
    {
        let mut records: Vec<Vec<u8>> = Vec::new();
        let mut i: usize = 0;
        while i < self.storage.len()
            invariant
                i <= self.storage@.len(),
                views(records@) == self.storage@.subrange(0, i as int).map_values(|e: StorageEntry| entry_record(e)),
            decreases self.storage@.len() - i,
        {
            let pair = vec![array_bytes(&self.storage[i].0), array_bytes(&self.storage[i].1)];
            assert(views(pair@) =~= seq![self.storage@[i as int].0@, self.storage@[i as int].1@]);
            let rec = encode(&pair);
            let ghost prev = records@;
            records.push(rec);
            proof {
                let st = self.storage@;
                assert(views(records@) =~= views(prev).push(rec@));
                assert(st.subrange(0, i + 1).map_values(|e: StorageEntry| entry_record(e)) =~= st.subrange(0, i as int).map_values(|e: StorageEntry| entry_record(e)).push(entry_record(st[i as int])));
            }
            i = i + 1;
            assert(views(records@) =~= self.storage@.subrange(0, i as int).map_values(|e: StorageEntry| entry_record(e)));
        }
        assert(self.storage@.subrange(0, i as int) =~= self.storage@);
        let fields = vec![amount_to_bytes(self.balance), amount_to_bytes(self.counter), encode(&records)];
        let r = encode(&fields);
        assert(views(fields@) =~= seq![be_bytes(self.balance as nat, 16), be_bytes(self.counter as nat, 16),
            enc_list(self@.storage.map_values(|e: StorageEntry| entry_record(e)))]);
        r
    }

    /// Reads a persisted account record. Storage entries are inserted in the order
    /// held, so a later entry for a key replaces an earlier one.
    pub fn from_bytes(arg: &Vec<u8>) -> (r: Result<Account, DecodeError>)
        ensures
            r matches Ok(a) ==> read_record(arg@) == Ok::<AccountModel, DecodeError>(a@) && sorted(a.storage@),
            r matches Err(e) ==> read_record(arg@) == Err::<AccountModel, DecodeError>(e),
    {
        let fields = match decode(arg) {
            Some(f) => f,
            None => return Err(DecodeError::Account),
        };
        if fields.len() != 3 || fields[0].len() > 16 || fields[1].len() > 16 {
            return Err(DecodeError::Account);
        }
        proof {
            assert(views(fields@)[0] == fields@[0]@);
            assert(views(fields@)[1] == fields@[1]@);
            assert(views(fields@)[2] == fields@[2]@);
        }
        let ghost f = views(fields@);
        let records = match decode(&fields[2]) {
            Some(es) => es,
            None => return Err(DecodeError::KeyValue),
        };
        let ghost es = views(records@);
        let mut account = Account { balance: amount_from_bytes(&fields[0]), counter: amount_from_bytes(&fields[1]), storage: Vec::new() };
        let mut i: usize = 0;
        assert(es.subrange(0, es.len() as int) =~= es);
        while i < records.len()
            invariant
                i <= records@.len(),
                es == views(records@),
                f.len() == 3,
                record_fields(arg@) == Some(f),
                parse(f[2]) == Some(es),
                sorted(account.storage@),
                forall|j: int| 0 <= j < i ==> entry_ok(es[j]),
                insert_all(account.storage@, es.subrange(i as int, es.len() as int)) == insert_all(Seq::empty(), es),
                account@.balance == be_value(f[0]),
                account@.counter == be_value(f[1]),
            decreases records@.len() - i,
        {
            assert(es[i as int] == records@[i as int]@);
            let kv = match decode(&records[i]) {
                Some(kv) => kv,
                None => return Err(DecodeError::KeyValue),
            };
            if kv.len() != 2 || kv[0].len() != 32 || kv[1].len() != 32 {
                return Err(DecodeError::KeyValue);
            }
            assert(views(kv@)[0] == kv@[0]@);
            assert(views(kv@)[1] == kv@[1]@);
            let key = to_array(&kv[0]);
            let value = to_array(&kv[1]);
            proof {
                let rest = es.subrange(i as int, es.len() as int);
                assert(rest.drop_first() =~= es.subrange(i + 1, es.len() as int));
                assert(rest[0] == es[i as int]);
            }
            account.set(key, value);
            i = i + 1;
        }
        assert(es.subrange(i as int, es.len() as int) =~= Seq::<Seq<u8>>::empty());
        Ok(account)
    }

    /// The commitment to the storage: one leaf per entry, in ascending key order.
    pub fn storage_hash(&self) -> (r: [u8; 32])
        requires
            sorted(self.storage@),
        ensures
            r == storage_root(self@.storage),
    {
        let mut leaves: Vec<Vec<u8>> = Vec::new();
        let mut i: usize = 0;
        while i < self.storage.len()
            invariant
                i <= self.storage@.len(),
                views(leaves@) == self.storage@.subrange(0, i as int).map_values(|e: StorageEntry| entry_leaf(e)),
            decreases self.storage@.len() - i,
        {
            let leaf = merkle_pair(array_bytes(&self.storage[i].0), array_bytes(&self.storage[i].1));
            let lb = array_bytes(&leaf);
            let ghost prev = leaves@;
            leaves.push(lb);
            proof {
                let st = self.storage@;
                assert(views(leaves@) =~= views(prev).push(lb@));
                assert(st.subrange(0, i + 1).map_values(|e: StorageEntry| entry_leaf(e)) =~= st.subrange(0, i as int).map_values(|e: StorageEntry| entry_leaf(e)).push(entry_leaf(st[i as int])));
            }
            i = i + 1;
            assert(views(leaves@) =~= self.storage@.subrange(0, i as int).map_values(|e: StorageEntry| entry_leaf(e)));
        }
        assert(self.storage@.subrange(0, i as int) =~= self.storage@);
        merkle_root(&leaves)
    }

    /// The commitment to this account.
    pub fn hash(&self) -> (r: [u8; 32])
        requires
            sorted(self.storage@),
        ensures
            r == account_root(self@),
    {
        let storage = self.storage_hash();
        let leaves = vec![amount_to_bytes(self.balance), amount_to_bytes(self.counter), array_bytes(&storage)];
        assert(views(leaves@) =~= seq![be_bytes(self.balance as nat, 16), be_bytes(self.counter as nat, 16), storage@]);
        merkle_root(&leaves)
    }
}

} // verus!
