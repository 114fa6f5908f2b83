use vstd::prelude::*;
use crate::account::{account_root, lemma_insert_entries, lemma_insert_sorted, lemma_sorted_unique, fresh_account, insert_entry, sorted, with_balance, Account, AccountModel};
use crate::address::{key_equal, key_less, key_lt};
use crate::merkle::{array_bytes, merkle_pair, merkle_root, merkle_root_of, views};
use crate::receipt::{Receipt, Status};

verus! {

/// Solar charged for every transaction that is applied.
pub const BASE_TX_COST: u128 = 1000;

/// Solar charged for creating the recipient's account.
pub const ACCOUNT_CREATION_COST: u128 = 200000;

/// A transfer of `value` from `sender` to `recipient`, paying for solar.
#[derive(Clone, Copy, Debug)]
pub struct Transaction {
    pub sender: [u8; 32],
    pub recipient: [u8; 32],
    pub value: u128,
    pub counter: u128,
    pub solar_price: u128,
    pub solar_limit: u128,
}

/// The ledger: each address with its account.
#[derive(Clone, Debug)]
pub struct Accounts {
    pub accounts: Vec<([u8; 32], Account)>,
}

/// Entries of a ledger or of a delta, as mathematical values.
pub type Entries = Seq<([u8; 32], AccountModel)>;

pub open spec fn entries_of(v: Seq<([u8; 32], Account)>) -> Entries {
    v.map_values(|e: ([u8; 32], Account)| (e.0, e.1@))
}

impl View for Accounts {
    type V = Entries;

    open spec fn view(&self) -> Entries {
        entries_of(self.accounts@)
    }
}

/// The account held under `k`: the last entry with that key wins.
pub open spec fn lookup(s: Entries, k: [u8; 32]) -> Option<AccountModel>
    decreases s.len(),
{
    if s.len() == 0 {
        None
    } else if s.last().0 == k {
        Some(s.last().1)
    } else {
        lookup(s.drop_last(), k)
    }
}

/// What applying `tx` to the ledger `l` at the price floor `min_price` yields:
/// `None` where the transaction is rejected, else the changed entries and the receipt.
/// A sender that cannot pay the base fee is rejected, and so is a transfer whose
/// credit would take the recipient's balance past `u128::MAX`.
pub open spec fn transition(l: Entries, tx: Transaction, min_price: int) -> Option<(Entries, Receipt)> {
    let base_fee = BASE_TX_COST * min_price;
    let creation_fee = ACCOUNT_CREATION_COST * min_price;
    if tx.solar_price < min_price || tx.solar_limit < BASE_TX_COST || lookup(l, tx.sender) is None {
        None
    } else {
        let s = lookup(l, tx.sender)->0;
        if s.counter != tx.counter || tx.sender == tx.recipient || s.balance < base_fee {
            None
        } else {
            let bal = s.balance - base_fee;
            let base = BASE_TX_COST as u128;
            let both = (BASE_TX_COST + ACCOUNT_CREATION_COST) as u128;
            match lookup(l, tx.recipient) {
                Some(r) => if bal >= tx.value && r.balance + tx.value > u128::MAX {
                    None
                } else if bal >= tx.value {
                    Some((seq![(tx.sender, with_balance(s, bal - tx.value)),
                        (tx.recipient, with_balance(r, r.balance + tx.value))],
                        Receipt { solar_used: base, status: Status::Accepted }))
                } else {
                    Some((seq![(tx.sender, with_balance(s, bal))],
                        Receipt { solar_used: base, status: Status::BalanceError }))
                },
                None => if tx.solar_limit - BASE_TX_COST < ACCOUNT_CREATION_COST {
                    Some((seq![(tx.sender, with_balance(s, bal))],
                        Receipt { solar_used: base, status: Status::SolarError }))
                } else if bal < creation_fee {
                    Some((seq![(tx.sender, with_balance(s, bal))],
                        Receipt { solar_used: base, status: Status::BalanceError }))
                } else if bal - creation_fee >= tx.value {
                    Some((seq![(tx.sender, with_balance(s, bal - creation_fee - tx.value)),
                        (tx.recipient, fresh_account(tx.value as int))],
                        Receipt { solar_used: both, status: Status::Accepted }))
                } else {
                    Some((seq![(tx.sender, with_balance(s, bal - creation_fee))],
                        Receipt { solar_used: both, status: Status::BalanceError }))
                },
            }
        }
    }
}

/// The leaf that commits to one ledger entry: its address and its account's commitment.
pub open spec fn ledger_leaf(e: ([u8; 32], AccountModel)) -> Seq<u8> {
    merkle_root_of(seq![e.0@, account_root(e.1)@])@
}

/// A well-formed ledger: addresses in ascending order, and each account's
/// storage in ascending key order.
pub open spec fn ledger_wf(l: Entries) -> bool {
    sorted(l) && forall|i: int| 0 <= i < l.len() ==> sorted(#[trigger] l[i].1.storage)
}

/// The commitment to a ledger held in ascending address order (see `ledger_wf`).
pub open spec fn ledger_root(l: Entries) -> [u8; 32] {
    merkle_root_of(l.map_values(|e: ([u8; 32], AccountModel)| ledger_leaf(e)))
}

/// The commitment to a ledger does not depend on the order in which accounts
/// under two different addresses were inserted.
pub proof fn lemma_ledger_hash_order_free(l: Entries, e1: ([u8; 32], AccountModel), e2: ([u8; 32], AccountModel))
    requires
        sorted(l),
        e1.0 != e2.0,
    ensures
        ledger_root(insert_entry(insert_entry(l, e1), e2)) == ledger_root(insert_entry(insert_entry(l, e2), e1)),
{
    crate::account::lemma_insert_commutes(l, e1, e2);
}

/// The commitment to a ledger depends only on the entries it holds, not on the
/// order in which they were inserted.
pub proof fn lemma_ledger_hash_canonical(l1: Entries, l2: Entries)
    requires
        ledger_wf(l1),
        ledger_wf(l2),
        forall|e: ([u8; 32], AccountModel)| l1.contains(e) <==> l2.contains(e),
    ensures
        ledger_root(l1) == ledger_root(l2),
{
    lemma_sorted_unique(l1, l2);
}

/// Each address of a ledger with its account's commitment.
pub open spec fn commitments(l: Entries) -> Seq<([u8; 32], [u8; 32])> {
    l.map_values(|e: ([u8; 32], AccountModel)| (e.0, account_root(e.1)))
}

/// Some entry of `l` is under `k`.
pub open spec fn has_address(l: Entries, k: [u8; 32]) -> bool {
    exists|i: int| 0 <= i < l.len() && l[i].0 == k
}

/// The commitment to a ledger depends only on its addresses and on the
/// commitment to the account under each.
pub proof fn lemma_ledger_hash_by_account_hashes(l1: Entries, l2: Entries)
    requires
        ledger_wf(l1),
        ledger_wf(l2),
        forall|k: [u8; 32]| has_address(l1, k) <==> has_address(l2, k),
        forall|i: int, j: int| 0 <= i < l1.len() && 0 <= j < l2.len() && l1[i].0 == l2[j].0
            ==> account_root(l1[i].1) == account_root(l2[j].1),
    ensures
        ledger_root(l1) == ledger_root(l2),
{
    let p1 = commitments(l1);
    let p2 = commitments(l2);
    assert(sorted(p1));
    assert(sorted(p2));
    assert forall|x: ([u8; 32], [u8; 32])| p1.contains(x) <==> p2.contains(x) by {
        if p1.contains(x) {
            let i = choose|i: int| 0 <= i < p1.len() && p1[i] == x;
            assert(l1[i].0 == x.0);
            assert(has_address(l1, x.0));
            let j = choose|j: int| 0 <= j < l2.len() && l2[j].0 == x.0;
            assert(p2[j] == x);
        }
        if p2.contains(x) {
            let j = choose|j: int| 0 <= j < p2.len() && p2[j] == x;
            assert(l2[j].0 == x.0);
            assert(has_address(l2, x.0));
            let i = choose|i: int| 0 <= i < l1.len() && l1[i].0 == x.0;
            assert(p1[i] == x);
        }
    }
    lemma_sorted_unique(p1, p2);
    let leaf = |x: ([u8; 32], [u8; 32])| merkle_root_of(seq![x.0@, x.1@])@;
    assert(l1.map_values(|e: ([u8; 32], AccountModel)| ledger_leaf(e)) =~= p1.map_values(leaf));
    assert(l2.map_values(|e: ([u8; 32], AccountModel)| ledger_leaf(e)) =~= p2.map_values(leaf));
}

/// The changed entries of an outcome (none where it is a rejection).
pub open spec fn changed(o: Option<(Entries, Receipt)>) -> Entries {
    match o {
        Some(p) => p.0,
        None => Seq::empty(),
    }
}

/// Applying a transaction is a function of its inputs: equal ledgers, equal
/// transactions and equal price floors give equal outcomes.
pub proof fn lemma_transition_deterministic(l1: Entries, l2: Entries, t1: Transaction, t2: Transaction, p1: int, p2: int)
    requires
        l1 == l2,
        t1 == t2,
        p1 == p2,
    ensures
        transition(l1, t1, p1) == transition(l2, t2, p2),
{
}

/// A transfer from an address to itself is rejected, whatever the balances and nonces.
pub proof fn lemma_self_transfer_rejected(l: Entries, tx: Transaction, min_price: int)
    requires
        tx.sender == tx.recipient,
    ensures
        transition(l, tx, min_price) is None,
{
}

/// A nonce that differs from the sender's counter, a gas price below the floor,
/// or a gas limit below the base cost gets the transaction rejected.
pub proof fn lemma_invalid_transaction_rejected(l: Entries, tx: Transaction, min_price: int)
    requires
        (lookup(l, tx.sender) matches Some(s) && s.counter != tx.counter)
            || tx.solar_price < min_price || tx.solar_limit < BASE_TX_COST,
    ensures
        transition(l, tx, min_price) is None,
{
}

/// A transaction whose sender has no account is rejected.
pub proof fn lemma_missing_sender_rejected(l: Entries, tx: Transaction, min_price: int)
    requires
        lookup(l, tx.sender) is None,
    ensures
        transition(l, tx, min_price) is None,
{
}

impl Accounts {
    /// An empty ledger.
    pub fn new() -> (r: Accounts)
        ensures
            r@ == Seq::<([u8; 32], AccountModel)>::empty(),
    {
        let r = Accounts { accounts: Vec::new() };
        assert(r@ =~= Seq::<([u8; 32], AccountModel)>::empty());
        r
    }

    /// The index of the entry that `lookup` reads for `k`.
    fn find(&self, k: &[u8; 32]) -> (r: Option<usize>)
        ensures
            r matches Some(i) ==> i < self.accounts@.len() && lookup(self@, *k) == Some(
                self.accounts@[i as int].1@),
            r is None ==> lookup(self@, *k) is None,
    {
        let mut i: usize = self.accounts.len();
        assert(self@.subrange(0, i as int) =~= self@);
        while i > 0
            invariant
                i <= self.accounts@.len(),
                lookup(self@, *k) == lookup(self@.subrange(0, i as int), *k),
            decreases i,
        {
            let ghost sub = self@.subrange(0, i as int);
            assert(sub.drop_last() =~= self@.subrange(0, i - 1));
            if crate::address::key_equal(&self.accounts[i - 1].0, k) {
                return Some(i - 1);
            }
            i = i - 1;
        }
        None
    }

    /// Applies `transaction` to this ledger at the price floor `solar_price`,
    /// without changing the ledger. Returns `None` where the transaction is
    /// rejected; otherwise the accounts that changed and the receipt. The sender's
    /// counter is left as it is.
    pub fn apply_transaction(&self, transaction: &Transaction, solar_price: u128) -> (r: Option<(Vec<([u8; 32], Account)>, Receipt)>)
        ensures
            r matches Some(o) ==> transition(self@, *transaction, solar_price as int) == Some((entries_of(o.0@), o.1)),
            r is None ==> transition(self@, *transaction, solar_price as int) is None,
    {
        let tx = *transaction;
        if tx.solar_price < solar_price || tx.solar_limit < BASE_TX_COST {
            return None;
        }
        let si = match self.find(&tx.sender) {
            Some(i) => i,
            None => return None,
        };
        let s = &self.accounts[si].1;
        if s.counter != tx.counter || crate::address::key_equal(&tx.sender, &tx.recipient) {
            return None;
        }
        let base_fee = match BASE_TX_COST.checked_mul(solar_price) {
            Some(f) => f,
            None => return None,
        };
        if s.balance < base_fee {
            return None;
        }
        let bal = s.balance - base_fee;
        match self.find(&tx.recipient) {
            Some(ri) => {
                let rc = &self.accounts[ri].1;
                let receipt_base: u128 = BASE_TX_COST;
                if bal >= tx.value {
                    let credited = match rc.balance.checked_add(tx.value) {
                        Some(c) => c,
                        None => return None,
                    };
                    let left = bal - tx.value;
                    let delta = vec![(tx.sender, s.with_balance(left)),
                        (tx.recipient, rc.with_balance(credited))];
                    let r = (delta, Receipt { solar_used: receipt_base, status: Status::Accepted });
                    assert(entries_of(r.0@) =~= changed(transition(self@, tx, solar_price as int)));
                    Some(r)
                } else {
                    let delta = vec![(tx.sender, s.with_balance(bal))];
                    let r = (delta, Receipt { solar_used: receipt_base, status: Status::BalanceError });
                    assert(entries_of(r.0@) =~= changed(transition(self@, tx, solar_price as int)));
                    Some(r)
                }
            },
            None => {
                if tx.solar_limit - BASE_TX_COST < ACCOUNT_CREATION_COST {
                    let delta = vec![(tx.sender, s.with_balance(bal))];
                    let r = (delta, Receipt { solar_used: BASE_TX_COST, status: Status::SolarError });
                    assert(entries_of(r.0@) =~= changed(transition(self@, tx, solar_price as int)));
                    return Some(r);
                }
                let creation_fee = match ACCOUNT_CREATION_COST.checked_mul(solar_price) {
                    Some(f) => f,
                    None => u128::MAX,
                };
                let used: u128 = BASE_TX_COST + ACCOUNT_CREATION_COST;
                if ACCOUNT_CREATION_COST.checked_mul(solar_price).is_none() || bal < creation_fee {
                    let delta = vec![(tx.sender, s.with_balance(bal))];
                    let r = (delta, Receipt { solar_used: BASE_TX_COST, status: Status::BalanceError });
                    assert(entries_of(r.0@) =~= changed(transition(self@, tx, solar_price as int)));
                    return Some(r);
                }
                let rest = bal - creation_fee;
                if rest >= tx.value {
                    let mut fresh = Account::new();
                    fresh.balance = tx.value;
                    let left = rest - tx.value;
                    let delta = vec![(tx.sender, s.with_balance(left)), (tx.recipient, fresh)];
                    let r = (delta, Receipt { solar_used: used, status: Status::Accepted });
                    assert(entries_of(r.0@) =~= changed(transition(self@, tx, solar_price as int)));
                    Some(r)
                } else {
                    let delta = vec![(tx.sender, s.with_balance(rest))];
                    let r = (delta, Receipt { solar_used: used, status: Status::BalanceError });
                    assert(entries_of(r.0@) =~= changed(transition(self@, tx, solar_price as int)));
                    Some(r)
                }
            },
        }
    }

    /// Puts `account` under `address`, keeping the entries in address order; an
    /// account already there is replaced.
    pub fn insert(&mut self, address: [u8; 32], account: Account)
        requires
            ledger_wf(old(self)@),
            sorted(account.storage@),
        ensures
            final(self)@ == insert_entry(old(self)@, (address, account@)),
            ledger_wf(final(self)@),
    {
        proof {
            let l = self@;
            let e = (address, account@);
            lemma_insert_sorted(l, e);
            lemma_insert_entries(l, e);
            let r = insert_entry(l, e);
            assert forall|i: int| 0 <= i < r.len() implies sorted(#[trigger] r[i].1.storage) by {
                if r[i] != e {
                    let m = choose|m: int| 0 <= m < l.len() && l[m] == r[i];
                }
            }
        }
        let ghost s = self@;
        let ghost e = (address, account@);
        let mut out: Vec<([u8; 32], Account)> = Vec::new();
        let mut pending: Option<Account> = Some(account);
        let mut i: usize = 0;
        let n = self.accounts.len();
        assert(s.subrange(0, s.len() as int) =~= s);
        while i < n
            invariant
                n == s.len(),
                s == self@,
                e.0 == address,
                i <= n,
                pending matches Some(a) ==> a@ == e.1,
                insert_entry(s, e) == entries_of(out@) + (if pending is None {
                    s.subrange(i as int, n as int)
                } else {
                    insert_entry(s.subrange(i as int, n as int), e)
                }),
            decreases n - i,
        {
            let xk = self.accounts[i].0;
            let xa = self.accounts[i].1.with_balance(self.accounts[i].1.balance);
            let ghost rest = s.subrange(i as int, n as int);
            let ghost rd = rest.drop_first();
            let ghost before = entries_of(out@);
            assert(rd =~= s.subrange(i + 1, n as int));
            assert(rest[0] == (xk, xa@));
            assert(rest =~= seq![(xk, xa@)] + rd);
            match pending {
                None => {
                    out.push((xk, xa));
                    assert(entries_of(out@) =~= before.push((xk, xa@)));
                    assert(entries_of(out@) + rd =~= before + rest);
                },
                Some(a) => {
                    if key_equal(&xk, &address) {
                        assert(insert_entry(rest, e) == seq![e] + rd);
                        out.push((address, a));
                        pending = None;
                        assert(entries_of(out@) =~= before.push(e));
                        assert(entries_of(out@) + rd =~= before + insert_entry(rest, e));
                    } else if key_less(&address, &xk) {
                        assert(insert_entry(rest, e) == seq![e] + rest);
                        out.push((address, a));
                        out.push((xk, xa));
                        pending = None;
                        assert(entries_of(out@) =~= before.push(e).push((xk, xa@)));
                        assert(entries_of(out@) + rd =~= before + insert_entry(rest, e));
                    } else {
                        assert(insert_entry(rest, e) == seq![(xk, xa@)] + insert_entry(rd, e));
                        out.push((xk, xa));
                        pending = Some(a);
                        assert(entries_of(out@) =~= before.push((xk, xa@)));
                        assert(entries_of(out@) + insert_entry(rd, e) =~= before + insert_entry(rest, e));
                    }
                },
            }
            i = i + 1;
        }
        assert(s.subrange(n as int, n as int) =~= Seq::<([u8; 32], AccountModel)>::empty());
        match pending {
            Some(a) => {
                let ghost before = entries_of(out@);
                out.push((address, a));
                assert(entries_of(out@) =~= before.push(e));
                assert(insert_entry(Seq::<([u8; 32], AccountModel)>::empty(), e) == seq![e]);
            },
            None => {},
        }
        assert(insert_entry(s, e) =~= entries_of(out@));
        self.accounts = out;
    }

    /// The commitment to the whole ledger: one leaf per entry, in ascending
    /// address order.
    pub fn hash(&self) -> (r: [u8; 32])
        requires
            ledger_wf(self@),
        ensures
            r == ledger_root(self@),
    {
        let mut leaves: Vec<Vec<u8>> = Vec::new();
        let mut i: usize = 0;
        while i < self.accounts.len()
            invariant
                i <= self@.len(),
                self@.len() == self.accounts@.len(),
                ledger_wf(self@),
                views(leaves@) == self@.subrange(0, i as int).map_values(|e: ([u8; 32], AccountModel)| ledger_leaf(e)),
            decreases self@.len() - i,
        {
            assert(self@[i as int].1.storage == self.accounts@[i as int].1.storage@);
            assert(sorted(self@[i as int].1.storage));
            let h = self.accounts[i].1.hash();
            let leaf = merkle_pair(array_bytes(&self.accounts[i].0), array_bytes(&h));
            let lb = array_bytes(&leaf);
            let ghost prev = leaves@;
            leaves.push(lb);
            proof {
                let st = self@;
                assert(st[i as int] == (self.accounts@[i as int].0, self.accounts@[i as int].1@));
                assert(views(leaves@) =~= views(prev).push(lb@));
                assert(st.subrange(0, i + 1).map_values(|e: ([u8; 32], AccountModel)| ledger_leaf(e)) =~= st.subrange(0, i as int).map_values(|e: ([u8; 32], AccountModel)| ledger_leaf(e)).push(ledger_leaf(st[i as int])));
            }
            i = i + 1;
        }
        assert(self@.subrange(0, i as int) =~= self@);
        merkle_root(&leaves)
    }
}

} // verus!
