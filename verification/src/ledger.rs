//! The ledger: balances per (account, asset) pair, and the atomic four-leg
//! settlement of a fill.
//!
//! A settlement moves `execution_price * execution_quantity` quote units
//! from the buyer to the seller and `execution_quantity` base units from the
//! seller to the buyer, as one unit: either all four legs apply, or the
//! ledger's balances are left exactly as they were.

use vstd::prelude::*;

verus! {

use crate::errors::CLOBError;

/// One balance: how much of `asset` the party `account` holds.
#[derive(Clone, Copy, PartialEq, Eq, Structural, Debug)]
pub struct LedgerEntry {
    pub account: u64,
    pub asset: u64,
    pub balance: u64,
}

/// Whether an entry carries the balance of `(account, asset)`.
pub open spec fn entry_matches(e: LedgerEntry, account: u64, asset: u64) -> bool {
    e.account == account && e.asset == asset
}

/// The balance of `(account, asset)` recorded in `s`: the first matching
/// entry's balance, or zero when none exists.
pub open spec fn bal_in(s: Seq<LedgerEntry>, account: u64, asset: u64) -> u64
    decreases s.len(),
{
    if s.len() == 0 {
        0u64
    } else if entry_matches(s[0], account, asset) {
        s[0].balance
    } else {
        bal_in(s.drop_first(), account, asset)
    }
}

/// Whether some entry of `s` carries the balance of `(account, asset)`.
pub open spec fn has_key(s: Seq<LedgerEntry>, account: u64, asset: u64) -> bool {
    exists|j: int| 0 <= j < s.len() && entry_matches(#[trigger] s[j], account, asset)
}

proof fn lemma_bal_no_match(s: Seq<LedgerEntry>, account: u64, asset: u64)
    requires
        !has_key(s, account, asset),
    ensures
        bal_in(s, account, asset) == 0,
    decreases s.len(),
{
    if s.len() > 0 {
        assert(!entry_matches(s[0], account, asset));
        assert(forall|j: int|
            0 <= j < s.drop_first().len() ==> s.drop_first()[j] == s[j + 1]);
        lemma_bal_no_match(s.drop_first(), account, asset);
    }
}

proof fn lemma_bal_first_match(s: Seq<LedgerEntry>, account: u64, asset: u64, i: int)
    requires
        0 <= i < s.len(),
        entry_matches(s[i], account, asset),
        forall|j: int| 0 <= j < i ==> !entry_matches(#[trigger] s[j], account, asset),
    ensures
        bal_in(s, account, asset) == s[i].balance,
    decreases i,
{
    if i > 0 {
        assert(forall|j: int|
            0 <= j < s.drop_first().len() ==> s.drop_first()[j] == s[j + 1]);
        lemma_bal_first_match(s.drop_first(), account, asset, i - 1);
    }
}

proof fn lemma_bal_update(s: Seq<LedgerEntry>, i: int, e: LedgerEntry, account: u64, asset: u64)
    requires
        0 <= i < s.len(),
        e.account == s[i].account,
        e.asset == s[i].asset,
        forall|j: int| 0 <= j < i ==> !entry_matches(#[trigger] s[j], e.account, e.asset),
    ensures
        bal_in(s.update(i, e), account, asset) == if entry_matches(s[i], account, asset) {
            e.balance
        } else {
            bal_in(s, account, asset)
        },
    decreases i,
{
    let s2 = s.update(i, e);
    if i == 0 {
        if !entry_matches(s[0], account, asset) {
            assert(s2.drop_first() =~= s.drop_first());
        } else {
            assert(entry_matches(s2[0], account, asset));
        }
    } else {
        assert(s2[0] == s[0]);
        if entry_matches(s[0], account, asset) {
            assert(bal_in(s2, account, asset) == s2[0].balance);
        } else {
            assert(s2.drop_first() =~= s.drop_first().update(i - 1, e));
            assert(forall|j: int|
                0 <= j < s.drop_first().len() ==> s.drop_first()[j] == s[j + 1]);
            lemma_bal_update(s.drop_first(), i - 1, e, account, asset);
        }
    }
}

proof fn lemma_bal_push(s: Seq<LedgerEntry>, e: LedgerEntry, account: u64, asset: u64)
    ensures
        bal_in(s.push(e), account, asset) == if !has_key(s, account, asset)
            && entry_matches(e, account, asset) {
            e.balance
        } else {
            bal_in(s, account, asset)
        },
    decreases s.len(),
{
    if s.len() == 0 {
        assert(s.push(e)[0] == e);
        assert(s.push(e).drop_first() =~= Seq::<LedgerEntry>::empty());
        assert(bal_in(Seq::<LedgerEntry>::empty(), account, asset) == 0);
        if entry_matches(e, account, asset) {
            assert(bal_in(s.push(e), account, asset) == e.balance);
        } else {
            assert(bal_in(s.push(e), account, asset) == 0);
            assert(bal_in(s, account, asset) == 0);
        }
    } else {
        assert(s.push(e)[0] == s[0]);
        if entry_matches(s[0], account, asset) {
            assert(has_key(s, account, asset));
            assert(bal_in(s.push(e), account, asset) == s[0].balance);
        } else {
            assert(s.push(e).drop_first() =~= s.drop_first().push(e));
            lemma_bal_push(s.drop_first(), e, account, asset);
            if has_key(s.drop_first(), account, asset) {
                let j = choose|j: int|
                    0 <= j < s.drop_first().len() && entry_matches(
                        s.drop_first()[j],
                        account,
                        asset,
                    );
                assert(s.drop_first()[j] == s[j + 1]);
                assert(has_key(s, account, asset));
            }
            if has_key(s, account, asset) {
                let j = choose|j: int|
                    0 <= j < s.len() && entry_matches(s[j], account, asset);
                assert(j != 0);
                assert(s.drop_first()[j - 1] == s[j]);
                assert(has_key(s.drop_first(), account, asset));
            }
        }
    }
}

/// Indexing the total balances map agrees with the single-pair balance.
pub proof fn lemma_balances_index(l: Ledger, account: u64, asset: u64)
    ensures
        l.balances()[(account, asset)] == l.balance(account, asset),
{
}

/// The ledger of all balances. An absent pair holds a zero balance.
pub struct Ledger {
    pub entries: Vec<LedgerEntry>,
}

/// Whether the four sequential legs of a settlement all succeed when
/// started from the balances `m`: the buyer holds the quote amount, the
/// seller holds the base amount, and neither credit overflows.
pub open spec fn settle_ok(
    m: Map<(u64, u64), u64>,
    buyer: u64,
    seller: u64,
    base_asset: u64,
    quote_asset: u64,
    quote_amount: u64,
    base_amount: u64,
) -> bool {
    let m1 = m.insert((buyer, quote_asset), (m[(buyer, quote_asset)] - quote_amount) as u64);
    let m2 = m1.insert(
        (seller, quote_asset),
        (m1[(seller, quote_asset)] + quote_amount) as u64,
    );
    let m3 = m2.insert((seller, base_asset), (m2[(seller, base_asset)] - base_amount) as u64);
    &&& m[(buyer, quote_asset)] >= quote_amount
    &&& m1[(seller, quote_asset)] + quote_amount <= u64::MAX
    &&& m2[(seller, base_asset)] >= base_amount
    &&& m3[(buyer, base_asset)] + base_amount <= u64::MAX
}

/// The balances after a successful settlement started from `m`: quote moves
/// from buyer to seller, base moves from seller to buyer, leg by leg.
pub open spec fn settle_map(
    m: Map<(u64, u64), u64>,
    buyer: u64,
    seller: u64,
    base_asset: u64,
    quote_asset: u64,
    quote_amount: u64,
    base_amount: u64,
) -> Map<(u64, u64), u64> {
    let m1 = m.insert((buyer, quote_asset), (m[(buyer, quote_asset)] - quote_amount) as u64);
    let m2 = m1.insert(
        (seller, quote_asset),
        (m1[(seller, quote_asset)] + quote_amount) as u64,
    );
    let m3 = m2.insert((seller, base_asset), (m2[(seller, base_asset)] - base_amount) as u64);
    m3.insert((buyer, base_asset), (m3[(buyer, base_asset)] + base_amount) as u64)
}

impl Ledger {
    /// The balance of `(account, asset)`, zero when the pair is absent.
    pub open spec fn balance(self, account: u64, asset: u64) -> u64 {
        bal_in(self.entries@, account, asset)
    }

    /// All balances at once, as a total map from (account, asset) pairs.
    pub open spec fn balances(self) -> Map<(u64, u64), u64> {
        Map::total(|k: (u64, u64)| bal_in(self.entries@, k.0, k.1))
    }

    /// An empty ledger: every balance is zero.
    pub fn new() -> (r: Ledger)
        ensures
            forall|a: u64, t: u64| r.balance(a, t) == 0,
    {
        let r = Ledger { entries: Vec::new() };
        proof {
            assert forall|a: u64, t: u64| r.balance(a, t) == 0 by {
                lemma_bal_no_match(r.entries@, a, t);
            }
        }
        r
    }

    /// The index of the first entry for `(account, asset)`, if any.
    fn find_index(&self, account: u64, asset: u64) -> (r: Option<usize>)
        ensures
            match r {
                Some(i) => i < self.entries@.len()
                    && entry_matches(self.entries@[i as int], account, asset)
                    && forall|j: int|
                        0 <= j < i ==> !entry_matches(#[trigger] self.entries@[j], account, asset),
                None => !has_key(self.entries@, account, asset),
            },
    {
        let mut i: usize = 0;
        while i < self.entries.len()
            invariant
                i <= self.entries@.len(),
                forall|j: int|
                    0 <= j < i ==> !entry_matches(#[trigger] self.entries@[j], account, asset),
            decreases self.entries@.len() - i,
        {
            let e = self.entries[i];
            if e.account == account && e.asset == asset {
                return Some(i);
            }
            i = i + 1;
        }
        None
    }

    /// The balance of `(account, asset)`.
    pub fn balance_of(&self, account: u64, asset: u64) -> (r: u64)
        ensures
            r == self.balance(account, asset),
    {
        match self.find_index(account, asset) {
            Some(i) => {
                proof {
                    lemma_bal_first_match(self.entries@, account, asset, i as int);
                }
                self.entries[i].balance
            },
            None => {
                proof {
                    lemma_bal_no_match(self.entries@, account, asset);
                }
                0
            },
        }
    }

    /// Adds `amount` to the balance of `(account, asset)`; fails with
    /// `Overflow`, changing nothing, when the sum would not fit.
    pub fn credit(&mut self, account: u64, asset: u64, amount: u64) -> (r: Result<
        (),
        CLOBError,
    >)
        ensures
            r is Ok <==> old(self).balance(account, asset) + amount <= u64::MAX,
            r is Ok ==> final(self).balances() == old(self).balances().insert(
                (account, asset),
                (old(self).balance(account, asset) + amount) as u64,
            ),
            r is Err ==> *final(self) == *old(self) && r == Err::<(), CLOBError>(
                CLOBError::Overflow,
            ),
    {
        let ghost m0 = self.balances();
        match self.find_index(account, asset) {
            Some(i) => {
                let e = self.entries[i];
                proof {
                    lemma_bal_first_match(self.entries@, account, asset, i as int);
                }
                if amount > u64::MAX - e.balance {
                    return Err(CLOBError::Overflow);
                }
                let ne = LedgerEntry { balance: e.balance + amount, ..e };
                let ghost s0 = self.entries@;
                self.entries.set(i, ne);
                proof {
                    let target = m0.insert((account, asset), ne.balance);
                    assert forall|k: (u64, u64)| #[trigger] self.balances()[k] == target[k] by {
                        lemma_bal_update(s0, i as int, ne, k.0, k.1);
                    }
                    assert(self.balances() =~= target);
                }
                Ok(())
            },
            None => {
                proof {
                    lemma_bal_no_match(self.entries@, account, asset);
                }
                let ne = LedgerEntry { account, asset, balance: amount };
                let ghost s0 = self.entries@;
                self.entries.push(ne);
                proof {
                    let target = m0.insert((account, asset), ne.balance);
                    assert forall|k: (u64, u64)| #[trigger] self.balances()[k] == target[k] by {
                        lemma_bal_push(s0, ne, k.0, k.1);
                        if k == (account, asset) {
                            lemma_bal_no_match(s0, account, asset);
                        }
                    }
                    assert(self.balances() =~= target);
                }
                Ok(())
            },
        }
    }

    /// Removes `amount` from the balance of `(account, asset)`; fails with
    /// `InsufficientFunds`, changing nothing, when the balance is smaller.
    pub fn debit(&mut self, account: u64, asset: u64, amount: u64) -> (r: Result<
        (),
        CLOBError,
    >)
        ensures
            r is Ok <==> old(self).balance(account, asset) >= amount,
            r is Ok ==> final(self).balances() == old(self).balances().insert(
                (account, asset),
                (old(self).balance(account, asset) - amount) as u64,
            ),
            r is Err ==> *final(self) == *old(self) && r == Err::<(), CLOBError>(
                CLOBError::InsufficientFunds,
            ),
    {
        let ghost m0 = self.balances();
        match self.find_index(account, asset) {
            Some(i) => {
                let e = self.entries[i];
                proof {
                    lemma_bal_first_match(self.entries@, account, asset, i as int);
                }
                if amount > e.balance {
                    return Err(CLOBError::InsufficientFunds);
                }
                let ne = LedgerEntry { balance: e.balance - amount, ..e };
                let ghost s0 = self.entries@;
                self.entries.set(i, ne);
                proof {
                    let target = m0.insert((account, asset), ne.balance);
                    assert forall|k: (u64, u64)| #[trigger] self.balances()[k] == target[k] by {
                        lemma_bal_update(s0, i as int, ne, k.0, k.1);
                    }
                    assert(self.balances() =~= target);
                }
                Ok(())
            },
            None => {
                proof {
                    lemma_bal_no_match(self.entries@, account, asset);
                }
                if amount == 0 {
                    Ok(())
                } else {
                    Err(CLOBError::InsufficientFunds)
                }
            },
        }
    }

    /// Settles one fill as an atomic four-leg transfer: the buyer pays
    /// `execution_price * execution_quantity` quote units to the seller and
    /// receives `execution_quantity` base units from the seller. When any
    /// leg fails, the already-applied legs are reversed and the balances end
    /// exactly where they started.
    pub fn settle_fill(
        &mut self,
        buyer: u64,
        seller: u64,
        base_asset: u64,
        quote_asset: u64,
        execution_price: u64,
        execution_quantity: u64,
    ) -> (r: Result<(), CLOBError>)
        requires
            execution_price * execution_quantity <= u64::MAX,
        ensures
            r is Ok <==> settle_ok(
                old(self).balances(),
                buyer,
                seller,
                base_asset,
                quote_asset,
                (execution_price * execution_quantity) as u64,
                execution_quantity,
            ),
            r is Ok ==> final(self).balances() == settle_map(
                old(self).balances(),
                buyer,
                seller,
                base_asset,
                quote_asset,
                (execution_price * execution_quantity) as u64,
                execution_quantity,
            ),
            r is Err ==> r == Err::<(), CLOBError>(CLOBError::SettlementFailed) && forall|
                a: u64,
                t: u64,
            | final(self).balance(a, t) == old(self).balance(a, t),
    {
        let quote_amount: u64 = execution_price * execution_quantity;
        let ghost m0 = self.balances();
        let ghost k_bq = (buyer, quote_asset);
        let ghost k_sq = (seller, quote_asset);
        let ghost k_sb = (seller, base_asset);
        let ghost k_bb = (buyer, base_asset);
        proof {
            lemma_balances_index(*self, buyer, quote_asset);
        }
        if self.debit(buyer, quote_asset, quote_amount).is_err() {
            return Err(CLOBError::SettlementFailed);
        }
        let ghost m1 = m0.insert(k_bq, (m0[k_bq] - quote_amount) as u64);
        let ghost l1 = *self;
        proof {
            assert(l1.balances() == m1);
            lemma_balances_index(l1, seller, quote_asset);
        }
        if self.credit(seller, quote_asset, quote_amount).is_err() {
            let ghost lu = *self;
            proof {
                lemma_balances_index(lu, buyer, quote_asset);
            }
            let undo1 = self.credit(buyer, quote_asset, quote_amount);
            assert(undo1.is_ok());
            proof {
                assert forall|a: u64, t: u64|
                    self.balance(a, t) == old(self).balance(a, t) by {
                    lemma_balances_index(*self, a, t);
                    lemma_balances_index(*old(self), a, t);
                }
            }
            return Err(CLOBError::SettlementFailed);
        }
        let ghost m2 = m1.insert(k_sq, (m1[k_sq] + quote_amount) as u64);
        let ghost l2 = *self;
        proof {
            assert(l2.balances() == m2);
            lemma_balances_index(l2, seller, base_asset);
        }
        if self.debit(seller, base_asset, execution_quantity).is_err() {
            let ghost lu2 = *self;
            proof {
                lemma_balances_index(lu2, seller, quote_asset);
            }
            let undo2 = self.debit(seller, quote_asset, quote_amount);
            assert(undo2.is_ok());
            let ghost lu1 = *self;
            proof {
                lemma_balances_index(lu1, buyer, quote_asset);
            }
            let undo1 = self.credit(buyer, quote_asset, quote_amount);
            assert(undo1.is_ok());
            proof {
                assert forall|a: u64, t: u64|
                    self.balance(a, t) == old(self).balance(a, t) by {
                    lemma_balances_index(*self, a, t);
                    lemma_balances_index(*old(self), a, t);
                }
            }
            return Err(CLOBError::SettlementFailed);
        }
        let ghost m3 = m2.insert(k_sb, (m2[k_sb] - execution_quantity) as u64);
        let ghost l3 = *self;
        proof {
            assert(l3.balances() == m3);
            lemma_balances_index(l3, buyer, base_asset);
        }
        if self.credit(buyer, base_asset, execution_quantity).is_err() {
            let ghost lu3 = *self;
            proof {
                lemma_balances_index(lu3, seller, base_asset);
            }
            let undo3 = self.credit(seller, base_asset, execution_quantity);
            assert(undo3.is_ok());
            let ghost lu2 = *self;
            proof {
                lemma_balances_index(lu2, seller, quote_asset);
            }
            let undo2 = self.debit(seller, quote_asset, quote_amount);
            assert(undo2.is_ok());
            let ghost lu1 = *self;
            proof {
                lemma_balances_index(lu1, buyer, quote_asset);
            }
            let undo1 = self.credit(buyer, quote_asset, quote_amount);
            assert(undo1.is_ok());
            proof {
                assert forall|a: u64, t: u64|
                    self.balance(a, t) == old(self).balance(a, t) by {
                    lemma_balances_index(*self, a, t);
                    lemma_balances_index(*old(self), a, t);
                }
            }
            return Err(CLOBError::SettlementFailed);
        }
        proof {
            assert(self.balances() == m3.insert(k_bb, (m3[k_bb] + execution_quantity) as u64));
        }
        Ok(())
    }
}

/// Law: a committed settlement is balanced. For distinct parties and
/// distinct assets, the buyer's quote balance falls by exactly
/// `execution_price * execution_quantity` while the seller's rises by the
/// same amount, the seller's base balance falls by exactly
/// `execution_quantity` while the buyer's rises by the same amount — a
/// zero-sum move on each asset — and no other balance changes.
pub proof fn lemma_settlement_balanced(
    m: Map<(u64, u64), u64>,
    buyer: u64,
    seller: u64,
    base_asset: u64,
    quote_asset: u64,
    execution_price: u64,
    execution_quantity: u64,
)
    requires
        buyer != seller,
        base_asset != quote_asset,
        execution_price * execution_quantity <= u64::MAX,
        settle_ok(
            m,
            buyer,
            seller,
            base_asset,
            quote_asset,
            (execution_price * execution_quantity) as u64,
            execution_quantity,
        ),
    ensures
        ({
            let m4 = settle_map(
                m,
                buyer,
                seller,
                base_asset,
                quote_asset,
                (execution_price * execution_quantity) as u64,
                execution_quantity,
            );
            &&& m4[(buyer, quote_asset)] == m[(buyer, quote_asset)] - execution_price
                * execution_quantity
            &&& m4[(seller, quote_asset)] == m[(seller, quote_asset)] + execution_price
                * execution_quantity
            &&& m4[(seller, base_asset)] == m[(seller, base_asset)] - execution_quantity
            &&& m4[(buyer, base_asset)] == m[(buyer, base_asset)] + execution_quantity
            &&& m4[(buyer, quote_asset)] + m4[(seller, quote_asset)] == m[(buyer, quote_asset)]
                + m[(seller, quote_asset)]
            &&& m4[(seller, base_asset)] + m4[(buyer, base_asset)] == m[(seller, base_asset)]
                + m[(buyer, base_asset)]
            &&& forall|k: (u64, u64)|
                k != (buyer, quote_asset) && k != (seller, quote_asset) && k != (
                    seller,
                    base_asset,
                ) && k != (buyer, base_asset) ==> m4[k] == m[k]
        }),
{
}

} // verus!
