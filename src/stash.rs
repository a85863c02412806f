use vstd::prelude::*;

use crate::error::StashError;

verus! {

/// One asset's balance inside a stash.
pub struct Vault {
    pub asset: String,
    pub balance: u128,
}

/// A named collection of vaults, owned by the account that created it.
pub struct Stash {
    id: u64,
    name: String,
    owner: String,
    vaults: Vec<Vault>,
    contributors: Vec<String>,
}

/// The mathematical value of a stash: vaults in the order they were opened,
/// each an asset and its balance, and the contributors in the order they were
/// granted.
pub struct StashView {
    pub id: u64,
    pub name: Seq<char>,
    pub owner: Seq<char>,
    pub vaults: Seq<(Seq<char>, u128)>,
    pub contributors: Seq<Seq<char>>,
}

impl StashView {
    /// No two vaults share an asset.
    pub open spec fn unique_assets(self) -> bool {
        forall|i: int, j: int|
            0 <= i < self.vaults.len() && 0 <= j < self.vaults.len() && i != j
                ==> #[trigger] self.vaults[i].0 != #[trigger] self.vaults[j].0
    }

    pub open spec fn holds_asset(self, a: Seq<char>) -> bool {
        exists|i: int| 0 <= i < self.vaults.len() && #[trigger] self.vaults[i].0 == a
    }

    /// Where the vault of asset `a` stands (meaningful when `holds_asset(a)`).
    pub open spec fn asset_index(self, a: Seq<char>) -> int {
        choose|i: int| 0 <= i < self.vaults.len() && #[trigger] self.vaults[i].0 == a
    }

    /// The balance of asset `a`; an asset without a vault counts as zero.
    pub open spec fn balance_of(self, a: Seq<char>) -> u128 {
        if self.holds_asset(a) {
            self.vaults[self.asset_index(a)].1
        } else {
            0
        }
    }

    /// The stash with a zero-balance vault for `a` opened, if it had none.
    pub open spec fn with_vault(self, a: Seq<char>) -> StashView {
        if self.holds_asset(a) {
            self
        } else {
            StashView { vaults: self.vaults.push((a, 0u128)), ..self }
        }
    }

    /// Crediting `amount` of `a` overflows the vault's balance.
    pub open spec fn credit_overflows(self, a: Seq<char>, amount: u128) -> bool {
        self.balance_of(a) + amount > u128::MAX
    }

    /// The stash after `amount` of `a` is credited, opening the vault if needed.
    pub open spec fn credited(self, a: Seq<char>, amount: u128) -> StashView {
        if self.holds_asset(a) {
            StashView {
                vaults: self.vaults.update(
                    self.asset_index(a),
                    (a, (self.balance_of(a) + amount) as u128),
                ),
                ..self
            }
        } else {
            StashView { vaults: self.vaults.push((a, amount)), ..self }
        }
    }

    /// The stash after `amount` of `a` is withdrawn from its vault.
    pub open spec fn debited(self, a: Seq<char>, amount: u128) -> StashView {
        StashView {
            vaults: self.vaults.update(
                self.asset_index(a),
                (a, (self.balance_of(a) - amount) as u128),
            ),
            ..self
        }
    }

    pub open spec fn is_contributor(self, account: Seq<char>) -> bool {
        self.contributors.contains(account)
    }

    /// The stash with `account` among its contributors.
    pub open spec fn with_contributor(self, account: Seq<char>) -> StashView {
        if self.is_contributor(account) {
            self
        } else {
            StashView { contributors: self.contributors.push(account), ..self }
        }
    }

    /// `account` may change the stash: it is the owner or a contributor.
    pub open spec fn may_mutate(self, account: Seq<char>) -> bool {
        self.owner == account || self.is_contributor(account)
    }

    /// Crediting an amount to a vault and then withdrawing the same amount
    /// succeeds and leaves the vault's balance as it was before the credit;
    /// when the vault already existed, the whole stash is as it was.
    pub proof fn law_credit_then_debit(self, a: Seq<char>, amount: u128)
        requires
            self.unique_assets(),
            !self.credit_overflows(a, amount),
        ensures
            self.credited(a, amount).unique_assets(),
            self.credited(a, amount).holds_asset(a),
            amount <= self.credited(a, amount).balance_of(a),
            self.credited(a, amount).debited(a, amount).balance_of(a) == self.balance_of(a),
            self.holds_asset(a) ==> self.credited(a, amount).debited(a, amount) == self,
    {
        let c = self.credited(a, amount);
        let i = if self.holds_asset(a) {
            self.asset_index(a)
        } else {
            self.vaults.len() as int
        };
        if self.holds_asset(a) {
            let j = self.asset_index(a);
            assert(0 <= j < self.vaults.len() && self.vaults[j].0 == a);
        }
        assert(c.vaults[i].0 == a);
        assert forall|x: int, y: int|
            0 <= x < c.vaults.len() && 0 <= y < c.vaults.len() && x != y implies #[trigger] c.vaults[x].0
            != #[trigger] c.vaults[y].0 by {
            if x != i && y != i {
                assert(self.vaults[x].0 != self.vaults[y].0);
            } else if x == i {
                assert(self.vaults[y].0 != a);
            } else {
                assert(self.vaults[x].0 != a);
            }
        }
        c.lemma_index_of(a, i);
        let d = c.debited(a, amount);
        assert(d.vaults[i].0 == a);
        if self.holds_asset(a) {
            assert(d.vaults =~= self.vaults);
        } else {
            assert forall|x: int, y: int|
                0 <= x < d.vaults.len() && 0 <= y < d.vaults.len() && x != y implies #[trigger] d.vaults[x].0
                != #[trigger] d.vaults[y].0 by {
                assert(c.vaults[x].0 != c.vaults[y].0);
            }
        }
        d.lemma_index_of(a, i);
    }

    pub proof fn lemma_index_of(self, a: Seq<char>, i: int)
        requires
            self.unique_assets(),
            0 <= i < self.vaults.len(),
            self.vaults[i].0 == a,
        ensures
            self.holds_asset(a),
            self.asset_index(a) == i,
            self.balance_of(a) == self.vaults[i].1,
    {
        assert(self.vaults[i].0 == a);
        let j = self.asset_index(a);
        assert(0 <= j < self.vaults.len() && self.vaults[j].0 == a);
    }
}

impl View for Stash {
    type V = StashView;

    closed spec fn view(&self) -> StashView {
        StashView {
            id: self.id,
            name: self.name@,
            owner: self.owner@,
            vaults: self.vaults@.map_values(|v: Vault| (v.asset@, v.balance)),
            contributors: self.contributors@.map_values(|s: String| s@),
        }
    }
}

impl Stash {
    pub open spec fn wf(&self) -> bool {
        self@.unique_assets()
    }

    /// An empty stash with the given id and name, owned by `owner`.
    pub fn new(id: u64, name: String, owner: String) -> (r: Stash)
        ensures
            r.wf(),
            r@ == (StashView {
                id,
                name: name@,
                owner: owner@,
                vaults: Seq::empty(),
                contributors: Seq::empty(),
            }),
    {
        let r = Stash { id, name, owner, vaults: Vec::new(), contributors: Vec::new() };
        assert(r@.vaults =~= Seq::<(Seq<char>, u128)>::empty());
        assert(r@.contributors =~= Seq::<Seq<char>>::empty());
        r
    }

    pub fn id(&self) -> (r: u64)
        ensures
            r == self@.id,
    {
        self.id
    }

    pub fn name(&self) -> (r: &String)
        ensures
            r@ == self@.name,
    {
        &self.name
    }

    pub fn owner(&self) -> (r: &String)
        ensures
            r@ == self@.owner,
    {
        &self.owner
    }

    /// The position of the vault of `asset`, if the stash has one.
    pub fn find_vault(&self, asset: &String) -> (r: Option<usize>)
        requires
            self.wf(),
        ensures
            match r {
                Some(i) => {
                    &&& self@.holds_asset(asset@)
                    &&& self@.asset_index(asset@) == i
                    &&& i < self@.vaults.len()
                },
                None => !self@.holds_asset(asset@),
            },
    {
        let mut i: usize = 0;
        while i < self.vaults.len()
            invariant
                self.wf(),
                i <= self.vaults.len(),
                forall|j: int| 0 <= j < i ==> #[trigger] self@.vaults[j].0 != asset@,
            decreases self.vaults.len() - i,
        {
            if self.vaults[i].asset == *asset {
                proof {
                    self@.lemma_index_of(asset@, i as int);
                }
                return Some(i);
            }
            assert(self@.vaults[i as int].0 != asset@);
            i += 1;
        }
        None
    }

    /// The balance of `asset`, or `None` when the stash has no vault for it.
    pub fn balance_of(&self, asset: &String) -> (r: Option<u128>)
        requires
            self.wf(),
        ensures
            r == (if self@.holds_asset(asset@) {
                Some(self@.balance_of(asset@))
            } else {
                None::<u128>
            }),
    {
        match self.find_vault(asset) {
            Some(i) => Some(self.vaults[i].balance),
            None => None,
        }
    }

    /// Whether `account` may change this stash: it owns it or contributes to it.
    pub fn may_mutate(&self, account: &String) -> (r: bool)
        ensures
            r == self@.may_mutate(account@),
    {
        if self.owner == *account {
            return true;
        }
        self.is_contributor(account)
    }

    pub fn is_contributor(&self, account: &String) -> (r: bool)
        ensures
            r == self@.is_contributor(account@),
    {
        let mut i: usize = 0;
        while i < self.contributors.len()
            invariant
                i <= self.contributors.len(),
                forall|j: int| 0 <= j < i ==> #[trigger] self@.contributors[j] != account@,
            decreases self.contributors.len() - i,
        {
            if self.contributors[i] == *account {
                assert(self@.contributors[i as int] == account@);
                return true;
            }
            assert(self@.contributors[i as int] != account@);
            i += 1;
        }
        false
    }

    fn push_vault(&mut self, v: Vault)
        requires
            old(self).wf(),
            !old(self)@.holds_asset(v.asset@),
        ensures
            final(self).wf(),
            final(self)@ == (StashView {
                vaults: old(self)@.vaults.push((v.asset@, v.balance)),
                ..old(self)@
            }),
    {
        let ghost pre = self@;
        let ghost entry = (v.asset@, v.balance);
        self.vaults.push(v);
        assert(self@.vaults =~= pre.vaults.push(entry));
        assert forall|i: int, j: int|
            0 <= i < self@.vaults.len() && 0 <= j < self@.vaults.len() && i != j implies
                #[trigger] self@.vaults[i].0 != #[trigger] self@.vaults[j].0 by {
            if i == pre.vaults.len() as int {
                assert(pre.vaults[j].0 != entry.0);
            } else if j == pre.vaults.len() as int {
                assert(pre.vaults[i].0 != entry.0);
            }
        }
    }

    fn set_balance(&mut self, i: usize, balance: u128)
        requires
            old(self).wf(),
            i < old(self)@.vaults.len(),
        ensures
            final(self).wf(),
            final(self)@ == (StashView {
                vaults: old(self)@.vaults.update(i as int, (old(self)@.vaults[i as int].0, balance)),
                ..old(self)@
            }),
    {
        let ghost pre = self@;
        let asset = self.vaults[i].asset.clone();
        self.vaults.set(i, Vault { asset, balance });
        assert(self@.vaults =~= pre.vaults.update(i as int, (pre.vaults[i as int].0, balance)));
        assert forall|a: int, b: int|
            0 <= a < self@.vaults.len() && 0 <= b < self@.vaults.len() && a != b implies
                #[trigger] self@.vaults[a].0 != #[trigger] self@.vaults[b].0 by {
            assert(pre.vaults[a].0 != pre.vaults[b].0);
        }
    }

    /// Opens a zero-balance vault for `asset`; does nothing if one exists.
    pub fn add_vault(&mut self, asset: String)
        requires
            old(self).wf(),
        ensures
            final(self).wf(),
            final(self)@ == old(self)@.with_vault(asset@),
    {
        match self.find_vault(&asset) {
            Some(_) => {},
            None => {
                self.push_vault(Vault { asset, balance: 0 });
            },
        }
    }

    /// Credits `amount` of `asset`, opening its vault if needed. Fails with
    /// `Overflow`, changing nothing, when the balance would not fit.
    pub fn add_liquidity(&mut self, asset: String, amount: u128) -> (r: Result<(), StashError>)
        requires
            old(self).wf(),
        ensures
            final(self).wf(),
            old(self)@.credit_overflows(asset@, amount) ==> r == Err::<(), StashError>(
                StashError::Overflow,
            ) && final(self)@ == old(self)@,
            !old(self)@.credit_overflows(asset@, amount) ==> r is Ok && final(self)@ == old(
                self,
            )@.credited(asset@, amount),
    {
        match self.find_vault(&asset) {
            Some(i) => {
                match self.vaults[i].balance.checked_add(amount) {
                    Some(b) => {
                        self.set_balance(i, b);
                        Ok(())
                    },
                    None => Err(StashError::Overflow),
                }
            },
            None => {
                self.push_vault(Vault { asset, balance: amount });
                Ok(())
            },
        }
    }

    /// Withdraws `amount` of `asset`. Fails, changing nothing, with
    /// `VaultNotFound` when the stash has no vault for the asset and with
    /// `InsufficientBalance` when the amount exceeds the balance.
    pub fn remove_liquidity(&mut self, asset: &String, amount: u128) -> (r: Result<
        (),
        StashError,
    >)
        requires
            old(self).wf(),
        ensures
            final(self).wf(),
            !old(self)@.holds_asset(asset@) ==> r == Err::<(), StashError>(
                StashError::VaultNotFound,
            ) && final(self)@ == old(self)@,
            old(self)@.holds_asset(asset@) && amount > old(self)@.balance_of(asset@) ==> r == Err::<
                (),
                StashError,
            >(StashError::InsufficientBalance) && final(self)@ == old(self)@,
            old(self)@.holds_asset(asset@) && amount <= old(self)@.balance_of(asset@) ==> r is Ok
                && final(self)@ == old(self)@.debited(asset@, amount),
    {
        match self.find_vault(asset) {
            Some(i) => {
                let b = self.vaults[i].balance;
                if amount > b {
                    Err(StashError::InsufficientBalance)
                } else {
                    self.set_balance(i, b - amount);
                    Ok(())
                }
            },
            None => Err(StashError::VaultNotFound),
        }
    }

    /// Grants `account` the right to contribute; does nothing if it has it.
    pub fn authorize_contributor(&mut self, account: String)
        requires
            old(self).wf(),
        ensures
            final(self).wf(),
            final(self)@ == old(self)@.with_contributor(account@),
    {
        if !self.is_contributor(&account) {
            let ghost pre = self@;
            let ghost a = account@;
            self.contributors.push(account);
            assert(self@.contributors =~= pre.contributors.push(a));
            assert(self@.vaults =~= pre.vaults);
        }
    }
}

} // verus!
