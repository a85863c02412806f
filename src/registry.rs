use vstd::prelude::*;
use std::collections::HashMap;

use crate::accountant::{
    contributor_growth, create_growth, settle, settlement, text_size, vault_growth, Charge,
    Payment, BALANCE_BYTES, ENTRY_HEADER_BYTES, ID_BYTES, STASH_HEADER_BYTES,
};
use crate::error::StashError;
use crate::stash::{Stash, StashView};

verus! {

broadcast use vstd::std_specs::hash::group_hash_axioms;

/// The stash ids recorded for one account.
pub struct AccountEntry {
    account: String,
    ids: Vec<u64>,
}

/// The account index: each account with the ids it is recorded under.
pub type IndexView = Seq<(Seq<char>, Seq<u64>)>;

/// No account has two entries.
pub open spec fn unique_accounts(idx: IndexView) -> bool {
    forall|i: int, j: int|
        0 <= i < idx.len() && 0 <= j < idx.len() && i != j ==> #[trigger] idx[i].0
            != #[trigger] idx[j].0
}

pub open spec fn has_account(idx: IndexView, a: Seq<char>) -> bool {
    exists|i: int| 0 <= i < idx.len() && #[trigger] idx[i].0 == a
}

/// Where the entry of `a` stands (meaningful when `has_account(idx, a)`).
pub open spec fn account_pos(idx: IndexView, a: Seq<char>) -> int {
    choose|i: int| 0 <= i < idx.len() && #[trigger] idx[i].0 == a
}

/// The ids recorded for `a`, empty when it has no entry.
pub open spec fn ids_of(idx: IndexView, a: Seq<char>) -> Seq<u64> {
    if has_account(idx, a) {
        idx[account_pos(idx, a)].1
    } else {
        Seq::empty()
    }
}

/// The index with `id` recorded for `a`.
pub open spec fn with_id(idx: IndexView, a: Seq<char>, id: u64) -> IndexView {
    if has_account(idx, a) {
        idx.update(account_pos(idx, a), (a, idx[account_pos(idx, a)].1.push(id)))
    } else {
        idx.push((a, seq![id]))
    }
}

/// `ids` with every occurrence of `id` left out, the rest in order.
pub open spec fn without(ids: Seq<u64>, id: u64) -> Seq<u64>
    decreases ids.len(),
{
    if ids.len() == 0 {
        ids
    } else if ids.last() == id {
        without(ids.drop_last(), id)
    } else {
        without(ids.drop_last(), id).push(ids.last())
    }
}

/// The index with `id` left out of every entry.
pub open spec fn pruned(idx: IndexView, id: u64) -> IndexView {
    idx.map_values(|e: (Seq<char>, Seq<u64>)| (e.0, without(e.1, id)))
}

pub proof fn lemma_account_pos(idx: IndexView, a: Seq<char>, i: int)
    requires
        unique_accounts(idx),
        0 <= i < idx.len(),
        idx[i].0 == a,
    ensures
        has_account(idx, a),
        account_pos(idx, a) == i,
        ids_of(idx, a) == idx[i].1,
{
    assert(idx[i].0 == a);
    let j = account_pos(idx, a);
    assert(0 <= j < idx.len() && idx[j].0 == a);
}

proof fn lemma_push_contains(s: Seq<u64>, v: u64, x: u64)
    ensures
        s.push(v).contains(x) <==> s.contains(x) || x == v,
{
    if s.contains(x) {
        let k = choose|k: int| 0 <= k < s.len() && s[k] == x;
        assert(s.push(v)[k] == x);
    }
    if x == v {
        assert(s.push(v)[s.len() as int] == x);
    }
    if s.push(v).contains(x) {
        let k = choose|k: int| 0 <= k < s.len() + 1 && s.push(v)[k] == x;
        if k < s.len() {
            assert(s[k] == x);
        }
    }
}

proof fn lemma_with_id_member(idx: IndexView, a: Seq<char>, id: u64, i: int, x: u64)
    requires
        0 <= i < with_id(idx, a, id).len(),
        with_id(idx, a, id)[i].1.contains(x),
        x != id,
    ensures
        0 <= i < idx.len(),
        idx[i].1.contains(x),
{
    if has_account(idx, a) {
        let q = account_pos(idx, a);
        if i == q {
            lemma_push_contains(idx[q].1, id, x);
        }
    } else if i == idx.len() {
        let k = choose|k: int| 0 <= k < with_id(idx, a, id)[i].1.len() && with_id(idx, a, id)[i].1[k] == x;
        assert(seq![id][k] == id);
    }
}

/// What `without` keeps: the elements other than `id`, and no duplicate.
pub proof fn lemma_without(ids: Seq<u64>, id: u64)
    ensures
        forall|x: u64| #[trigger] without(ids, id).contains(x) <==> ids.contains(x) && x != id,
        ids.no_duplicates() ==> without(ids, id).no_duplicates(),
    decreases ids.len(),
{
    if ids.len() > 0 {
        let rest = ids.drop_last();
        lemma_without(rest, id);
        assert(ids =~= rest.push(ids.last()));
        assert forall|x: u64| #[trigger] without(ids, id).contains(x) <==> ids.contains(x) && x
            != id by {
            lemma_push_contains(rest, ids.last(), x);
            if ids.last() != id {
                lemma_push_contains(without(rest, id), ids.last(), x);
            }
        }
        if ids.no_duplicates() && ids.last() != id {
            assert(rest.no_duplicates()) by {
                assert forall|i: int, j: int|
                    0 <= i < rest.len() && 0 <= j < rest.len() && i != j implies rest[i]
                    != rest[j] by {
                    assert(rest[i] == ids[i] && rest[j] == ids[j]);
                }
            }
            let w = without(rest, id);
            assert(!rest.contains(ids.last())) by {
                if rest.contains(ids.last()) {
                    let k = choose|k: int| 0 <= k < rest.len() && rest[k] == ids.last();
                    assert(ids[k] == ids[ids.len() - 1]);
                }
            }
            assert(!w.contains(ids.last()));
            assert forall|i: int, j: int|
                0 <= i < w.push(ids.last()).len() && 0 <= j < w.push(ids.last()).len() && i
                    != j implies w.push(ids.last())[i] != w.push(ids.last())[j] by {
                if i == w.len() {
                    assert(w.contains(w[j]));
                } else if j == w.len() {
                    assert(w.contains(w[i]));
                }
            }
        } else if ids.no_duplicates() {
            assert forall|i: int, j: int|
                0 <= i < rest.len() && 0 <= j < rest.len() && i != j implies rest[i]
                != rest[j] by {
                assert(rest[i] == ids[i] && rest[j] == ids[j]);
            }
        }
    }
}

/// What an accepted call did: the stash it acted on, what it was charged,
/// and the refund owed to the caller.
#[derive(Debug, Clone, Copy, PartialEq, Eq, Structural)]
pub struct Receipt {
    pub stash_id: u64,
    pub cost: u128,
    pub refund: u128,
}

pub open spec fn receipt(stash_id: u64, c: Charge) -> Receipt {
    Receipt { stash_id, cost: c.cost, refund: c.refund }
}

fn copy_ids(v: &Vec<u64>) -> (r: Vec<u64>)
    ensures
        r@ == v@,
{
    let mut out: Vec<u64> = Vec::new();
    let mut i: usize = 0;
    while i < v.len()
        invariant
            i <= v.len(),
            out@ == v@.take(i as int),
        decreases v.len() - i,
    {
        out.push(v[i]);
        i += 1;
        assert(out@ =~= v@.take(i as int));
    }
    assert(out@ =~= v@);
    out
}

fn copy_without(v: &Vec<u64>, id: u64) -> (r: Vec<u64>)
    ensures
        r@ == without(v@, id),
{
    let mut out: Vec<u64> = Vec::new();
    let mut i: usize = 0;
    while i < v.len()
        invariant
            i <= v.len(),
            out@ == without(v@.take(i as int), id),
        decreases v.len() - i,
    {
        assert(v@.take(i + 1).drop_last() =~= v@.take(i as int));
        if v[i] != id {
            out.push(v[i]);
        }
        i += 1;
    }
    assert(v@.take(v@.len() as int) =~= v@);
    out
}

/// The registry: every live stash by id, the account index, and the id the
/// next stash will get.
pub struct Contract {
    stashes: HashMap<u64, Stash>,
    accounts: Vec<AccountEntry>,
    next_id: u64,
}

impl Contract {
    /// The live stashes by id.
    pub closed spec fn stash_map(&self) -> Map<u64, StashView> {
        self.stashes@.map_values(|s: Stash| s@)
    }

    /// The account index.
    pub closed spec fn index(&self) -> IndexView {
        self.accounts@.map_values(|e: AccountEntry| (e.account@, e.ids@))
    }

    /// The id the next stash will get.
    pub closed spec fn next_id_spec(&self) -> u64 {
        self.next_id
    }

    /// The registry is well formed: each stash is stored under its own id,
    /// which is below the next id, and has unique vaults; each account has
    /// one entry, and every id recorded there names a live stash, once.
    pub closed spec fn wf(&self) -> bool {
        &&& forall|k: u64| #[trigger]
            self.stashes@.contains_key(k) ==> self.stashes@[k].wf() && self.stashes@[k]@.id == k
                && k < self.next_id
        &&& self.wf_index_shape()
        &&& forall|i: int, j: int|
            0 <= i < self.index().len() && 0 <= j < self.index()[i].1.len()
                ==> self.stash_map().contains_key(#[trigger] self.index()[i].1[j])
    }

    /// Each account has one entry in the index, and no id twice.
    closed spec fn wf_index_shape(&self) -> bool {
        &&& unique_accounts(self.index())
        &&& forall|i: int|
            0 <= i < self.index().len() ==> (#[trigger] self.index()[i]).1.no_duplicates()
    }

    proof fn lemma_views(&self)
        ensures
            self.stash_map().dom() == self.stashes@.dom(),
            forall|k: u64| #[trigger]
                self.stash_map().contains_key(k) ==> self.stash_map()[k] == self.stashes@[k]@,
            self.index().len() == self.accounts@.len(),
            forall|i: int|
                0 <= i < self.accounts@.len() ==> #[trigger] self.index()[i] == (
                self.accounts@[i].account@,
                self.accounts@[i].ids@,
            ),
    {
        assert(self.stash_map().dom() =~= self.stashes@.dom());
    }

    /// An empty registry.
    pub fn new() -> (r: Contract)
        ensures
            r.wf(),
            r.stash_map() == Map::<u64, StashView>::empty(),
            r.index() == Seq::<(Seq<char>, Seq<u64>)>::empty(),
            r.next_id_spec() == 0,
    {
        let r = Contract { stashes: HashMap::new(), accounts: Vec::new(), next_id: 0 };
        assert(r.stash_map() =~= Map::<u64, StashView>::empty());
        assert(r.index() =~= Seq::<(Seq<char>, Seq<u64>)>::empty());
        r
    }

    /// How many stashes are live.
    pub fn stash_count(&self) -> (r: usize)
        ensures
            r == self.stash_map().len(),
    {
        proof {
            self.lemma_views();
        }
        self.stashes.len()
    }

    /// How many accounts have an entry in the index.
    pub fn account_count(&self) -> (r: usize)
        ensures
            r == self.index().len(),
    {
        self.accounts.len()
    }

    /// The id the next stash will get.
    pub fn next_stash_id(&self) -> (r: u64)
        ensures
            r == self.next_id_spec(),
    {
        self.next_id
    }

    /// The live stash with id `stash_id`, if any.
    pub fn get_stash(&self, stash_id: u64) -> (r: Option<&Stash>)
        requires
            self.wf(),
        ensures
            match r {
                Some(s) => self.stash_map().contains_key(stash_id) && s@ == self.stash_map()[stash_id]
                    && s.wf(),
                None => !self.stash_map().contains_key(stash_id),
            },
    {
        proof {
            self.lemma_views();
        }
        self.stashes.get(&stash_id)
    }

    /// The balance of `asset` in stash `stash_id`, or `None` when there is no
    /// such stash or it has no vault for the asset.
    pub fn vault_balance(&self, stash_id: u64, asset: &String) -> (r: Option<u128>)
        requires
            self.wf(),
        ensures
            r == (if self.stash_map().contains_key(stash_id) && self.stash_map()[stash_id].holds_asset(
                asset@,
            ) {
                Some(self.stash_map()[stash_id].balance_of(asset@))
            } else {
                None::<u128>
            }),
    {
        match self.get_stash(stash_id) {
            Some(s) => s.balance_of(asset),
            None => None,
        }
    }

    fn find_account(&self, account: &String) -> (r: Option<usize>)
        requires
            self.wf_index_shape(),
        ensures
            match r {
                Some(i) => {
                    &&& i < self.index().len()
                    &&& has_account(self.index(), account@)
                    &&& account_pos(self.index(), account@) == i
                },
                None => !has_account(self.index(), account@),
            },
    {
        proof {
            self.lemma_views();
        }
        let mut i: usize = 0;
        while i < self.accounts.len()
            invariant
                self.wf_index_shape(),
                i <= self.accounts.len(),
                self.index().len() == self.accounts@.len(),
                forall|j: int| 0 <= j < i ==> #[trigger] self.index()[j].0 != account@,
            decreases self.accounts.len() - i,
        {
            if self.accounts[i].account == *account {
                proof {
                    self.lemma_views();
                    lemma_account_pos(self.index(), account@, i as int);
                }
                return Some(i);
            }
            proof {
                self.lemma_views();
            }
            assert(self.index()[i as int].0 != account@);
            i += 1;
        }
        None
    }

    /// The ids of the stashes recorded for `account_id`, in the order they
    /// were recorded; empty when it has none.
    pub fn get_stashes_for_account(&self, account_id: &String) -> (r: Vec<u64>)
        requires
            self.wf(),
        ensures
            r@ == ids_of(self.index(), account_id@),
    {
        proof {
            self.lemma_views();
        }
        match self.find_account(account_id) {
            Some(p) => {
                proof {
                    lemma_account_pos(self.index(), account_id@, p as int);
                }
                copy_ids(&self.accounts[p].ids)
            },
            None => Vec::new(),
        }
    }

    /// Records `id` for `account` in the index, opening its entry if needed.
    fn record_id(&mut self, account: String, id: u64)
        requires
            old(self).wf_index_shape(),
            forall|i: int| 0 <= i < old(self).index().len() ==> !(#[trigger] old(self).index()[i]).1.contains(id),
        ensures
            final(self).wf_index_shape(),
            final(self).index() == with_id(old(self).index(), account@, id),
            final(self).stashes == old(self).stashes,
            final(self).next_id == old(self).next_id,
    {
        proof {
            self.lemma_views();
        }
        let ghost pre = self.index();
        match self.find_account(&account) {
            Some(p) => {
                proof {
                    lemma_account_pos(pre, account@, p as int);
                }
                let mut ids = copy_ids(&self.accounts[p].ids);
                ids.push(id);
                let ghost new_ids = ids@;
                self.accounts.set(p, AccountEntry { account, ids });
                proof {
                    self.lemma_views();
                    assert(self.index() =~= with_id(pre, account@, id));
                    assert(!pre[p as int].1.contains(id));
                    assert(new_ids == pre[p as int].1.push(id));
                    assert forall|a: int, b: int|
                        0 <= a < new_ids.len() && 0 <= b < new_ids.len() && a != b implies new_ids[a]
                        != new_ids[b] by {
                        if a == new_ids.len() - 1 {
                            assert(pre[p as int].1.contains(new_ids[b]));
                        } else if b == new_ids.len() - 1 {
                            assert(pre[p as int].1.contains(new_ids[a]));
                        }
                    }
                    assert forall|a: int, b: int|
                        0 <= a < self.index().len() && 0 <= b < self.index().len() && a != b implies #[trigger] self.index()[a].0
                        != #[trigger] self.index()[b].0 by {
                        assert(pre[a].0 != pre[b].0);
                    }
                }
            },
            None => {
                let ghost a = account@;
                let mut ids: Vec<u64> = Vec::new();
                ids.push(id);
                self.accounts.push(AccountEntry { account, ids });
                proof {
                    self.lemma_views();
                    assert(self.index() =~= pre.push((a, seq![id])));
                    assert(self.index() =~= with_id(pre, a, id));
                    assert forall|x: int, y: int|
                        0 <= x < self.index().len() && 0 <= y < self.index().len() && x != y implies #[trigger] self.index()[x].0
                        != #[trigger] self.index()[y].0 by {
                        if x == pre.len() {
                            assert(pre[y].0 != a);
                        } else if y == pre.len() {
                            assert(pre[x].0 != a);
                        }
                    }
                }
            },
        }
    }

    /// Creates a stash named `name`, owned by `caller`, under the next id, and
    /// records that id for `caller`. The storage it adds is charged to
    /// `payment`; when the payment falls short nothing changes.
    pub fn create_stash(&mut self, caller: String, name: String, payment: Payment) -> (r: Result<
        Receipt,
        StashError,
    >)
        requires
            old(self).wf(),
            old(self).next_id_spec() < u64::MAX,
        ensures
            final(self).wf(),
            match settlement(
                create_growth(name@, caller@, has_account(old(self).index(), caller@)),
                payment,
            ) {
                Err(e) => r == Err::<Receipt, StashError>(e) && *final(self) == *old(self),
                Ok(c) => {
                    let id = old(self).next_id_spec();
                    &&& r == Ok::<Receipt, StashError>(receipt(id, c))
                    &&& !old(self).stash_map().contains_key(id)
                    &&& final(self).stash_map() == old(self).stash_map().insert(
                        id,
                        StashView {
                            id,
                            name: name@,
                            owner: caller@,
                            vaults: Seq::empty(),
                            contributors: Seq::empty(),
                        },
                    )
                    &&& final(self).stash_map().len() == old(self).stash_map().len() + 1
                    &&& final(self).index() == with_id(old(self).index(), caller@, id)
                    &&& ids_of(final(self).index(), caller@).contains(id)
                    &&& final(self).next_id_spec() == id + 1
                },
            },
    {
        proof {
            self.lemma_views();
        }
        let indexed = self.find_account(&caller);
        let entry_growth: u128 = match indexed {
            Some(_) => 0,
            None => text_size(&caller) + ENTRY_HEADER_BYTES,
        };
        let growth = STASH_HEADER_BYTES + text_size(&name) + text_size(&caller) + ID_BYTES
            + entry_growth;
        let charge = match settle(growth, payment) {
            Ok(c) => c,
            Err(e) => {
                return Err(e);
            },
        };
        let id = self.next_id;
        let ghost pre = *self;
        let ghost owner = caller@;
        assert(!pre.stashes@.contains_key(id));
        proof {
            assert forall|i: int| 0 <= i < pre.index().len() implies !(#[trigger] pre.index()[i]).1.contains(id) by {
                if pre.index()[i].1.contains(id) {
                    let j = choose|j: int| 0 <= j < pre.index()[i].1.len() && pre.index()[i].1[j] == id;
                    assert(pre.stash_map().contains_key(pre.index()[i].1[j]));
                }
            }
        }
        let stash = Stash::new(id, name, caller.clone());
        self.stashes.insert(id, stash);
        self.record_id(caller, id);
        self.next_id = id + 1;
        proof {
            self.lemma_views();
            pre.lemma_views();
            assert(self.stash_map() =~= pre.stash_map().insert(id, self.stashes@[id]@));
            assert(self.stash_map().dom() =~= pre.stash_map().dom().insert(id));
            assert(ids_of(self.index(), owner).contains(id)) by {
                if has_account(pre.index(), owner) {
                    let q = account_pos(pre.index(), owner);
                    lemma_account_pos(self.index(), owner, q);
                    assert(self.index()[q].1 == pre.index()[q].1.push(id));
                    assert(self.index()[q].1[pre.index()[q].1.len() as int] == id);
                } else {
                    let q = pre.index().len() as int;
                    lemma_account_pos(self.index(), owner, q);
                    assert(self.index()[q].1[0] == id);
                }
            }
            assert forall|i: int, j: int|
                0 <= i < self.index().len() && 0 <= j < self.index()[i].1.len()
                    implies self.stash_map().contains_key(#[trigger] self.index()[i].1[j]) by {
                let x = self.index()[i].1[j];
                if x != id {
                    assert(self.index()[i].1.contains(x));
                    lemma_with_id_member(pre.index(), owner, id, i, x);
                    let k = choose|k: int| 0 <= k < pre.index()[i].1.len() && pre.index()[i].1[k] == x;
                    assert(pre.stash_map().contains_key(pre.index()[i].1[k]));
                }
            }
        }
        Ok(Receipt { stash_id: id, cost: charge.cost, refund: charge.refund })
    }

    /// `caller` may change the live stash `stash_id`.
    pub open spec fn permits(&self, stash_id: u64, caller: Seq<char>) -> bool {
        self.stash_map().contains_key(stash_id) && self.stash_map()[stash_id].may_mutate(caller)
    }

    /// The live stash `stash_id`, if `caller` may change it; the error to
    /// report otherwise.
    fn check_access(&self, caller: &String, stash_id: u64) -> (r: Result<&Stash, StashError>)
        requires
            self.wf(),
        ensures
            !self.stash_map().contains_key(stash_id) ==> r == Err::<&Stash, StashError>(
                StashError::StashNotFound,
            ),
            self.stash_map().contains_key(stash_id) && !self.permits(stash_id, caller@) ==> r
                == Err::<&Stash, StashError>(StashError::Unauthorized),
            self.permits(stash_id, caller@) ==> (r matches Ok(s) && s@ == self.stash_map()[stash_id]
                && s.wf()),
    {
        match self.get_stash(stash_id) {
            Some(s) => {
                if s.may_mutate(caller) {
                    Ok(s)
                } else {
                    Err(StashError::Unauthorized)
                }
            },
            None => Err(StashError::StashNotFound),
        }
    }

    fn take_stash(&mut self, stash_id: u64) -> (s: Stash)
        requires
            old(self).wf(),
            old(self).stash_map().contains_key(stash_id),
        ensures
            s.wf(),
            s@ == old(self).stash_map()[stash_id],
            final(self).stashes@ == old(self).stashes@.remove(stash_id),
            final(self).accounts == old(self).accounts,
            final(self).next_id == old(self).next_id,
    {
        proof {
            self.lemma_views();
        }
        self.stashes.remove(&stash_id).unwrap()
    }

    fn put_stash(&mut self, s: Stash, Ghost(pre): Ghost<Contract>)
        requires
            pre.wf(),
            s.wf(),
            pre.stashes@.contains_key(s@.id),
            old(self).stashes@ == pre.stashes@.remove(s@.id),
            old(self).accounts == pre.accounts,
            old(self).next_id == pre.next_id,
        ensures
            final(self).wf(),
            final(self).stash_map() == pre.stash_map().insert(s@.id, s@),
            final(self).index() == pre.index(),
            final(self).next_id == pre.next_id,
    {
        let id = s.id();
        let ghost v = s@;
        self.stashes.insert(id, s);
        proof {
            self.lemma_views();
            pre.lemma_views();
            assert(self.stashes@ =~= pre.stashes@.insert(id, self.stashes@[id]));
            assert(self.stash_map() =~= pre.stash_map().insert(id, v));
            assert(self.stash_map().dom() =~= pre.stash_map().dom());
            assert(self.index() =~= pre.index());
        }
    }

    /// Opens a zero-balance vault for `token_id` in stash `stash_id`, if it
    /// has none. Refused with `StashNotFound`, `Unauthorized`, or when the
    /// payment does not cover the new vault; a refused call changes nothing.
    pub fn add_token_to_stash(
        &mut self,
        caller: &String,
        stash_id: u64,
        token_id: String,
        payment: Payment,
    ) -> (r: Result<Receipt, StashError>)
        requires
            old(self).wf(),
        ensures
            final(self).wf(),
            !old(self).stash_map().contains_key(stash_id) ==> r == Err::<Receipt, StashError>(
                StashError::StashNotFound,
            ) && *final(self) == *old(self),
            old(self).stash_map().contains_key(stash_id) && !old(self).permits(stash_id, caller@)
                ==> r == Err::<Receipt, StashError>(StashError::Unauthorized) && *final(self)
                == *old(self),
            old(self).permits(stash_id, caller@) ==> match settlement(
                vault_growth(old(self).stash_map()[stash_id], token_id@),
                payment,
            ) {
                Err(e) => r == Err::<Receipt, StashError>(e) && *final(self) == *old(self),
                Ok(c) => {
                    &&& r == Ok::<Receipt, StashError>(receipt(stash_id, c))
                    &&& final(self).stash_map() == old(self).stash_map().insert(
                        stash_id,
                        old(self).stash_map()[stash_id].with_vault(token_id@),
                    )
                    &&& final(self).index() == old(self).index()
                    &&& final(self).next_id_spec() == old(self).next_id_spec()
                },
            },
    {
        let s = match self.check_access(caller, stash_id) {
            Ok(s) => s,
            Err(e) => {
                return Err(e);
            },
        };
        let growth: u128 = match s.find_vault(&token_id) {
            Some(_) => 0,
            None => text_size(&token_id) + BALANCE_BYTES,
        };
        let charge = match settle(growth, payment) {
            Ok(c) => c,
            Err(e) => {
                return Err(e);
            },
        };
        let ghost pre = *self;
        let mut st = self.take_stash(stash_id);
        st.add_vault(token_id);
        self.put_stash(st, Ghost(pre));
        Ok(Receipt { stash_id, cost: charge.cost, refund: charge.refund })
    }

    /// Does nothing: exchanging one asset for another is left to an outside
    /// exchange, and the registry changes no stash for it.
    pub fn deposit_swap(
        &mut self,
        _stash_id: u64,
        _token_in: String,
        _token_out: String,
        _amount_in: u128,
        _min_amount_out: u128,
    )
        ensures
            *final(self) == *old(self),
    {
    }

    /// Credits `amount` of `token_id` to stash `stash_id`, opening the vault
    /// if needed. Refused with `StashNotFound`, `Unauthorized`, `Overflow`,
    /// or when the payment does not cover a new vault; a refused call changes
    /// nothing.
    pub fn add_liquidity_to_stash(
        &mut self,
        caller: &String,
        stash_id: u64,
        token_id: String,
        amount: u128,
        payment: Payment,
    ) -> (r: Result<Receipt, StashError>)
        requires
            old(self).wf(),
        ensures
            final(self).wf(),
            !old(self).stash_map().contains_key(stash_id) ==> r == Err::<Receipt, StashError>(
                StashError::StashNotFound,
            ) && *final(self) == *old(self),
            old(self).stash_map().contains_key(stash_id) && !old(self).permits(stash_id, caller@)
                ==> r == Err::<Receipt, StashError>(StashError::Unauthorized) && *final(self)
                == *old(self),
            old(self).permits(stash_id, caller@) && old(self).stash_map()[stash_id].credit_overflows(
                token_id@,
                amount,
            ) ==> r == Err::<Receipt, StashError>(StashError::Overflow) && *final(self) == *old(
                self,
            ),
            old(self).permits(stash_id, caller@) && !old(self).stash_map()[stash_id].credit_overflows(
                token_id@,
                amount,
            ) ==> match settlement(vault_growth(old(self).stash_map()[stash_id], token_id@), payment) {
                Err(e) => r == Err::<Receipt, StashError>(e) && *final(self) == *old(self),
                Ok(c) => {
                    &&& r == Ok::<Receipt, StashError>(receipt(stash_id, c))
                    &&& final(self).stash_map() == old(self).stash_map().insert(
                        stash_id,
                        old(self).stash_map()[stash_id].credited(token_id@, amount),
                    )
                    &&& final(self).index() == old(self).index()
                    &&& final(self).next_id_spec() == old(self).next_id_spec()
                },
            },
    {
        let s = match self.check_access(caller, stash_id) {
            Ok(s) => s,
            Err(e) => {
                return Err(e);
            },
        };
        let growth: u128 = match s.balance_of(&token_id) {
            Some(b) => {
                if b.checked_add(amount).is_none() {
                    return Err(StashError::Overflow);
                }
                0
            },
            None => text_size(&token_id) + BALANCE_BYTES,
        };
        let charge = match settle(growth, payment) {
            Ok(c) => c,
            Err(e) => {
                return Err(e);
            },
        };
        let ghost pre = *self;
        let mut st = self.take_stash(stash_id);
        let res = st.add_liquidity(token_id, amount);
        assert(res is Ok);
        self.put_stash(st, Ghost(pre));
        Ok(Receipt { stash_id, cost: charge.cost, refund: charge.refund })
    }

    /// Withdraws `amount` of `token_id` from stash `stash_id`. Refused with
    /// `StashNotFound`, `Unauthorized`, `VaultNotFound` or
    /// `InsufficientBalance`; a refused call changes nothing. It adds no
    /// storage, so the whole payment is refunded.
    pub fn remove_liquidity_from_stash(
        &mut self,
        caller: &String,
        stash_id: u64,
        token_id: String,
        amount: u128,
        payment: Payment,
    ) -> (r: Result<Receipt, StashError>)
        requires
            old(self).wf(),
        ensures
            final(self).wf(),
            !old(self).stash_map().contains_key(stash_id) ==> r == Err::<Receipt, StashError>(
                StashError::StashNotFound,
            ) && *final(self) == *old(self),
            old(self).stash_map().contains_key(stash_id) && !old(self).permits(stash_id, caller@)
                ==> r == Err::<Receipt, StashError>(StashError::Unauthorized) && *final(self)
                == *old(self),
            old(self).permits(stash_id, caller@) && !old(self).stash_map()[stash_id].holds_asset(
                token_id@,
            ) ==> r == Err::<Receipt, StashError>(StashError::VaultNotFound) && *final(self)
                == *old(self),
            old(self).permits(stash_id, caller@) && old(self).stash_map()[stash_id].holds_asset(
                token_id@,
            ) && amount > old(self).stash_map()[stash_id].balance_of(token_id@) ==> r == Err::<
                Receipt,
                StashError,
            >(StashError::InsufficientBalance) && *final(self) == *old(self),
            old(self).permits(stash_id, caller@) && old(self).stash_map()[stash_id].holds_asset(
                token_id@,
            ) && amount <= old(self).stash_map()[stash_id].balance_of(token_id@) ==> {
                &&& r == Ok::<Receipt, StashError>(
                    Receipt { stash_id, cost: 0, refund: payment.attached },
                )
                &&& final(self).stash_map() == old(self).stash_map().insert(
                    stash_id,
                    old(self).stash_map()[stash_id].debited(token_id@, amount),
                )
                &&& final(self).index() == old(self).index()
                &&& final(self).next_id_spec() == old(self).next_id_spec()
            },
    {
        let s = match self.check_access(caller, stash_id) {
            Ok(s) => s,
            Err(e) => {
                return Err(e);
            },
        };
        match s.balance_of(&token_id) {
            Some(b) => {
                if amount > b {
                    return Err(StashError::InsufficientBalance);
                }
            },
            None => {
                return Err(StashError::VaultNotFound);
            },
        }
        let ghost pre = *self;
        let mut st = self.take_stash(stash_id);
        let res = st.remove_liquidity(&token_id, amount);
        assert(res is Ok);
        self.put_stash(st, Ghost(pre));
        Ok(Receipt { stash_id, cost: 0, refund: payment.attached })
    }

    /// Grants `account_id` the right to contribute to stash `stash_id`.
    /// Refused with `StashNotFound`, `Unauthorized`, or when the payment does
    /// not cover the new grant; a refused call changes nothing.
    pub fn authorize_contributor(
        &mut self,
        caller: &String,
        stash_id: u64,
        account_id: String,
        payment: Payment,
    ) -> (r: Result<Receipt, StashError>)
        requires
            old(self).wf(),
        ensures
            final(self).wf(),
            !old(self).stash_map().contains_key(stash_id) ==> r == Err::<Receipt, StashError>(
                StashError::StashNotFound,
            ) && *final(self) == *old(self),
            old(self).stash_map().contains_key(stash_id) && !old(self).permits(stash_id, caller@)
                ==> r == Err::<Receipt, StashError>(StashError::Unauthorized) && *final(self)
                == *old(self),
            old(self).permits(stash_id, caller@) ==> match settlement(
                contributor_growth(old(self).stash_map()[stash_id], account_id@),
                payment,
            ) {
                Err(e) => r == Err::<Receipt, StashError>(e) && *final(self) == *old(self),
                Ok(c) => {
                    &&& r == Ok::<Receipt, StashError>(receipt(stash_id, c))
                    &&& final(self).stash_map() == old(self).stash_map().insert(
                        stash_id,
                        old(self).stash_map()[stash_id].with_contributor(account_id@),
                    )
                    &&& final(self).index() == old(self).index()
                    &&& final(self).next_id_spec() == old(self).next_id_spec()
                },
            },
    {
        let s = match self.check_access(caller, stash_id) {
            Ok(s) => s,
            Err(e) => {
                return Err(e);
            },
        };
        let growth: u128 = if s.is_contributor(&account_id) {
            0
        } else {
            text_size(&account_id)
        };
        let charge = match settle(growth, payment) {
            Ok(c) => c,
            Err(e) => {
                return Err(e);
            },
        };
        let ghost pre = *self;
        let mut st = self.take_stash(stash_id);
        st.authorize_contributor(account_id);
        self.put_stash(st, Ghost(pre));
        Ok(Receipt { stash_id, cost: charge.cost, refund: charge.refund })
    }

    /// Deletes stash `stash_id` and leaves its id out of every account's
    /// entry in the index. Refused with `StashNotFound` or `Unauthorized`,
    /// changing nothing. It adds no storage, so the whole payment is refunded.
    pub fn remove_stash(&mut self, caller: &String, stash_id: u64, payment: Payment) -> (r: Result<
        Receipt,
        StashError,
    >)
        requires
            old(self).wf(),
        ensures
            final(self).wf(),
            !old(self).stash_map().contains_key(stash_id) ==> r == Err::<Receipt, StashError>(
                StashError::StashNotFound,
            ) && *final(self) == *old(self),
            old(self).stash_map().contains_key(stash_id) && !old(self).permits(stash_id, caller@)
                ==> r == Err::<Receipt, StashError>(StashError::Unauthorized) && *final(self)
                == *old(self),
            old(self).permits(stash_id, caller@) ==> {
                &&& r == Ok::<Receipt, StashError>(
                    Receipt { stash_id, cost: 0, refund: payment.attached },
                )
                &&& final(self).stash_map() == old(self).stash_map().remove(stash_id)
                &&& final(self).index() == pruned(old(self).index(), stash_id)
                &&& final(self).next_id_spec() == old(self).next_id_spec()
                &&& forall|a: Seq<char>| !(#[trigger] ids_of(final(self).index(), a)).contains(stash_id)
            },
    {
        match self.check_access(caller, stash_id) {
            Ok(_) => {},
            Err(e) => {
                return Err(e);
            },
        }
        let ghost pre = *self;
        proof {
            pre.lemma_views();
        }
        self.stashes.remove(&stash_id);
        let mut i: usize = 0;
        while i < self.accounts.len()
            invariant
                self.accounts@.len() == pre.accounts@.len(),
                i <= self.accounts@.len(),
                self.stashes@ == pre.stashes@.remove(stash_id),
                self.next_id == pre.next_id,
                forall|j: int|
                    0 <= j < i ==> #[trigger] self.index()[j] == (
                        pre.index()[j].0,
                        without(pre.index()[j].1, stash_id),
                    ),
                forall|j: int| i <= j < self.accounts@.len() ==> #[trigger] self.index()[j] == pre.index()[j],
            decreases self.accounts.len() - i,
        {
            proof {
                self.lemma_views();
            }
            let ghost before = *self;
            let ids = copy_without(&self.accounts[i].ids, stash_id);
            let account = self.accounts[i].account.clone();
            let ghost entry = (account@, ids@);
            self.accounts.set(i, AccountEntry { account, ids });
            proof {
                self.lemma_views();
                before.lemma_views();
                assert(before.index()[i as int] == pre.index()[i as int]);
                assert(self.index()[i as int] == entry);
                assert forall|j: int| 0 <= j < self.accounts@.len() && j != i implies self.index()[j]
                    == before.index()[j] by {
                    assert(self.accounts@[j] == before.accounts@[j]);
                }
                assert forall|j: int| 0 <= j <= i implies #[trigger] self.index()[j] == (
                    pre.index()[j].0,
                    without(pre.index()[j].1, stash_id),
                ) by {
                    if j < i {
                        assert(before.index()[j] == (
                            pre.index()[j].0,
                            without(pre.index()[j].1, stash_id),
                        ));
                    }
                }
                assert forall|j: int| i < j < self.accounts@.len() implies #[trigger] self.index()[j]
                    == pre.index()[j] by {
                    assert(before.index()[j] == pre.index()[j]);
                }
            }
            i += 1;
        }
        proof {
            self.lemma_views();
            assert(self.stash_map() =~= pre.stash_map().remove(stash_id));
            assert(self.index() =~= pruned(pre.index(), stash_id));
            assert forall|a: int, b: int|
                0 <= a < self.index().len() && 0 <= b < self.index().len() && a != b implies #[trigger] self.index()[a].0
                != #[trigger] self.index()[b].0 by {
                assert(pre.index()[a].0 != pre.index()[b].0);
            }
            assert forall|a: int| 0 <= a < self.index().len() implies (#[trigger] self.index()[a]).1.no_duplicates() by {
                lemma_without(pre.index()[a].1, stash_id);
            }
            assert forall|a: int, b: int|
                0 <= a < self.index().len() && 0 <= b < self.index()[a].1.len()
                    implies self.stash_map().contains_key(#[trigger] self.index()[a].1[b]) by {
                let x = self.index()[a].1[b];
                lemma_without(pre.index()[a].1, stash_id);
                assert(self.index()[a].1.contains(x));
                let k = choose|k: int| 0 <= k < pre.index()[a].1.len() && pre.index()[a].1[k] == x;
                assert(pre.stash_map().contains_key(pre.index()[a].1[k]));
            }
            assert forall|acc: Seq<char>| !(#[trigger] ids_of(self.index(), acc)).contains(stash_id) by {
                if has_account(self.index(), acc) {
                    let q = account_pos(self.index(), acc);
                    lemma_without(pre.index()[q].1, stash_id);
                }
            }
        }
        Ok(Receipt { stash_id, cost: 0, refund: payment.attached })
    }
}

} // verus!
