//! State diffs as the executor emits them, and the writes they stand for.
//!
//! An account is addressed by the 64 nibbles of the hash of its address, a
//! storage slot by those and the 64 nibbles of the hash of its key. A diff
//! that marks an account as no longer existing removes the account's record;
//! a slot is removed by writing a value without a non-zero byte.

use crate::engine::bytes::{all_zero, copy_bytes, is_nibbles, nibbles_of, push_bytes, push_nibbles};
use crate::engine::changes::ChangeSet;
use crate::engine::hash::{keccak, keccak256};
use crate::engine::model::Changes;
use crate::engine::node::bytes_of;
use vstd::bytes::{spec_u128_to_le_bytes, spec_u64_to_le_bytes, u128_to_le_bytes, u64_to_le_bytes};
use vstd::prelude::*;

verus! {

/// A write to one storage slot.
pub struct StorageWrite {
    /// The slot's key.
    pub key: Vec<u8>,
    /// The slot's new value; without a non-zero byte, the slot is removed.
    pub value: Vec<u8>,
}

/// What one execution step did to one account.
pub struct AccountChange {
    /// The account's address.
    pub address: Vec<u8>,
    /// Whether the account exists after the step.
    pub exists: bool,
    /// The account's nonce.
    pub nonce: u64,
    /// The account's balance.
    pub balance: u128,
    /// The hash of the account's code.
    pub code_hash: Vec<u8>,
    /// The writes to the account's storage, in order.
    pub storage: Vec<StorageWrite>,
}

/// What one execution step did to the state: a change for each account it
/// touched. Where an account or a slot occurs twice, the later entry stands.
pub struct StateDiff {
    /// The changed accounts.
    pub accounts: Vec<AccountChange>,
}

/// The path of the account at `address`.
pub open spec fn account_path(address: Seq<u8>) -> Seq<u8> {
    nibbles_of(keccak256(address))
}

/// The path of the slot `key` of the account at `address`.
pub open spec fn slot_path(address: Seq<u8>, key: Seq<u8>) -> Seq<u8> {
    account_path(address) + nibbles_of(keccak256(key))
}

/// The record of an account: its nonce and its balance, little-endian, and
/// the hash of its code.
pub open spec fn account_record(nonce: u64, balance: u128, code_hash: Seq<u8>) -> Seq<u8> {
    spec_u64_to_le_bytes(nonce) + spec_u128_to_le_bytes(balance) + code_hash
}

/// The write that a change makes to the record of its account.
pub open spec fn account_write(a: AccountChange) -> Option<Seq<u8>> {
    if a.exists {
        Some(account_record(a.nonce, a.balance, a.code_hash@))
    } else {
        None
    }
}

/// The write that a value makes to a slot: a value without a non-zero byte
/// removes it.
pub open spec fn slot_write(value: Seq<u8>) -> Option<Seq<u8>> {
    if forall|i: int| 0 <= i < value.len() ==> value[i] == 0 {
        None
    } else {
        Some(value)
    }
}

/// The writes `c`, and then those of `ws` to the storage of the account at
/// `address`, in order.
pub open spec fn with_storage(c: Changes, address: Seq<u8>, ws: Seq<StorageWrite>) -> Changes
    decreases ws.len(),
{
    if ws.len() == 0 {
        c
    } else {
        with_storage(c, address, ws.drop_last()).insert(
            slot_path(address, ws.last().key@),
            slot_write(ws.last().value@),
        )
    }
}

/// The writes `c`, and then those of the account change `a`.
pub open spec fn with_account(c: Changes, a: AccountChange) -> Changes {
    with_storage(c.insert(account_path(a.address@), account_write(a)), a.address@, a.storage@)
}

/// The writes that the account changes stand for, in order.
pub open spec fn changes_of(accounts: Seq<AccountChange>) -> Changes
    decreases accounts.len(),
{
    if accounts.len() == 0 {
        Map::empty()
    } else {
        with_account(changes_of(accounts.drop_last()), accounts.last())
    }
}

/// The path of the account at `address`.
pub fn account_path_of(address: &Vec<u8>) -> (r: Vec<u8>)
    ensures
        r@ == account_path(address@),
        r@.len() == 64,
        is_nibbles(r@),
{
    let h = keccak(address);
    let mut r: Vec<u8> = Vec::new();
    push_nibbles(&mut r, &h);
    proof {
        crate::engine::bytes::lemma_nibbles_of_is_nibbles(h@);
        assert(r@ =~= nibbles_of(h@));
    }
    r
}

/// The path of the slot `key` below the account whose path is `account`.
pub fn slot_path_of(account: &Vec<u8>, key: &Vec<u8>) -> (r: Vec<u8>)
    requires
        account@.len() == 64,
        is_nibbles(account@),
    ensures
        r@ == account@ + nibbles_of(keccak256(key@)),
        r@.len() == 128,
        is_nibbles(r@),
{
    let h = keccak(key);
    let mut r = copy_bytes(account);
    push_nibbles(&mut r, &h);
    proof {
        crate::engine::bytes::lemma_nibbles_of_is_nibbles(h@);
        assert forall|i: int| 0 <= i < r@.len() implies #[trigger] r@[i] < 16 by {
            if i >= 64 {
                assert(r@[i] == nibbles_of(h@)[i - 64]);
            }
        }
    }
    r
}

/// The record of an account.
pub fn account_record_of(nonce: u64, balance: u128, code_hash: &Vec<u8>) -> (r: Vec<u8>)
    ensures
        r@ == account_record(nonce, balance, code_hash@),
{
    let mut r = u64_to_le_bytes(nonce);
    let b = u128_to_le_bytes(balance);
    push_bytes(&mut r, &b);
    push_bytes(&mut r, code_hash);
    r
}

impl AccountChange {
    /// The change that leaves the account at `address` with the given nonce,
    /// balance and code hash, and its storage as it was.
    pub fn new(address: Vec<u8>, nonce: u64, balance: u128, code_hash: Vec<u8>) -> (a:
        AccountChange)
        ensures
            a.address == address,
            a.exists,
            a.nonce == nonce,
            a.balance == balance,
            a.code_hash == code_hash,
            a.storage@.len() == 0,
    {
        AccountChange { address, exists: true, nonce, balance, code_hash, storage: Vec::new() }
    }

    /// The change that removes the record of the account at `address`.
    pub fn removed(address: Vec<u8>) -> (a: AccountChange)
        ensures
            a.address == address,
            !a.exists,
            a.storage@.len() == 0,
    {
        AccountChange {
            address,
            exists: false,
            nonce: 0,
            balance: 0,
            code_hash: Vec::new(),
            storage: Vec::new(),
        }
    }

    /// Adds a write of `value` to the slot `key`.
    pub fn set_slot(&mut self, key: Vec<u8>, value: Vec<u8>)
        ensures
            final(self).address == old(self).address,
            final(self).exists == old(self).exists,
            final(self).nonce == old(self).nonce,
            final(self).balance == old(self).balance,
            final(self).code_hash == old(self).code_hash,
            final(self).storage@ == old(self).storage@.push(StorageWrite { key, value }),
    {
        self.storage.push(StorageWrite { key, value });
    }
}

impl StateDiff {
    /// The diff that changes nothing.
    pub fn new() -> (d: StateDiff)
        ensures
            d.accounts@.len() == 0,
    {
        StateDiff { accounts: Vec::new() }
    }

    /// Adds the change of one account.
    pub fn push(&mut self, change: AccountChange)
        ensures
            final(self).accounts@ == old(self).accounts@.push(change),
    {
        self.accounts.push(change);
    }

    /// The writes that the diff stands for, keyed by hashed path.
    pub fn to_changes(&self) -> (out: ChangeSet)
        ensures
            out.wf(),
            out@ == changes_of(self.accounts@),
    {
        let mut out = ChangeSet::new();
        let mut i: usize = 0;
        while i < self.accounts.len()
            invariant
                i <= self.accounts.len(),
                out.wf(),
                out@ == changes_of(self.accounts@.take(i as int)),
            decreases self.accounts.len() - i,
        {
            let a = &self.accounts[i];
            let path = account_path_of(&a.address);
            let record = if a.exists {
                Some(account_record_of(a.nonce, a.balance, &a.code_hash))
            } else {
                None
            };
            let ok = out.record(copy_bytes(&path), record);
            assert(ok);
            let mut j: usize = 0;
            let ghost start = changes_of(self.accounts@.take(i as int)).insert(
                account_path(a.address@),
                account_write(*a),
            );
            while j < a.storage.len()
                invariant
                    j <= a.storage.len(),
                    out.wf(),
                    path@ == account_path(a.address@),
                    path@.len() == 64,
                    is_nibbles(path@),
                    out@ == with_storage(start, a.address@, a.storage@.take(j as int)),
                decreases a.storage.len() - j,
            {
                let w = &a.storage[j];
                let slot = slot_path_of(&path, &w.key);
                let value = if all_zero(&w.value) {
                    None
                } else {
                    Some(copy_bytes(&w.value))
                };
                assert(bytes_of(value) == slot_write(w.value@));
                let ok = out.record(slot, value);
                assert(ok);
                proof {
                    let now = a.storage@.take(j + 1);
                    assert(now.drop_last() == a.storage@.take(j as int));
                    assert(now.last() == *w);
                }
                j += 1;
            }
            proof {
                assert(a.storage@.take(a.storage@.len() as int) == a.storage@);
                let now = self.accounts@.take(i + 1);
                assert(now.drop_last() == self.accounts@.take(i as int));
                assert(now.last() == *a);
            }
            i += 1;
        }
        assert(self.accounts@.take(self.accounts@.len() as int) == self.accounts@);
        out
    }
}

} // verus!
