//! The state the mirror is seeded with at startup: the multicaller
//! contract's code and each signer's balance and nonce.
use vstd::prelude::*;

use crate::evm_db::code_view;
use crate::primitives::{Address, Word};
use crate::state_update::{AccountDiff, GethStateUpdate};

verus! {

/// The update that seeds the multicaller (balance zero, its code, no nonce)
/// and then each signer `(address, nonce, balance)` (no code), in that order.
pub fn preload_update(multicaller: Address, code: Vec<u8>, signers: &Vec<(Address, u64, Word)>) -> (r: GethStateUpdate)
    requires
        forall|i: int| 0 <= i < signers@.len() ==> signers@[i].0 != multicaller,
        forall|i: int, j: int| 0 <= i < j < signers@.len() ==> signers@[i].0 != signers@[j].0,
    ensures
        r.wf(),
        r@.len() == signers@.len() + 1,
        r@[0].0 == multicaller,
        r@[0].1.balance == Some(Word { l0: 0, l1: 0, l2: 0, l3: 0 }),
        r@[0].1.nonce is None,
        code_view(r@[0].1.code) == Some(code@),
        r@[0].1.storage@.len() == 0,
        forall|i: int|
            0 <= i < signers@.len() ==> r@[i + 1].0 == signers@[i].0 && r@[i + 1].1.balance == Some(
                signers@[i].2,
            ) && r@[i + 1].1.nonce == Some(signers@[i].1) && r@[i + 1].1.code is None
                && r@[i + 1].1.storage@.len() == 0,
{
    let ghost code_seq = code@;
    let mut r = GethStateUpdate::new();
    r.insert(multicaller, AccountDiff::new(Some(Word::zero()), None, Some(code)));
    let mut i: usize = 0;
    while i < signers.len()
        invariant
            0 <= i <= signers@.len(),
            forall|q: int| 0 <= q < signers@.len() ==> signers@[q].0 != multicaller,
            forall|p: int, q: int| 0 <= p < q < signers@.len() ==> signers@[p].0 != signers@[q].0,
            r.wf(),
            r@.len() == i + 1,
            r@[0].0 == multicaller,
            r@[0].1.balance == Some(Word { l0: 0, l1: 0, l2: 0, l3: 0 }),
            r@[0].1.nonce is None,
            code_view(r@[0].1.code) == Some(code_seq),
            r@[0].1.storage@.len() == 0,
            forall|q: int|
                0 <= q < i ==> r@[q + 1].0 == signers@[q].0 && r@[q + 1].1.balance == Some(signers@[q].2)
                    && r@[q + 1].1.nonce == Some(signers@[q].1) && r@[q + 1].1.code is None
                    && r@[q + 1].1.storage@.len() == 0,
        decreases signers@.len() - i,
    {
        let (address, nonce, balance) = signers[i];
        proof {
            assert forall|q: int| 0 <= q < r@.len() implies r@[q].0 != address by {
                if q > 0 {
                    assert(signers@[q - 1].0 != signers@[i as int].0);
                }
            }
        }
        r.insert(address, AccountDiff::new(Some(balance), Some(nonce), None));
        i = i + 1;
    }
    r
}

} // verus!
