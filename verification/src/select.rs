use vstd::prelude::*;
use crate::error::WalletError;
use crate::records::Proof;
use crate::records::pviews;
use crate::records::sum_amounts;
use crate::records::lemma_sum_amounts_take_step;
use crate::records::lemma_sum_amounts_take_le;

verus! {

/// Sums the amounts of a batch of proofs, refusing a total the balance type
/// cannot hold.
pub fn checked_sum(proofs: &Vec<Proof>) -> (r: Option<u64>)
    ensures
        match r {
            Some(t) => t == sum_amounts(pviews(proofs@)),
            None => sum_amounts(pviews(proofs@)) > u64::MAX,
        },
{
    let ghost ws = pviews(proofs@);
    proof {
        assert(ws.take(0int) =~= Seq::<crate::records::ProofV>::empty());
    }
    let mut total: u64 = 0;
    let mut i: usize = 0;
    while i < proofs.len()
        invariant
            i <= proofs@.len(),
            ws == pviews(proofs@),
            ws.len() == proofs@.len(),
            total == sum_amounts(ws.take(i as int)),
        decreases proofs@.len() - i,
    {
        proof {
            lemma_sum_amounts_take_step(ws, i as int);
        }
        let a = proofs[i].amount;
        if a > u64::MAX - total {
            proof {
                lemma_sum_amounts_take_le(ws, i as int + 1);
            }
            return None;
        }
        total = total + a;
        i = i + 1;
    }
    proof {
        assert(ws.take(proofs@.len() as int) =~= ws);
    }
    Some(total)
}

/// Chooses the proofs that cover a payment: walks the proofs in their given
/// order, keeping each one, and stops as soon as the running total strictly
/// exceeds the target (or every proof is taken when the total lands exactly
/// on the target). Fails with `InsufficientFunds` exactly when the target
/// exceeds the total of all proofs. The second value returned is the
/// overshoot: the change the spender is owed.
pub fn select_proofs(proofs: Vec<Proof>, amount: u64) -> (r: Result<(Vec<Proof>, u64), WalletError>)
    requires
        sum_amounts(pviews(proofs@)) <= u64::MAX,
    ensures
        ({
            let ws = pviews(proofs@);
            match r {
                Err(e) => e == WalletError::InsufficientFunds && amount > sum_amounts(ws),
                Ok(so) => {
                    let n = so.0@.len() as int;
                    &&& amount <= sum_amounts(ws)
                    &&& n <= ws.len()
                    &&& pviews(so.0@) == ws.take(n)
                    &&& sum_amounts(ws.take(n)) >= amount
                    &&& so.1 == sum_amounts(ws.take(n)) - amount
                    &&& forall|k: int| 0 <= k < n ==> sum_amounts(ws.take(k)) <= amount
                    &&& (n < ws.len() ==> sum_amounts(ws.take(n)) > amount)
                },
            }
        }),
{
    let ghost ws = pviews(proofs@);
    let total = match checked_sum(&proofs) {
        Some(t) => t,
        None => {
            proof {
                assert(false);
            }
            0
        },
    };
    if amount > total {
        return Err(WalletError::InsufficientFunds);
    }
    let mut sel: Vec<Proof> = Vec::new();
    let mut selsum: u64 = 0;
    let mut i: usize = 0;
    proof {
        assert(ws.take(0int) =~= Seq::<crate::records::ProofV>::empty());
        assert(pviews(sel@) =~= ws.take(0int));
    }
    while i < proofs.len() && selsum <= amount
        invariant
            i <= proofs@.len(),
            ws == pviews(proofs@),
            ws.len() == proofs@.len(),
            sel@.len() == i,
            pviews(sel@) == ws.take(i as int),
            selsum == sum_amounts(ws.take(i as int)),
            sum_amounts(ws) <= u64::MAX,
            amount <= sum_amounts(ws),
            forall|k: int| 0 <= k < i ==> sum_amounts(ws.take(k)) <= amount,
        decreases proofs@.len() - i,
    {
        proof {
            lemma_sum_amounts_take_step(ws, i as int);
            lemma_sum_amounts_take_le(ws, i as int + 1);
        }
        let ghost sel0 = sel@;
        sel.push(proofs[i].clone());
        proof {
            assert forall|j: int| 0 <= j < i + 1 implies pviews(sel@)[j] == ws.take(i as int
                + 1)[j] by {
                if j < i {
                    assert(pviews(sel0)[j] == ws.take(i as int)[j]);
                }
            }
            assert(pviews(sel@) =~= ws.take(i as int + 1));
        }
        selsum = selsum + proofs[i].amount;
        i = i + 1;
    }
    proof {
        if i == proofs@.len() {
            assert(ws.take(i as int) =~= ws);
        }
    }
    Ok((sel, selsum - amount))
}

} // verus!
