use vstd::prelude::*;
use crate::amounts::is_denomination;
use crate::amounts::split_amount;
use crate::error::WalletError;
use crate::records::Invoice;
use crate::records::InvoiceV;
use crate::records::Proof;
use crate::records::ProofV;
use crate::records::pviews;
use crate::records::sum_amounts;
use crate::records::sum_u64s;
use crate::records::lemma_sum_matches;
use crate::records::lemma_sum_amounts_take_le;
use crate::select::checked_sum;
use crate::select::select_proofs;
use crate::store::InvoiceStore;
use crate::store::ProofStore;
use crate::store::has_pr;
use crate::store::pr_index;
use crate::store::lemma_saved_invoice_retrievable;
use crate::store::secrets_of;
use crate::store::spec_delete_all;
use crate::store::spec_save;
use crate::store::spec_save_all;
use crate::store::spec_save_invoice;
use crate::token::Token;
use crate::token::TokenV;
use crate::token::encode_token;
use crate::token::parse_token;
use crate::token::spec_encode_token;
use crate::token::spec_parse_token;

verus! {

/// The blinded outputs to ask the crypto engine for when redeeming one
/// invoice: one blinded message per denomination, handed to the mint together
/// with the invoice's hash.
#[derive(Debug)]
pub struct MintPlan {
    pub hash: String,
    pub outputs: Vec<u64>,
}

/// The whole local side of one send: the proofs to spend, the denominations
/// of the payment outputs and of the change outputs. The mint is asked to
/// split the selected proofs into blinded outputs for `pay_outputs` followed
/// by `change_outputs`, in that order; outputs are later paired with these
/// requests by position, never by amount, so equal denominations cannot be
/// mixed up.
#[derive(Debug)]
pub struct SendPlan {
    pub amount: u64,
    pub selected: Vec<Proof>,
    pub pay_outputs: Vec<u64>,
    pub change_outputs: Vec<u64>,
}

impl SendPlan {
    /// The plan's accounting invariant: the payment outputs re-mint exactly
    /// the requested amount, and payment plus change re-mint exactly the
    /// selected value — nothing is created or destroyed.
    pub open spec fn wf(&self) -> bool {
        &&& sum_u64s(self.pay_outputs@) == self.amount
        &&& sum_u64s(self.pay_outputs@) + sum_u64s(self.change_outputs@) == sum_amounts(
            pviews(self.selected@),
        )
        &&& sum_amounts(pviews(self.selected@)) <= u64::MAX
        &&& forall|i: int|
            0 <= i < self.pay_outputs@.len() ==> #[trigger] is_denomination(self.pay_outputs@[i])
        &&& forall|i: int|
            0 <= i < self.change_outputs@.len() ==> #[trigger] is_denomination(
                self.change_outputs@[i],
            )
    }

    /// The pay and change outputs merged into the single batch submitted to
    /// the mint: concatenation, so every output keeps its ordinal position
    /// and the per-index alignment of the batches is preserved.
    pub fn merged_outputs(&self) -> (r: Vec<u64>)
        ensures
            r@ == self.pay_outputs@ + self.change_outputs@,
    {
        let mut r: Vec<u64> = Vec::new();
        let mut i: usize = 0;
        while i < self.pay_outputs.len()
            invariant
                i <= self.pay_outputs@.len(),
                r@ == self.pay_outputs@.take(i as int),
            decreases self.pay_outputs@.len() - i,
        {
            r.push(self.pay_outputs[i]);
            proof {
                assert(r@ =~= self.pay_outputs@.take(i as int + 1));
            }
            i = i + 1;
        }
        proof {
            assert(self.pay_outputs@.take(self.pay_outputs@.len() as int) =~= self.pay_outputs@);
        }
        let mut j: usize = 0;
        while j < self.change_outputs.len()
            invariant
                j <= self.change_outputs@.len(),
                r@ == self.pay_outputs@ + self.change_outputs@.take(j as int),
            decreases self.change_outputs@.len() - j,
        {
            r.push(self.change_outputs[j]);
            proof {
                assert(r@ =~= self.pay_outputs@ + self.change_outputs@.take(j as int + 1));
            }
            j = j + 1;
        }
        proof {
            assert(self.pay_outputs@ + self.change_outputs@.take(self.change_outputs@.len() as int)
                =~= self.pay_outputs@ + self.change_outputs@);
        }
        r
    }
}

/// The blinded outputs to ask the crypto engine for when receiving a token:
/// the token's own proofs become the split's inputs, and `outputs` re-mints
/// their whole value under fresh local secrets.
#[derive(Debug)]
pub struct ReceivePlan {
    pub inputs: Vec<Proof>,
    pub outputs: Vec<u64>,
}

/// The wallet core: the two stores and the identifier of the one mint this
/// wallet talks to. The crypto engine and the mint transport stay outside;
/// every flow here either prepares an exact plan for them or books their
/// results.
pub struct Wallet {
    pub proofs: ProofStore,
    pub invoices: InvoiceStore,
    pub mint_url: String,
}

impl Wallet {
    /// Both stores are well formed.
    pub open spec fn wf(&self) -> bool {
        self.proofs.wf() && self.invoices.wf()
    }

    /// A fresh wallet for one mint, with empty stores. The surrounding
    /// program reloads persisted records through `save_proof` and
    /// `save_invoice`.
    pub fn build(mint_url: &str) -> (w: Wallet)
        ensures
            w.wf(),
            w.proofs@ == Seq::<ProofV>::empty(),
            w.invoices@ == Seq::<InvoiceV>::empty(),
            w.mint_url@ == mint_url@,
    {
        Wallet {
            proofs: ProofStore::new(),
            invoices: InvoiceStore::new(),
            mint_url: mint_url.to_owned(),
        }
    }

    /// The spendable balance: the sum of the stored proofs' amounts.
    pub fn get_balance(&self) -> (r: u64)
        requires
            self.wf(),
        ensures
            r == sum_amounts(self.proofs@),
    {
        self.proofs.balance()
    }

    /// Books one proof, keyed by its secret; saving the same secret again
    /// overwrites and never duplicates.
    pub fn save_proof(&mut self, p: Proof)
        requires
            old(self).wf(),
            sum_amounts(old(self).proofs@) + p@.amount <= u64::MAX,
        ensures
            final(self).wf(),
            final(self).proofs@ == spec_save(old(self).proofs@, p@),
            final(self).invoices@ == old(self).invoices@,
            final(self).mint_url == old(self).mint_url,
    {
        self.proofs.save(p);
    }

    /// Books one invoice, keyed by its payment request.
    pub fn save_invoice(&mut self, inv: Invoice)
        requires
            old(self).wf(),
        ensures
            final(self).wf(),
            final(self).invoices@ == spec_save_invoice(old(self).invoices@, inv@),
            final(self).proofs@ == old(self).proofs@,
            final(self).mint_url == old(self).mint_url,
    {
        self.invoices.save(inv);
    }

    /// Looks an invoice up by its payment request.
    pub fn get_invoice(&self, pr: &String) -> (r: Option<Invoice>)
        requires
            self.wf(),
        ensures
            match r {
                Some(inv) => has_pr(self.invoices@, pr@) && inv@ == self.invoices@[pr_index(
                    self.invoices@,
                    pr@,
                )],
                None => !has_pr(self.invoices@, pr@),
            },
    {
        self.invoices.get(pr)
    }

    /// Books the invoice the mint transport obtained for `amount`: after the
    /// call the invoice is stored and retrievable under its own payment
    /// request, with the same amount.
    pub fn request_mint(&mut self, amount: u64, pr: String, hash: String) -> (inv: Invoice)
        requires
            old(self).wf(),
        ensures
            final(self).wf(),
            inv@ == (InvoiceV { hash: hash@, pr: pr@, amount }),
            final(self).invoices@ == spec_save_invoice(old(self).invoices@, inv@),
            has_pr(final(self).invoices@, pr@),
            final(self).invoices@[pr_index(final(self).invoices@, pr@)] == inv@,
            final(self).proofs@ == old(self).proofs@,
            final(self).mint_url == old(self).mint_url,
    {
        let inv = Invoice { hash, pr, amount };
        proof {
            lemma_saved_invoice_retrievable(self.invoices@, inv@);
        }
        self.invoices.save(inv.clone());
        inv
    }

    /// Starts redeeming a paid invoice: looks it up by payment request —
    /// failing with `InvoiceNotFound` exactly when no such invoice was ever
    /// saved — and plans one blinded batch re-minting the invoice's amount.
    pub fn mint_tokens(&self, pr: &String) -> (r: Result<MintPlan, WalletError>)
        requires
            self.wf(),
        ensures
            match r {
                Ok(plan) => has_pr(self.invoices@, pr@) && {
                    let inv = self.invoices@[pr_index(self.invoices@, pr@)];
                    &&& plan.hash@ == inv.hash
                    &&& sum_u64s(plan.outputs@) == inv.amount
                    &&& forall|i: int|
                        0 <= i < plan.outputs@.len() ==> #[trigger] is_denomination(
                            plan.outputs@[i],
                        )
                },
                Err(e) => e == WalletError::InvoiceNotFound && !has_pr(self.invoices@, pr@),
            },
    {
        match self.invoices.get(pr) {
            None => Err(WalletError::InvoiceNotFound),
            Some(inv) => Ok(MintPlan { hash: inv.hash, outputs: split_amount(inv.amount) }),
        }
    }

    /// Books the proofs the crypto engine unblinded from the mint's promises,
    /// one upsert at a time, for the mint and receive flows.
    pub fn store_new_proofs(&mut self, new_proofs: Vec<Proof>)
        requires
            old(self).wf(),
            sum_amounts(old(self).proofs@) + sum_amounts(pviews(new_proofs@)) <= u64::MAX,
        ensures
            final(self).wf(),
            final(self).proofs@ == spec_save_all(old(self).proofs@, pviews(new_proofs@)),
            final(self).invoices@ == old(self).invoices@,
            final(self).mint_url == old(self).mint_url,
    {
        self.proofs.save_all(new_proofs);
    }

    /// Starts a send: selects the proofs to spend, in store order, and plans
    /// the pay and change output batches. Fails with `InsufficientFunds`
    /// exactly when `amount` exceeds the balance; a change batch is planned
    /// only for a nonzero overshoot, since an amount of zero splits into no
    /// denominations at all.
    pub fn send(&self, amount: u64) -> (r: Result<SendPlan, WalletError>)
        requires
            self.wf(),
        ensures
            match r {
                Err(e) => e == WalletError::InsufficientFunds && amount > sum_amounts(
                    self.proofs@,
                ),
                Ok(plan) => {
                    let n = plan.selected@.len() as int;
                    &&& amount <= sum_amounts(self.proofs@)
                    &&& plan.wf()
                    &&& plan.amount == amount
                    &&& n <= self.proofs@.len()
                    &&& pviews(plan.selected@) == self.proofs@.take(n)
                    &&& sum_amounts(pviews(plan.selected@)) >= amount
                    &&& forall|k: int|
                        0 <= k < n ==> sum_amounts(#[trigger] self.proofs@.take(k)) <= amount
                    &&& (n < self.proofs@.len() ==> sum_amounts(pviews(plan.selected@)) > amount)
                },
            },
    {
        let all = self.proofs.all();
        match select_proofs(all, amount) {
            Err(e) => Err(e),
            Ok((selected, overshoot)) => {
                proof {
                    lemma_sum_amounts_take_le(self.proofs@, selected@.len() as int);
                }
                let pay_outputs = split_amount(amount);
                let change_outputs = split_amount(overshoot);
                Ok(SendPlan { amount, selected, pay_outputs, change_outputs })
            },
        }
    }

    /// Finishes a send, after the mint signed the split and the crypto engine
    /// unblinded the new proofs. The mint's answer is held against the plan
    /// first — wrong output count or denominations fail with `ProtocolError`
    /// and leave the store untouched. Then, in one step, the spent proofs
    /// are deleted, the change proofs (paired with the plan by ordinal
    /// position) are booked, and the pay proofs are encoded as the token to
    /// hand out, whose total is exactly the sent amount.
    pub fn send_finish(&mut self, plan: &SendPlan, new_proofs: Vec<Proof>) -> (r: Result<
        String,
        WalletError,
    >)
        requires
            old(self).wf(),
            plan.wf(),
            sum_amounts(old(self).proofs@) + sum_u64s(plan.change_outputs@) <= u64::MAX,
        ensures
            final(self).wf(),
            final(self).invoices@ == old(self).invoices@,
            final(self).mint_url == old(self).mint_url,
            ({
                let merged = plan.pay_outputs@ + plan.change_outputs@;
                let k = plan.pay_outputs@.len() as int;
                let pay = pviews(new_proofs@).take(k);
                let change = pviews(new_proofs@).skip(k);
                let matches = new_proofs@.len() == merged.len() && (forall|i: int|
                    0 <= i < merged.len() ==> pviews(new_proofs@)[i].amount == #[trigger] merged[i]);
                match r {
                    Ok(token) => {
                        &&& matches
                        &&& sum_amounts(pay) == plan.amount
                        &&& token@ == spec_encode_token(
                            TokenV { mint: old(self).mint_url@, proofs: pay },
                        )
                        &&& final(self).proofs@ == spec_save_all(
                            spec_delete_all(
                                old(self).proofs@,
                                secrets_of(pviews(plan.selected@)),
                            ),
                            change,
                        )
                    },
                    Err(e) => e == WalletError::ProtocolError && !matches && final(self).proofs@
                        == old(self).proofs@,
                }
            }),
    {
        let ghost merged = plan.pay_outputs@ + plan.change_outputs@;
        let k = plan.pay_outputs.len();
        if new_proofs.len() < k || new_proofs.len() - k != plan.change_outputs.len() {
            return Err(WalletError::ProtocolError);
        }
        let mut i: usize = 0;
        while i < new_proofs.len()
            invariant
                i <= new_proofs@.len(),
                new_proofs@.len() == merged.len(),
                merged == plan.pay_outputs@ + plan.change_outputs@,
                k == plan.pay_outputs@.len(),
                self == old(self),
                old(self).wf(),
                forall|j: int|
                    0 <= j < i ==> pviews(new_proofs@)[j].amount == #[trigger] merged[j],
            decreases new_proofs@.len() - i,
        {
            let want = if i < k {
                plan.pay_outputs[i]
            } else {
                plan.change_outputs[i - k]
            };
            proof {
                assert(merged[i as int] == want);
            }
            if new_proofs[i].amount != want {
                return Err(WalletError::ProtocolError);
            }
            i = i + 1;
        }
        let ghost pay = pviews(new_proofs@).take(k as int);
        let ghost change = pviews(new_proofs@).skip(k as int);
        let mut pay_vec: Vec<Proof> = Vec::new();
        let mut j: usize = 0;
        proof {
            assert(pviews(pay_vec@) =~= pay.take(0int));
        }
        while j < k
            invariant
                j <= k,
                k <= new_proofs@.len(),
                pay == pviews(new_proofs@).take(k as int),
                pay_vec@.len() == j,
                pviews(pay_vec@) == pay.take(j as int),
            decreases k - j,
        {
            let ghost pv0 = pay_vec@;
            pay_vec.push(new_proofs[j].clone());
            proof {
                assert forall|m: int| 0 <= m < j + 1 implies pviews(pay_vec@)[m] == pay.take(
                    j as int + 1,
                )[m] by {
                    if m < j {
                        assert(pviews(pv0)[m] == pay.take(j as int)[m]);
                    }
                }
                assert(pviews(pay_vec@) =~= pay.take(j as int + 1));
            }
            j = j + 1;
        }
        proof {
            assert(pay.take(k as int) =~= pay);
        }
        let mut change_vec: Vec<Proof> = Vec::new();
        let mut m: usize = k;
        proof {
            assert(pviews(change_vec@) =~= change.take(0int));
        }
        while m < new_proofs.len()
            invariant
                k <= m <= new_proofs@.len(),
                change == pviews(new_proofs@).skip(k as int),
                change_vec@.len() == m - k,
                pviews(change_vec@) == change.take(m - k as int),
            decreases new_proofs@.len() - m,
        {
            let ghost cv0 = change_vec@;
            change_vec.push(new_proofs[m].clone());
            proof {
                assert forall|q: int| 0 <= q < m + 1 - k implies pviews(change_vec@)[q]
                    == change.take(m + 1 - k as int)[q] by {
                    if q < m - k {
                        assert(pviews(cv0)[q] == change.take(m - k as int)[q]);
                    }
                    assert(change[q] == pviews(new_proofs@)[k + q]);
                }
                assert(pviews(change_vec@) =~= change.take(m + 1 - k as int));
            }
            m = m + 1;
        }
        proof {
            assert(change.take(new_proofs@.len() - k as int) =~= change);
        }
        proof {
            assert forall|q: int| 0 <= q < change.len() implies #[trigger] change[q].amount
                == plan.change_outputs@[q] by {
                assert(pviews(new_proofs@)[k + q].amount == merged[k + q]);
            }
            lemma_sum_matches(change, plan.change_outputs@);
            assert forall|q: int| 0 <= q < pay.len() implies #[trigger] pay[q].amount
                == plan.pay_outputs@[q] by {
                assert(pviews(new_proofs@)[q].amount == merged[q]);
            }
            lemma_sum_matches(pay, plan.pay_outputs@);
        }
        self.proofs.delete_all(&plan.selected);
        self.proofs.save_all(change_vec);
        let token = Token { mint: self.mint_url.clone(), proofs: pay_vec };
        let encoded = encode_token(&token);
        Ok(encoded)
    }

    /// Starts a receive: parses the token — failing with
    /// `SerializationError` exactly on strings no token encodes to — and
    /// plans one blinded batch re-minting the token's whole value under
    /// fresh local secrets, with the token's proofs as the split's inputs.
    /// A token whose amounts overflow the balance fails with
    /// `ProtocolError`.
    pub fn receive(&self, token: &str) -> (r: Result<ReceivePlan, WalletError>)
        ensures
            match r {
                Ok(plan) => (match spec_parse_token(token@) {
                    Some(tv) => {
                        &&& pviews(plan.inputs@) == tv.proofs
                        &&& sum_amounts(tv.proofs) <= u64::MAX
                        &&& sum_u64s(plan.outputs@) == sum_amounts(tv.proofs)
                        &&& forall|i: int|
                            0 <= i < plan.outputs@.len() ==> #[trigger] is_denomination(
                                plan.outputs@[i],
                            )
                    },
                    None => false,
                }),
                Err(e) => (match spec_parse_token(token@) {
                    Some(tv) => e == WalletError::ProtocolError && sum_amounts(tv.proofs)
                        > u64::MAX,
                    None => e == WalletError::SerializationError,
                }),
            },
    {
        let t = match parse_token(token) {
            Ok(t) => t,
            Err(e) => {
                return Err(e);
            },
        };
        match checked_sum(&t.proofs) {
            None => Err(WalletError::ProtocolError),
            Some(total) => Ok(ReceivePlan { inputs: t.proofs, outputs: split_amount(total) }),
        }
    }
}

} // verus!
