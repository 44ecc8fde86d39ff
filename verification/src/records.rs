use vstd::prelude::*;

verus! {

/// One spendable proof: a denomination `amount` (in the smallest currency
/// unit), the unique `secret` that was blinded, and the mint's signature
/// material `c`, which is opaque to this core and owned by the crypto engine.
#[derive(Debug)]
pub struct Proof {
    pub amount: u64,
    pub secret: String,
    pub c: String,
}

/// The mathematical value of a `Proof`.
#[verifier::ext_equal]
pub ghost struct ProofV {
    pub amount: u64,
    pub secret: Seq<char>,
    pub c: Seq<char>,
}

impl View for Proof {
    type V = ProofV;

    open spec fn view(&self) -> ProofV {
        ProofV { amount: self.amount, secret: self.secret@, c: self.c@ }
    }
}

impl Clone for Proof {
    fn clone(&self) -> (r: Self)
        ensures
            r@ == self@,
    {
        Proof { amount: self.amount, secret: self.secret.clone(), c: self.c.clone() }
    }
}

/// An outstanding mint invoice: the mint-assigned `hash`, the payment
/// request `pr` (the storage key), and the invoiced `amount`.
#[derive(Debug)]
pub struct Invoice {
    pub hash: String,
    pub pr: String,
    pub amount: u64,
}

/// The mathematical value of an `Invoice`.
#[verifier::ext_equal]
pub ghost struct InvoiceV {
    pub hash: Seq<char>,
    pub pr: Seq<char>,
    pub amount: u64,
}

impl View for Invoice {
    type V = InvoiceV;

    open spec fn view(&self) -> InvoiceV {
        InvoiceV { hash: self.hash@, pr: self.pr@, amount: self.amount }
    }
}

impl Clone for Invoice {
    fn clone(&self) -> (r: Self)
        ensures
            r@ == self@,
    {
        Invoice { hash: self.hash.clone(), pr: self.pr.clone(), amount: self.amount }
    }
}

/// The values of a sequence of proofs.
pub open spec fn pviews(s: Seq<Proof>) -> Seq<ProofV> {
    s.map_values(|p: Proof| p@)
}

/// The values of a sequence of invoices.
pub open spec fn iviews(s: Seq<Invoice>) -> Seq<InvoiceV> {
    s.map_values(|inv: Invoice| inv@)
}

/// The total value of a sequence of proofs.
pub open spec fn sum_amounts(s: Seq<ProofV>) -> int
    decreases s.len(),
{
    if s.len() == 0 {
        0
    } else {
        sum_amounts(s.drop_last()) + s.last().amount
    }
}

/// The sum of a sequence of denominations.
pub open spec fn sum_u64s(s: Seq<u64>) -> int
    decreases s.len(),
{
    if s.len() == 0 {
        0
    } else {
        sum_u64s(s.drop_last()) + s.last()
    }
}

/// A sum of proof amounts is never negative.
pub proof fn lemma_sum_amounts_nonneg(s: Seq<ProofV>)
    ensures
        sum_amounts(s) >= 0,
    decreases s.len(),
{
    if s.len() > 0 {
        lemma_sum_amounts_nonneg(s.drop_last());
    }
}

/// A sum of denominations is never negative.
pub proof fn lemma_sum_u64s_nonneg(s: Seq<u64>)
    ensures
        sum_u64s(s) >= 0,
    decreases s.len(),
{
    if s.len() > 0 {
        lemma_sum_u64s_nonneg(s.drop_last());
    }
}

/// Extending a prefix by one proof adds that proof's amount to its sum.
pub proof fn lemma_sum_amounts_take_step(s: Seq<ProofV>, i: int)
    requires
        0 <= i < s.len(),
    ensures
        sum_amounts(s.take(i + 1)) == sum_amounts(s.take(i)) + s[i].amount,
{
    assert(s.take(i + 1).drop_last() =~= s.take(i));
    assert(s.take(i + 1).last() == s[i]);
}

/// A prefix of a sequence of proofs never sums to more than the whole.
pub proof fn lemma_sum_amounts_take_le(s: Seq<ProofV>, i: int)
    requires
        0 <= i <= s.len(),
    ensures
        sum_amounts(s.take(i)) <= sum_amounts(s),
    decreases s.len() - i,
{
    if i == s.len() {
        assert(s.take(i) =~= s);
    } else {
        lemma_sum_amounts_take_step(s, i);
        lemma_sum_amounts_take_le(s, i + 1);
    }
}

/// Appending a proof adds its amount to the sum.
pub proof fn lemma_sum_amounts_push(s: Seq<ProofV>, p: ProofV)
    ensures
        sum_amounts(s.push(p)) == sum_amounts(s) + p.amount,
{
    assert(s.push(p).drop_last() =~= s);
}

/// Replacing one proof shifts the sum by the difference of the amounts.
pub proof fn lemma_sum_amounts_update(s: Seq<ProofV>, i: int, p: ProofV)
    requires
        0 <= i < s.len(),
    ensures
        sum_amounts(s.update(i, p)) == sum_amounts(s) - s[i].amount + p.amount,
    decreases s.len(),
{
    if i == s.len() - 1 {
        assert(s.update(i, p).drop_last() =~= s.drop_last());
        assert(s.update(i, p).last() == p);
    } else {
        assert(s.update(i, p).drop_last() =~= s.drop_last().update(i, p));
        assert(s.update(i, p).last() == s.last());
        lemma_sum_amounts_update(s.drop_last(), i, p);
    }
}

/// Proofs whose amounts match a list of denominations one by one sum to the
/// same total.
pub proof fn lemma_sum_matches(ps: Seq<ProofV>, ds: Seq<u64>)
    requires
        ps.len() == ds.len(),
        forall|i: int| 0 <= i < ps.len() ==> #[trigger] ps[i].amount == ds[i],
    ensures
        sum_amounts(ps) == sum_u64s(ds),
    decreases ps.len(),
{
    if ps.len() > 0 {
        assert(forall|i: int| 0 <= i < ps.drop_last().len() ==> #[trigger] ps.drop_last()[i].amount
            == ds.drop_last()[i]);
        lemma_sum_matches(ps.drop_last(), ds.drop_last());
    }
}

/// Removing one proof subtracts its amount from the sum.
pub proof fn lemma_sum_amounts_remove(s: Seq<ProofV>, i: int)
    requires
        0 <= i < s.len(),
    ensures
        sum_amounts(s.remove(i)) == sum_amounts(s) - s[i].amount,
    decreases s.len(),
{
    if i == s.len() - 1 {
        assert(s.remove(i) =~= s.drop_last());
    } else {
        assert(s.remove(i).drop_last() =~= s.drop_last().remove(i));
        assert(s.remove(i).last() == s.last());
        lemma_sum_amounts_remove(s.drop_last(), i);
    }
}

} // verus!
