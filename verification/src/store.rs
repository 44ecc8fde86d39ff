use vstd::prelude::*;
use crate::records::Invoice;
use crate::records::iviews;
use crate::records::InvoiceV;
use crate::records::Proof;
use crate::records::ProofV;
use crate::records::pviews;
use crate::records::sum_amounts;
use crate::records::lemma_sum_amounts_nonneg;
use crate::records::lemma_sum_amounts_push;
use crate::records::lemma_sum_amounts_update;
use crate::records::lemma_sum_amounts_remove;
use crate::records::lemma_sum_amounts_take_step;
use crate::records::lemma_sum_amounts_take_le;

verus! {

/// No two proofs in the sequence share a secret.
pub open spec fn unique_secrets(s: Seq<ProofV>) -> bool {
    forall|i: int, j: int| #![trigger s[i], s[j]] 0 <= i < j < s.len() ==> s[i].secret != s[j].secret
}

/// Whether some proof in the sequence carries this secret.
pub open spec fn has_secret(s: Seq<ProofV>, secret: Seq<char>) -> bool {
    exists|i: int| #![trigger s[i]] 0 <= i < s.len() && s[i].secret == secret
}

/// The position of the proof carrying this secret.
pub open spec fn secret_index(s: Seq<ProofV>, secret: Seq<char>) -> int {
    choose|i: int| 0 <= i < s.len() && s[i].secret == secret
}

/// What saving a proof does: an upsert keyed by the secret.
pub open spec fn spec_save(s: Seq<ProofV>, p: ProofV) -> Seq<ProofV> {
    if has_secret(s, p.secret) {
        s.update(secret_index(s, p.secret), p)
    } else {
        s.push(p)
    }
}

/// What deleting a secret does: removal if present, nothing otherwise.
pub open spec fn spec_delete(s: Seq<ProofV>, secret: Seq<char>) -> Seq<ProofV> {
    if has_secret(s, secret) {
        s.remove(secret_index(s, secret))
    } else {
        s
    }
}

/// Under unique secrets, any position carrying the secret is the position
/// `secret_index` names.
pub proof fn lemma_secret_index_agrees(s: Seq<ProofV>, secret: Seq<char>, i: int)
    requires
        unique_secrets(s),
        0 <= i < s.len(),
        s[i].secret == secret,
    ensures
        has_secret(s, secret),
        secret_index(s, secret) == i,
{
    assert(has_secret(s, secret));
    let j = secret_index(s, secret);
    assert(0 <= j < s.len() && s[j].secret == secret);
    if i < j {
        assert(s[i].secret != s[j].secret);
    } else if j < i {
        assert(s[j].secret != s[i].secret);
    }
}

/// Saving preserves uniqueness of secrets, keeps the saved record present,
/// and never grows the sum by more than the saved amount.
pub proof fn lemma_save_preserves(s: Seq<ProofV>, p: ProofV)
    requires
        unique_secrets(s),
    ensures
        unique_secrets(spec_save(s, p)),
        has_secret(spec_save(s, p), p.secret),
        sum_amounts(spec_save(s, p)) <= sum_amounts(s) + p.amount,
        sum_amounts(spec_save(s, p)) >= sum_amounts(s) - u64::MAX + p.amount,
{
    if has_secret(s, p.secret) {
        let i = secret_index(s, p.secret);
        assert(0 <= i < s.len() && s[i].secret == p.secret);
        let t = s.update(i, p);
        assert(forall|m: int, n: int| #![trigger t[m], t[n]] 0 <= m < n < t.len() ==> t[m].secret != t[n].secret) by {
            assert(forall|m: int| 0 <= m < t.len() ==> #[trigger] t[m].secret == if m == i {
                p.secret
            } else {
                s[m].secret
            });
        }
        assert(t[i].secret == p.secret);
        lemma_sum_amounts_update(s, i, p);
    } else {
        let t = s.push(p);
        assert(t[s.len() as int].secret == p.secret);
        assert(forall|m: int| 0 <= m < s.len() ==> #[trigger] t[m] == s[m]);
        lemma_sum_amounts_push(s, p);
    }
}

/// Deleting preserves uniqueness and never increases the sum.
pub proof fn lemma_delete_preserves(s: Seq<ProofV>, secret: Seq<char>)
    requires
        unique_secrets(s),
    ensures
        unique_secrets(spec_delete(s, secret)),
        sum_amounts(spec_delete(s, secret)) <= sum_amounts(s),
        sum_amounts(spec_delete(s, secret)) >= 0,
        !has_secret(spec_delete(s, secret), secret),
    decreases s.len(),
{
    lemma_sum_amounts_nonneg(spec_delete(s, secret));
    if has_secret(s, secret) {
        let i = secret_index(s, secret);
        assert(0 <= i < s.len() && s[i].secret == secret);
        let t = s.remove(i);
        assert(forall|m: int| 0 <= m < t.len() ==> #[trigger] t[m] == if m < i {
            s[m]
        } else {
            s[m + 1]
        });
        lemma_sum_amounts_remove(s, i);
        lemma_sum_amounts_nonneg(t);
        assert(!has_secret(t, secret)) by {
            if has_secret(t, secret) {
                let m = choose|m: int| 0 <= m < t.len() && t[m].secret == secret;
                if m < i {
                    assert(s[m].secret != s[i].secret);
                } else {
                    assert(s[i].secret != s[m + 1].secret);
                }
            }
        }
    }
}

/// Saving a proof is idempotent: a second save of the same record changes
/// nothing, and the store then holds exactly one record under that secret
/// (uniqueness plus presence), carrying the latest value.
pub proof fn lemma_save_idempotent(s: Seq<ProofV>, p: ProofV)
    requires
        unique_secrets(s),
    ensures
        spec_save(spec_save(s, p), p) == spec_save(s, p),
        unique_secrets(spec_save(s, p)),
        has_secret(spec_save(s, p), p.secret),
        spec_save(s, p)[secret_index(spec_save(s, p), p.secret)] == p,
{
    lemma_save_preserves(s, p);
    let t = spec_save(s, p);
    if has_secret(s, p.secret) {
        let i = secret_index(s, p.secret);
        assert(0 <= i < s.len() && s[i].secret == p.secret);
        assert(t[i] == p);
        lemma_secret_index_agrees(t, p.secret, i);
        assert(spec_save(t, p) =~= t);
    } else {
        let n = s.len() as int;
        assert(t[n] == p);
        lemma_secret_index_agrees(t, p.secret, n);
        assert(spec_save(t, p) =~= t);
    }
    let j = secret_index(t, p.secret);
    assert(0 <= j < t.len() && t[j].secret == p.secret);
}

/// The secrets of a sequence of proofs, in order.
pub open spec fn secrets_of(ps: Seq<ProofV>) -> Seq<Seq<char>> {
    ps.map_values(|p: ProofV| p.secret)
}

/// What saving a batch of proofs does: one upsert after the other.
pub open spec fn spec_save_all(s: Seq<ProofV>, ps: Seq<ProofV>) -> Seq<ProofV>
    decreases ps.len(),
{
    if ps.len() == 0 {
        s
    } else {
        spec_save_all(spec_save(s, ps.first()), ps.drop_first())
    }
}

/// Saving one more proof after a batch saves it onto the batch's outcome.
pub proof fn lemma_save_all_snoc(s: Seq<ProofV>, ps: Seq<ProofV>, p: ProofV)
    ensures
        spec_save_all(s, ps.push(p)) == spec_save(spec_save_all(s, ps), p),
    decreases ps.len(),
{
    if ps.len() == 0 {
        assert(ps.push(p).drop_first() =~= Seq::<ProofV>::empty());
        assert(ps.push(p).first() == p);
        assert(spec_save_all(s, ps.push(p)) == spec_save_all(
            spec_save(s, p),
            ps.push(p).drop_first(),
        ));
        assert(spec_save_all(spec_save(s, p), ps.push(p).drop_first()) == spec_save(s, p));
        assert(spec_save_all(s, ps) == s);
    } else {
        assert(ps.push(p).drop_first() =~= ps.drop_first().push(p));
        assert(ps.push(p).first() == ps.first());
        assert(spec_save_all(s, ps.push(p)) == spec_save_all(
            spec_save(s, ps.first()),
            ps.drop_first().push(p),
        ));
        assert(spec_save_all(s, ps) == spec_save_all(spec_save(s, ps.first()), ps.drop_first()));
        lemma_save_all_snoc(spec_save(s, ps.first()), ps.drop_first(), p);
    }
}

/// What deleting a batch of secrets does: one removal after the other.
pub open spec fn spec_delete_all(s: Seq<ProofV>, secrets: Seq<Seq<char>>) -> Seq<ProofV>
    decreases secrets.len(),
{
    if secrets.len() == 0 {
        s
    } else {
        spec_delete_all(spec_delete(s, secrets.first()), secrets.drop_first())
    }
}

/// Deleting one more secret after a batch deletes it from the batch's outcome.
pub proof fn lemma_delete_all_snoc(s: Seq<ProofV>, secrets: Seq<Seq<char>>, secret: Seq<char>)
    ensures
        spec_delete_all(s, secrets.push(secret)) == spec_delete(
            spec_delete_all(s, secrets),
            secret,
        ),
    decreases secrets.len(),
{
    if secrets.len() == 0 {
        assert(secrets.push(secret).drop_first() =~= Seq::<Seq<char>>::empty());
        assert(secrets.push(secret).first() == secret);
        assert(spec_delete_all(s, secrets.push(secret)) == spec_delete_all(
            spec_delete(s, secret),
            secrets.push(secret).drop_first(),
        ));
        assert(spec_delete_all(spec_delete(s, secret), secrets.push(secret).drop_first())
            == spec_delete(s, secret));
        assert(spec_delete_all(s, secrets) == s);
    } else {
        assert(secrets.push(secret).drop_first() =~= secrets.drop_first().push(secret));
        assert(secrets.push(secret).first() == secrets.first());
        assert(spec_delete_all(s, secrets.push(secret)) == spec_delete_all(
            spec_delete(s, secrets.first()),
            secrets.drop_first().push(secret),
        ));
        assert(spec_delete_all(s, secrets) == spec_delete_all(
            spec_delete(s, secrets.first()),
            secrets.drop_first(),
        ));
        lemma_delete_all_snoc(spec_delete(s, secrets.first()), secrets.drop_first(), secret);
    }
}

/// No value is created or destroyed when a batch of brand-new proofs is
/// booked: with secrets fresh to the store and pairwise distinct, the stored
/// total grows by exactly the batch's total, and every record becomes its own
/// entry.
pub proof fn lemma_save_all_fresh_sum(s: Seq<ProofV>, ps: Seq<ProofV>)
    requires
        unique_secrets(s),
        unique_secrets(ps),
        forall|i: int| 0 <= i < ps.len() ==> !has_secret(s, #[trigger] ps[i].secret),
    ensures
        sum_amounts(spec_save_all(s, ps)) == sum_amounts(s) + sum_amounts(ps),
        spec_save_all(s, ps).len() == s.len() + ps.len(),
    decreases ps.len(),
{
    if ps.len() == 0 {
        assert(sum_amounts(ps) == 0);
    } else {
        let p0 = ps.first();
        let rest = ps.drop_first();
        assert(ps[0] == p0);
        assert(!has_secret(s, p0.secret));
        let s1 = spec_save(s, p0);
        assert(s1 == s.push(p0));
        lemma_sum_amounts_push(s, p0);
        lemma_save_preserves(s, p0);
        assert(unique_secrets(rest)) by {
            assert(forall|i: int| 0 <= i < rest.len() ==> #[trigger] rest[i] == ps[i + 1]);
        }
        assert forall|i: int| 0 <= i < rest.len() implies !has_secret(
            s1,
            #[trigger] rest[i].secret,
        ) by {
            assert(rest[i] == ps[i + 1]);
            assert(!has_secret(s, ps[i + 1].secret));
            if has_secret(s1, rest[i].secret) {
                let m = choose|m: int| 0 <= m < s1.len() && s1[m].secret == rest[i].secret;
                if m < s.len() {
                    assert(s[m].secret == rest[i].secret);
                } else {
                    assert(s1[m] == p0);
                    assert(ps[0].secret != ps[i + 1].secret);
                }
            }
        }
        lemma_save_all_fresh_sum(s1, rest);
        assert(spec_save_all(s, ps) == spec_save_all(s1, rest));
        assert(sum_amounts(ps) == sum_amounts(rest) + p0.amount) by {
            lemma_sum_first_rest(ps);
        }
    }
}

/// A sum can be split off at the front as well as at the back.
proof fn lemma_sum_first_rest(ps: Seq<ProofV>)
    requires
        ps.len() > 0,
    ensures
        sum_amounts(ps) == ps.first().amount + sum_amounts(ps.drop_first()),
    decreases ps.len(),
{
    if ps.len() == 1 {
        assert(ps.drop_first() =~= Seq::<ProofV>::empty());
        assert(ps.drop_last() =~= Seq::<ProofV>::empty());
        assert(ps.last() == ps.first());
    } else {
        lemma_sum_first_rest(ps.drop_last());
        assert(ps.drop_last().first() == ps.first());
        assert(ps.drop_last().drop_first() =~= ps.drop_first().drop_last());
        assert(ps.drop_first().last() == ps.last());
    }
}

/// The durable, keyed collection of the wallet's own unspent proofs.
///
/// The view is the sequence of stored proof values, in store order; secrets
/// are unique and the total stored value always fits in the balance type.
pub struct ProofStore {
    items: Vec<Proof>,
}

impl View for ProofStore {
    type V = Seq<ProofV>;

    closed spec fn view(&self) -> Seq<ProofV> {
        pviews(self.items@)
    }
}

impl ProofStore {
    /// The store's invariant: unique secrets, and a total value a balance
    /// can report.
    pub open spec fn wf(&self) -> bool {
        unique_secrets(self@) && sum_amounts(self@) <= u64::MAX
    }

    /// An empty store.
    pub fn new() -> (r: Self)
        ensures
            r@ == Seq::<ProofV>::empty(),
            r.wf(),
    {
        let r = ProofStore { items: Vec::new() };
        proof {
            assert(r@ =~= Seq::<ProofV>::empty());
        }
        r
    }

    /// The position of the proof stored under this secret, if any.
    fn find(&self, secret: &String) -> (r: Option<usize>)
        ensures
            match r {
                Some(i) => 0 <= i < self@.len() && self@[i as int].secret == secret@,
                None => !has_secret(self@, secret@),
            },
    {
        let mut i: usize = 0;
        while i < self.items.len()
            invariant
                0 <= i <= self@.len(),
                self@.len() == self.items@.len(),
                forall|j: int| #![trigger self@[j]] 0 <= j < i ==> self@[j].secret != secret@,
            decreases self.items@.len() - i,
        {
            if self.items[i].secret == *secret {
                return Some(i);
            }
            i = i + 1;
        }
        None
    }

    /// Upserts a proof, keyed by its secret: the latest value wins and no
    /// duplicate record is ever created.
    pub fn save(&mut self, p: Proof)
        requires
            old(self).wf(),
            sum_amounts(old(self)@) + p@.amount <= u64::MAX,
        ensures
            final(self)@ == spec_save(old(self)@, p@),
            final(self).wf(),
    {
        proof {
            lemma_save_preserves(old(self)@, p@);
        }
        match self.find(&p.secret) {
            Some(i) => {
                proof {
                    lemma_secret_index_agrees(self@, p@.secret, i as int);
                }
                let ghost items0 = self.items@;
                self.items.remove(i);
                self.items.insert(i, p);
                proof {
                    assert(self.items@ =~= items0.update(i as int, p));
                    assert(self@ =~= spec_save(pviews(items0), p@));
                }
            },
            None => {
                let ghost items0 = self.items@;
                self.items.push(p);
                proof {
                    assert(self@ =~= pviews(items0).push(p@));
                }
            },
        }
    }

    /// Removes the proof stored under this secret; absence is not an error.
    pub fn delete(&mut self, secret: &String)
        requires
            old(self).wf(),
        ensures
            final(self)@ == spec_delete(old(self)@, secret@),
            final(self).wf(),
    {
        proof {
            lemma_delete_preserves(old(self)@, secret@);
        }
        match self.find(secret) {
            Some(i) => {
                proof {
                    lemma_secret_index_agrees(self@, secret@, i as int);
                }
                let ghost items0 = self.items@;
                self.items.remove(i);
                proof {
                    assert(self@ =~= pviews(items0).remove(i as int));
                }
            },
            None => {},
        }
    }

    /// Saves a whole batch of new proofs, one upsert after the other, so a
    /// partial failure can never lose the proofs already written.
    pub fn save_all(&mut self, ps: Vec<Proof>)
        requires
            old(self).wf(),
            sum_amounts(old(self)@) + sum_amounts(pviews(ps@)) <= u64::MAX,
        ensures
            final(self)@ == spec_save_all(old(self)@, pviews(ps@)),
            final(self).wf(),
    {
        let ghost s0 = self@;
        let ghost ws = pviews(ps@);
        proof {
            assert(ws.take(0int) =~= Seq::<ProofV>::empty());
            lemma_sum_amounts_nonneg(ws);
        }
        let mut i: usize = 0;
        while i < ps.len()
            invariant
                i <= ps@.len(),
                ws == pviews(ps@),
                self@ == spec_save_all(s0, ws.take(i as int)),
                self.wf(),
                sum_amounts(self@) <= sum_amounts(s0) + sum_amounts(ws.take(i as int)),
                sum_amounts(s0) + sum_amounts(ws) <= u64::MAX,
            decreases ps@.len() - i,
        {
            proof {
                lemma_sum_amounts_take_step(ws, i as int);
                lemma_sum_amounts_take_le(ws, i as int + 1);
                lemma_save_preserves(self@, ws[i as int]);
                lemma_save_all_snoc(s0, ws.take(i as int), ws[i as int]);
                assert(ws.take(i as int).push(ws[i as int]) =~= ws.take(i as int + 1));
            }
            self.save(ps[i].clone());
            i = i + 1;
        }
        proof {
            assert(ws.take(ps@.len() as int) =~= ws);
        }
    }

    /// Deletes a whole batch of secrets, one after the other.
    pub fn delete_all(&mut self, spent: &Vec<Proof>)
        requires
            old(self).wf(),
        ensures
            final(self)@ == spec_delete_all(old(self)@, secrets_of(pviews(spent@))),
            final(self).wf(),
            sum_amounts(final(self)@) <= sum_amounts(old(self)@),
    {
        let ghost s0 = self@;
        let ghost keys = secrets_of(pviews(spent@));
        proof {
            assert(keys.take(0int) =~= Seq::<Seq<char>>::empty());
        }
        let mut i: usize = 0;
        while i < spent.len()
            invariant
                i <= spent@.len(),
                keys == secrets_of(pviews(spent@)),
                keys.len() == spent@.len(),
                self@ == spec_delete_all(s0, keys.take(i as int)),
                self.wf(),
                sum_amounts(self@) <= sum_amounts(s0),
            decreases spent@.len() - i,
        {
            proof {
                lemma_delete_preserves(self@, keys[i as int]);
                lemma_delete_all_snoc(s0, keys.take(i as int), keys[i as int]);
                assert(keys.take(i as int).push(keys[i as int]) =~= keys.take(i as int + 1));
                assert(keys[i as int] == spent@[i as int]@.secret);
            }
            self.delete(&spent[i].secret);
            i = i + 1;
        }
        proof {
            assert(keys.take(spent@.len() as int) =~= keys);
        }
    }

    /// Every stored proof, in store order.
    pub fn all(&self) -> (r: Vec<Proof>)
        ensures
            pviews(r@) == self@,
    {
        let mut r: Vec<Proof> = Vec::new();
        let mut i: usize = 0;
        while i < self.items.len()
            invariant
                0 <= i <= self.items@.len(),
                self@.len() == self.items@.len(),
                r@.len() == i,
                pviews(r@) =~= self@.take(i as int),
            decreases self.items@.len() - i,
        {
            let ghost r0 = r@;
            r.push(self.items[i].clone());
            proof {
                assert forall|j: int| 0 <= j < i + 1 implies pviews(r@)[j] == self@.take(i as int
                    + 1)[j] by {
                    if j < i {
                        assert(pviews(r0)[j] == self@.take(i as int)[j]);
                    }
                }
                assert(pviews(r@) =~= self@.take(i as int + 1));
            }
            i = i + 1;
        }
        proof {
            assert(self@.take(self.items@.len() as int) =~= self@);
        }
        r
    }

    /// The total value held: the sum of `amount` over all stored proofs.
    pub fn balance(&self) -> (r: u64)
        requires
            self.wf(),
        ensures
            r == sum_amounts(self@),
    {
        let mut total: u64 = 0;
        let mut i: usize = 0;
        proof {
            assert(self@.take(0int) =~= Seq::<ProofV>::empty());
        }
        while i < self.items.len()
            invariant
                self.wf(),
                0 <= i <= self.items@.len(),
                self@.len() == self.items@.len(),
                total == sum_amounts(self@.take(i as int)),
            decreases self.items@.len() - i,
        {
            proof {
                lemma_sum_amounts_take_step(self@, i as int);
                lemma_sum_amounts_take_le(self@, i + 1);
            }
            total = total + self.items[i].amount;
            i = i + 1;
        }
        proof {
            assert(self@.take(self.items@.len() as int) =~= self@);
        }
        total
    }
}

/// No two invoices in the sequence share a payment request.
pub open spec fn unique_prs(s: Seq<InvoiceV>) -> bool {
    forall|i: int, j: int| #![trigger s[i], s[j]] 0 <= i < j < s.len() ==> s[i].pr != s[j].pr
}

/// Whether some invoice in the sequence carries this payment request.
pub open spec fn has_pr(s: Seq<InvoiceV>, pr: Seq<char>) -> bool {
    exists|i: int| #![trigger s[i]] 0 <= i < s.len() && s[i].pr == pr
}

/// The position of the invoice carrying this payment request.
pub open spec fn pr_index(s: Seq<InvoiceV>, pr: Seq<char>) -> int {
    choose|i: int| 0 <= i < s.len() && s[i].pr == pr
}

/// What saving an invoice does: an upsert keyed by the payment request.
pub open spec fn spec_save_invoice(s: Seq<InvoiceV>, inv: InvoiceV) -> Seq<InvoiceV> {
    if has_pr(s, inv.pr) {
        s.update(pr_index(s, inv.pr), inv)
    } else {
        s.push(inv)
    }
}

/// Under unique payment requests, any position carrying the request is the
/// position `pr_index` names.
pub proof fn lemma_pr_index_agrees(s: Seq<InvoiceV>, pr: Seq<char>, i: int)
    requires
        unique_prs(s),
        0 <= i < s.len(),
        s[i].pr == pr,
    ensures
        has_pr(s, pr),
        pr_index(s, pr) == i,
{
    assert(has_pr(s, pr));
    let j = pr_index(s, pr);
    assert(0 <= j < s.len() && s[j].pr == pr);
    if i < j {
        assert(s[i].pr != s[j].pr);
    } else if j < i {
        assert(s[j].pr != s[i].pr);
    }
}

/// A saved invoice stays retrievable under its own payment request, with the
/// value that was saved, and uniqueness of payment requests is preserved.
pub proof fn lemma_saved_invoice_retrievable(s: Seq<InvoiceV>, inv: InvoiceV)
    requires
        unique_prs(s),
    ensures
        unique_prs(spec_save_invoice(s, inv)),
        has_pr(spec_save_invoice(s, inv), inv.pr),
        spec_save_invoice(s, inv)[pr_index(spec_save_invoice(s, inv), inv.pr)] == inv,
{
    let t = spec_save_invoice(s, inv);
    if has_pr(s, inv.pr) {
        let i = pr_index(s, inv.pr);
        assert(0 <= i < s.len() && s[i].pr == inv.pr);
        assert(forall|m: int, n: int| #![trigger t[m], t[n]] 0 <= m < n < t.len() ==> t[m].pr
            != t[n].pr) by {
            assert(forall|m: int| 0 <= m < t.len() ==> #[trigger] t[m].pr == if m == i {
                inv.pr
            } else {
                s[m].pr
            });
        }
        lemma_pr_index_agrees(t, inv.pr, i);
    } else {
        let n = s.len() as int;
        assert(t[n].pr == inv.pr);
        assert(forall|m: int| 0 <= m < n ==> #[trigger] t[m] == s[m]);
        lemma_pr_index_agrees(t, inv.pr, n);
    }
}

/// The durable, keyed collection of the wallet's outstanding mint invoices.
///
/// The view is the sequence of stored invoice values, in store order, with
/// payment requests unique.
pub struct InvoiceStore {
    items: Vec<Invoice>,
}

impl View for InvoiceStore {
    type V = Seq<InvoiceV>;

    closed spec fn view(&self) -> Seq<InvoiceV> {
        iviews(self.items@)
    }
}

impl InvoiceStore {
    /// The store's invariant: payment requests are unique.
    pub open spec fn wf(&self) -> bool {
        unique_prs(self@)
    }

    /// An empty store.
    pub fn new() -> (r: Self)
        ensures
            r@ == Seq::<InvoiceV>::empty(),
            r.wf(),
    {
        let r = InvoiceStore { items: Vec::new() };
        proof {
            assert(r@ =~= Seq::<InvoiceV>::empty());
        }
        r
    }

    /// The position of the invoice stored under this payment request, if any.
    fn find(&self, pr: &String) -> (r: Option<usize>)
        ensures
            match r {
                Some(i) => 0 <= i < self@.len() && self@[i as int].pr == pr@,
                None => !has_pr(self@, pr@),
            },
    {
        let mut i: usize = 0;
        while i < self.items.len()
            invariant
                0 <= i <= self@.len(),
                self@.len() == self.items@.len(),
                forall|j: int| #![trigger self@[j]] 0 <= j < i ==> self@[j].pr != pr@,
            decreases self.items@.len() - i,
        {
            if self.items[i].pr == *pr {
                return Some(i);
            }
            i = i + 1;
        }
        None
    }

    /// Upserts an invoice, keyed by its payment request.
    pub fn save(&mut self, inv: Invoice)
        requires
            old(self).wf(),
        ensures
            final(self)@ == spec_save_invoice(old(self)@, inv@),
            final(self).wf(),
    {
        proof {
            lemma_saved_invoice_retrievable(old(self)@, inv@);
        }
        match self.find(&inv.pr) {
            Some(i) => {
                proof {
                    lemma_pr_index_agrees(self@, inv@.pr, i as int);
                }
                let ghost items0 = self.items@;
                self.items.remove(i);
                self.items.insert(i, inv);
                proof {
                    assert(self.items@ =~= items0.update(i as int, inv));
                    assert(self@ =~= iviews(items0).update(i as int, inv@));
                }
            },
            None => {
                let ghost items0 = self.items@;
                self.items.push(inv);
                proof {
                    assert(self@ =~= iviews(items0).push(inv@));
                }
            },
        }
    }

    /// Looks an invoice up by its payment request.
    pub fn get(&self, pr: &String) -> (r: Option<Invoice>)
        requires
            self.wf(),
        ensures
            match r {
                Some(inv) => has_pr(self@, pr@) && inv@ == self@[pr_index(self@, pr@)],
                None => !has_pr(self@, pr@),
            },
    {
        match self.find(pr) {
            Some(i) => {
                proof {
                    lemma_pr_index_agrees(self@, pr@, i as int);
                }
                Some(self.items[i].clone())
            },
            None => None,
        }
    }
}

} // verus!
