use vstd::prelude::*;
use vstd::string::StrSliceExecFns;
use vstd::string::StringExecFns;
use crate::error::WalletError;
use crate::hexnum::hex16;
use crate::hexnum::lemma_hex_fold_short;
use crate::hexnum::lemma_parse_hex16_of_hex16;
use crate::hexnum::lemma_parse_hex16_sound;
use crate::hexnum::parse_hex16;
use crate::hexnum::push_hex16;
use crate::hexnum::read_hex16;
use crate::records::Proof;
use crate::records::ProofV;
use crate::records::pviews;
use crate::records::sum_amounts;

verus! {

/// A portable bundle of proofs plus the identifier of the mint that signed
/// them, for out-of-band transfer between wallets.
#[derive(Debug)]
pub struct Token {
    pub mint: String,
    pub proofs: Vec<Proof>,
}

/// The mathematical value of a `Token`.
#[verifier::ext_equal]
pub ghost struct TokenV {
    pub mint: Seq<char>,
    pub proofs: Seq<ProofV>,
}

impl View for Token {
    type V = TokenV;

    open spec fn view(&self) -> TokenV {
        TokenV { mint: self.mint@, proofs: pviews(self.proofs@) }
    }
}

/// Whether one proof's strings are short enough to length-prefix.
pub open spec fn proof_fits(p: ProofV) -> bool {
    p.secret.len() < 0x10000000000000000 && p.c.len() < 0x10000000000000000
}

/// Whether every proof in the sequence fits.
pub open spec fn proofs_fit(ps: Seq<ProofV>) -> bool {
    forall|i: int| 0 <= i < ps.len() ==> proof_fits(#[trigger] ps[i])
}

/// Whether a token's parts are short enough to encode.
pub open spec fn token_fits(t: TokenV) -> bool {
    t.mint.len() < 0x10000000000000000 && t.proofs.len() < 0x10000000000000000 && proofs_fit(
        t.proofs,
    )
}

/// One proof on the wire: amount, then the length-prefixed secret, then the
/// length-prefixed signature material, every number as sixteen hexadecimal
/// digits.
pub open spec fn encoded_proof(p: ProofV) -> Seq<char> {
    hex16(p.amount) + hex16(p.secret.len() as u64) + p.secret + hex16(p.c.len() as u64) + p.c
}

/// A sequence of proofs on the wire, in order.
pub open spec fn encoded_proofs(ps: Seq<ProofV>) -> Seq<char>
    decreases ps.len(),
{
    if ps.len() == 0 {
        Seq::empty()
    } else {
        encoded_proof(ps.first()) + encoded_proofs(ps.drop_first())
    }
}

/// A whole token on the wire: the tag, the proof count, the length-prefixed
/// mint identifier, then the proofs.
pub open spec fn spec_encode_token(t: TokenV) -> Seq<char> {
    "cashuw"@ + hex16(t.proofs.len() as u64) + hex16(t.mint.len() as u64) + t.mint
        + encoded_proofs(t.proofs)
}

/// Appending one proof to a bundle appends its encoding to the wire form.
pub proof fn lemma_encoded_proofs_snoc(ps: Seq<ProofV>, p: ProofV)
    ensures
        encoded_proofs(ps.push(p)) == encoded_proofs(ps) + encoded_proof(p),
    decreases ps.len(),
{
    if ps.len() == 0 {
        assert(ps.push(p).drop_first() =~= Seq::<ProofV>::empty());
        assert(ps.push(p).first() == p);
        assert(encoded_proofs(ps.push(p).drop_first()) =~= Seq::<char>::empty());
        assert(encoded_proofs(ps.push(p)) == encoded_proof(p) + encoded_proofs(
            ps.push(p).drop_first(),
        ));
        assert(encoded_proof(p) + Seq::<char>::empty() =~= encoded_proof(p));
        assert(Seq::<char>::empty() + encoded_proof(p) =~= encoded_proof(p));
        assert(encoded_proofs(ps) =~= Seq::<char>::empty());
    } else {
        assert(ps.push(p).drop_first() =~= ps.drop_first().push(p));
        assert(ps.push(p).first() == ps.first());
        assert(encoded_proofs(ps.push(p)) == encoded_proof(ps.first()) + encoded_proofs(
            ps.drop_first().push(p),
        ));
        lemma_encoded_proofs_snoc(ps.drop_first(), p);
        assert(encoded_proofs(ps) == encoded_proof(ps.first()) + encoded_proofs(ps.drop_first()));
        assert(encoded_proof(ps.first()) + (encoded_proofs(ps.drop_first()) + encoded_proof(p))
            =~= (encoded_proof(ps.first()) + encoded_proofs(ps.drop_first())) + encoded_proof(
            p,
        ));
    }
}

/// Parsing the wire form of one proof gives that proof and the position
/// right behind its encoding.
pub proof fn lemma_parse_proof_of_encoded(s: Seq<char>, pos: int, p: ProofV)
    requires
        proof_fits(p),
        0 <= pos,
        pos + encoded_proof(p).len() <= s.len(),
        s.subrange(pos, pos + encoded_proof(p).len() as int) == encoded_proof(p),
    ensures
        parse_proof_at(s, pos) == Some((p, pos + encoded_proof(p).len())),
{
    let e = encoded_proof(p);
    let sl = p.secret.len() as int;
    let cl = p.c.len() as int;
    let elen = e.len() as int;
    let h1 = hex16(p.amount);
    let h2 = hex16(p.secret.len() as u64);
    let h3 = hex16(p.c.len() as u64);
    let a1 = h1 + h2;
    let a2 = a1 + p.secret;
    let a3 = a2 + h3;
    assert(e == a3 + p.c);
    assert(elen == 48 + sl + cl);
    assert(forall|j: int| 0 <= j < elen ==> s[pos + j] == #[trigger] e[j]) by {
        assert(forall|j: int| 0 <= j < elen ==> s.subrange(pos, pos + elen)[j] == #[trigger] e[j]);
    }
    assert forall|j: int| 0 <= j < 16 implies #[trigger] e[j] == h1[j] by {
        assert(e[j] == a3[j]);
        assert(a3[j] == a2[j]);
        assert(a2[j] == a1[j]);
        assert(a1[j] == h1[j]);
    }
    assert forall|j: int| 16 <= j < 32 implies #[trigger] e[j] == h2[j - 16] by {
        assert(e[j] == a3[j]);
        assert(a3[j] == a2[j]);
        assert(a2[j] == a1[j]);
        assert(a1[j] == h2[j - 16]);
    }
    assert forall|j: int| 32 <= j < 32 + sl implies #[trigger] e[j] == p.secret[j - 32] by {
        assert(e[j] == a3[j]);
        assert(a3[j] == a2[j]);
        assert(a2[j] == p.secret[j - 32]);
    }
    assert forall|j: int| 32 + sl <= j < 48 + sl implies #[trigger] e[j] == h3[j - 32 - sl] by {
        assert(e[j] == a3[j]);
        assert(a3[j] == h3[j - 32 - sl]);
    }
    assert forall|j: int| 48 + sl <= j < elen implies #[trigger] e[j] == p.c[j - 48 - sl] by {
        assert(e[j] == p.c[j - 48 - sl]);
    }
    assert(s.subrange(pos, pos + 16) =~= h1);
    lemma_parse_hex16_of_hex16(s, pos, p.amount);
    assert(s.subrange(pos + 16, pos + 32) =~= h2) by {
        assert forall|j: int| 0 <= j < 16 implies s.subrange(pos + 16, pos + 32)[j] == h2[j] by {
            assert(e[16 + j] == h2[j]);
            assert(s[pos + (16 + j)] == e[16 + j]);
        }
    }
    lemma_parse_hex16_of_hex16(s, pos + 16, p.secret.len() as u64);
    assert((p.secret.len() as u64) as int == sl);
    assert(s.subrange(pos + 32, pos + 32 + sl) =~= p.secret) by {
        assert forall|j: int| 0 <= j < sl implies s.subrange(pos + 32, pos + 32 + sl)[j]
            == p.secret[j] by {
            assert(e[32 + j] == p.secret[j]);
            assert(s[pos + (32 + j)] == e[32 + j]);
        }
    }
    assert(s.subrange(pos + 32 + sl, pos + 48 + sl) =~= h3) by {
        assert forall|j: int| 0 <= j < 16 implies s.subrange(pos + 32 + sl, pos + 48 + sl)[j]
            == h3[j] by {
            assert(e[32 + sl + j] == h3[j]);
            assert(s[pos + (32 + sl + j)] == e[32 + sl + j]);
        }
    }
    lemma_parse_hex16_of_hex16(s, pos + 32 + sl, p.c.len() as u64);
    assert((p.c.len() as u64) as int == cl);
    assert(s.subrange(pos + 48 + sl, pos + 48 + sl + cl) =~= p.c) by {
        assert forall|j: int| 0 <= j < cl implies s.subrange(pos + 48 + sl, pos + 48 + sl + cl)[j]
            == p.c[j] by {
            assert(e[48 + sl + j] == p.c[j]);
            assert(s[pos + (48 + sl + j)] == e[48 + sl + j]);
        }
    }
    let q = ProofV {
        amount: p.amount,
        secret: s.subrange(pos + 32, pos + 32 + sl),
        c: s.subrange(pos + 48 + sl, pos + 48 + sl + cl),
    };
    assert(q =~= p);
}

/// Parsing the wire form of a bundle of proofs gives the bundle back.
pub proof fn lemma_parse_proofs_of_encoded(s: Seq<char>, pos: int, ps: Seq<ProofV>)
    requires
        proofs_fit(ps),
        0 <= pos,
        pos + encoded_proofs(ps).len() <= s.len(),
        s.subrange(pos, pos + encoded_proofs(ps).len() as int) == encoded_proofs(ps),
    ensures
        parse_proofs_at(s, pos, ps.len()) == Some((ps, pos + encoded_proofs(ps).len())),
    decreases ps.len(),
{
    if ps.len() == 0 {
        assert(parse_proofs_at(s, pos, 0) == Some((Seq::<ProofV>::empty(), pos)));
        assert(ps =~= Seq::<ProofV>::empty());
    } else {
        let p0 = ps.first();
        let rest = ps.drop_first();
        let e0 = encoded_proof(p0);
        let er = encoded_proofs(rest);
        let e = encoded_proofs(ps);
        assert(e == e0 + er);
        let l0 = e0.len() as int;
        let lr = er.len() as int;
        assert(forall|j: int| 0 <= j < e.len() ==> s[pos + j] == #[trigger] e[j]) by {
            assert(forall|j: int| 0 <= j < e.len() ==> s.subrange(pos, pos + e.len() as int)[j]
                == #[trigger] e[j]);
        }
        assert(s.subrange(pos, pos + l0) =~= e0) by {
            assert(forall|j: int| 0 <= j < l0 ==> #[trigger] e[j] == e0[j]);
        }
        assert(proof_fits(p0)) by {
            assert(ps[0] == p0);
        }
        lemma_parse_proof_of_encoded(s, pos, p0);
        assert(s.subrange(pos + l0, pos + l0 + lr) =~= er) by {
            assert forall|j: int| 0 <= j < lr implies s.subrange(pos + l0, pos + l0 + lr)[j]
                == er[j] by {
                assert(e[l0 + j] == er[j]);
                assert(s[pos + (l0 + j)] == e[l0 + j]);
            }
        }
        assert(proofs_fit(rest)) by {
            assert(forall|i: int| 0 <= i < rest.len() ==> #[trigger] rest[i] == ps[i + 1]);
        }
        lemma_parse_proofs_of_encoded(s, pos + l0, rest);
        assert(parse_proofs_at(s, pos, ps.len()) == Some((seq![p0] + rest, pos + l0 + lr)));
        assert(seq![p0] + rest =~= ps);
    }
}

/// Round trip: parsing an encoded token gives the token back, losslessly.
pub proof fn lemma_token_round_trip(t: TokenV)
    requires
        token_fits(t),
    ensures
        spec_parse_token(spec_encode_token(t)) == Some(t),
{
    let s = spec_encode_token(t);
    let h1 = hex16(t.proofs.len() as u64);
    let h2 = hex16(t.mint.len() as u64);
    let ep = encoded_proofs(t.proofs);
    let ml = t.mint.len() as int;
    let b1 = "cashuw"@ + h1;
    let b2 = b1 + h2;
    let b3 = b2 + t.mint;
    assert(s == b3 + ep);
    reveal_strlit("cashuw");
    assert(s.len() == 38 + ml + ep.len());
    assert forall|j: int| 0 <= j < 6 implies #[trigger] s[j] == "cashuw"@[j] by {
        assert(s[j] == b3[j]);
        assert(b3[j] == b2[j]);
        assert(b2[j] == b1[j]);
        assert(b1[j] == "cashuw"@[j]);
    }
    assert forall|j: int| 6 <= j < 22 implies #[trigger] s[j] == h1[j - 6] by {
        assert(s[j] == b3[j]);
        assert(b3[j] == b2[j]);
        assert(b2[j] == b1[j]);
        assert(b1[j] == h1[j - 6]);
    }
    assert forall|j: int| 22 <= j < 38 implies #[trigger] s[j] == h2[j - 22] by {
        assert(s[j] == b3[j]);
        assert(b3[j] == b2[j]);
        assert(b2[j] == h2[j - 22]);
    }
    assert forall|j: int| 38 <= j < 38 + ml implies #[trigger] s[j] == t.mint[j - 38] by {
        assert(s[j] == b3[j]);
        assert(b3[j] == t.mint[j - 38]);
    }
    assert forall|j: int| 38 + ml <= j < s.len() implies #[trigger] s[j] == ep[j - 38 - ml] by {
        assert(s[j] == ep[j - 38 - ml]);
    }
    assert(s.subrange(0, 6) =~= "cashuw"@);
    assert(s.subrange(6, 22) =~= h1);
    lemma_parse_hex16_of_hex16(s, 6, t.proofs.len() as u64);
    assert(s.subrange(22, 38) =~= h2);
    lemma_parse_hex16_of_hex16(s, 22, t.mint.len() as u64);
    assert((t.mint.len() as u64) as int == ml);
    assert((t.proofs.len() as u64) as nat == t.proofs.len());
    assert(s.subrange(38, 38 + ml) =~= t.mint);
    assert(s.subrange(38 + ml, 38 + ml + ep.len() as int) =~= ep);
    lemma_parse_proofs_of_encoded(s, 38 + ml, t.proofs);
    assert(TokenV { mint: s.subrange(38, 38 + ml), proofs: t.proofs } =~= t);
}

/// A successfully parsed proof is one proof's exact wire form: the consumed
/// characters are its encoding, nothing more and nothing less.
pub proof fn lemma_parse_proof_sound(s: Seq<char>, pos: int, p: ProofV, end: int)
    requires
        0 <= pos,
        parse_proof_at(s, pos) == Some((p, end)),
    ensures
        proof_fits(p),
        end == pos + encoded_proof(p).len(),
        pos < end <= s.len(),
        s.subrange(pos, end) == encoded_proof(p),
{
    let amount = parse_hex16(s, pos)->Some_0;
    let slen = parse_hex16(s, pos + 16)->Some_0;
    let sstart = pos + 32;
    let clen = parse_hex16(s, sstart + slen)->Some_0;
    let cstart = sstart + slen + 16;
    assert(p == ProofV {
        amount,
        secret: s.subrange(sstart, sstart + slen),
        c: s.subrange(cstart, cstart + clen),
    });
    assert(end == cstart + clen);
    let sl = slen as int;
    let cl = clen as int;
    assert(p.secret.len() == sl && p.c.len() == cl);
    assert((p.secret.len() as u64) == slen && (p.c.len() as u64) == clen);
    lemma_parse_hex16_sound(s, pos, amount);
    lemma_parse_hex16_sound(s, pos + 16, slen);
    lemma_parse_hex16_sound(s, sstart + slen, clen);
    let e = encoded_proof(p);
    let h1 = hex16(p.amount);
    let h2 = hex16(p.secret.len() as u64);
    let h3 = hex16(p.c.len() as u64);
    let a1 = h1 + h2;
    let a2 = a1 + p.secret;
    let a3 = a2 + h3;
    assert(e == a3 + p.c);
    assert(e.len() == 48 + sl + cl);
    assert forall|j: int| 0 <= j < e.len() implies s.subrange(pos, end)[j] == #[trigger] e[j] by {
        assert(s.subrange(pos, end)[j] == s[pos + j]);
        if j < 16 {
            assert(e[j] == a3[j] && a3[j] == a2[j] && a2[j] == a1[j] && a1[j] == h1[j]);
            assert(s.subrange(pos, pos + 16)[j] == s[pos + j]);
        } else if j < 32 {
            assert(e[j] == a3[j] && a3[j] == a2[j] && a2[j] == a1[j] && a1[j] == h2[j - 16]);
            assert(s.subrange(pos + 16, pos + 32)[j - 16] == s[pos + j]);
        } else if j < 32 + sl {
            assert(e[j] == a3[j] && a3[j] == a2[j] && a2[j] == p.secret[j - 32]);
            assert(p.secret[j - 32] == s.subrange(sstart, sstart + slen)[j - 32]);
        } else if j < 48 + sl {
            assert(e[j] == a3[j] && a3[j] == h3[j - 32 - sl]);
            assert(s.subrange(sstart + slen, sstart + slen + 16)[j - 32 - sl] == s[pos + j]);
        } else {
            assert(e[j] == p.c[j - 48 - sl]);
            assert(p.c[j - 48 - sl] == s.subrange(cstart, cstart + clen)[j - 48 - sl]);
        }
    }
    assert(s.subrange(pos, end) =~= e);
}

/// A successfully parsed bundle is the bundle's exact wire form.
pub proof fn lemma_parse_proofs_sound(s: Seq<char>, pos: int, k: nat, ps: Seq<ProofV>, end: int)
    requires
        0 <= pos <= s.len(),
        parse_proofs_at(s, pos, k) == Some((ps, end)),
    ensures
        ps.len() == k,
        proofs_fit(ps),
        end == pos + encoded_proofs(ps).len(),
        pos <= end <= s.len(),
        s.subrange(pos, end) == encoded_proofs(ps),
    decreases k,
{
    if k == 0 {
        assert(ps =~= Seq::<ProofV>::empty());
        assert(end == pos);
        assert(s.subrange(pos, pos) =~= Seq::<char>::empty());
        assert(encoded_proofs(ps) =~= Seq::<char>::empty());
    } else {
        let (p0, pos2) = parse_proof_at(s, pos)->Some_0;
        let (rest, end2) = parse_proofs_at(s, pos2, (k - 1) as nat)->Some_0;
        assert(ps == seq![p0] + rest && end == end2);
        lemma_parse_proof_sound(s, pos, p0, pos2);
        lemma_parse_proofs_sound(s, pos2, (k - 1) as nat, rest, end);
        assert(ps.first() == p0);
        assert(ps.drop_first() =~= rest);
        let e0 = encoded_proof(p0);
        let er = encoded_proofs(rest);
        assert(encoded_proofs(ps) == e0 + er);
        assert(proofs_fit(ps)) by {
            assert forall|i: int| 0 <= i < ps.len() implies proof_fits(#[trigger] ps[i]) by {
                if i > 0 {
                    assert(ps[i] == rest[i - 1]);
                }
            }
        }
        assert forall|j: int| 0 <= j < e0.len() + er.len() implies s.subrange(pos, end)[j]
            == #[trigger] (e0 + er)[j] by {
            assert(s.subrange(pos, end)[j] == s[pos + j]);
            if j < e0.len() {
                assert(s.subrange(pos, pos2)[j] == s[pos + j]);
            } else {
                assert(s.subrange(pos2, end)[j - e0.len()] == s[pos2 + (j - e0.len())]);
            }
        }
        assert(s.subrange(pos, end) =~= e0 + er);
    }
}

/// Parsing is inverse to encoding on every accepted string: whatever parses
/// as a token is that token's exact wire form, so the format is unambiguous.
pub proof fn lemma_parse_token_sound(s: Seq<char>, t: TokenV)
    requires
        spec_parse_token(s) == Some(t),
    ensures
        token_fits(t),
        spec_encode_token(t) == s,
{
    let count = parse_hex16(s, 6)->Some_0;
    let mlen = parse_hex16(s, 22)->Some_0;
    let ml = mlen as int;
    let (ps, end) = parse_proofs_at(s, 38 + ml, count as nat)->Some_0;
    assert(t == TokenV { mint: s.subrange(38, 38 + ml), proofs: ps } && end == s.len());
    lemma_parse_hex16_sound(s, 6, count);
    lemma_parse_hex16_sound(s, 22, mlen);
    lemma_parse_proofs_sound(s, 38 + ml, count as nat, ps, end);
    assert(t.mint.len() == ml && (t.mint.len() as u64) == mlen);
    assert(t.proofs.len() == count as nat && (t.proofs.len() as u64) == count);
    let h1 = hex16(count);
    let h2 = hex16(mlen);
    let ep = encoded_proofs(t.proofs);
    let b1 = "cashuw"@ + h1;
    let b2 = b1 + h2;
    let b3 = b2 + t.mint;
    assert(spec_encode_token(t) == b3 + ep);
    reveal_strlit("cashuw");
    assert(s.len() == 38 + ml + ep.len());
    assert forall|j: int| 0 <= j < 38 + ml + ep.len() implies #[trigger] (b3 + ep)[j] == s[j] by {
        if j < 6 {
            assert((b3 + ep)[j] == b3[j] && b3[j] == b2[j] && b2[j] == b1[j] && b1[j]
                == "cashuw"@[j]);
            assert(s.subrange(0, 6)[j] == s[j]);
        } else if j < 22 {
            assert((b3 + ep)[j] == b3[j] && b3[j] == b2[j] && b2[j] == b1[j] && b1[j] == h1[j
                - 6]);
            assert(s.subrange(6, 22)[j - 6] == s[j]);
        } else if j < 38 {
            assert((b3 + ep)[j] == b3[j] && b3[j] == b2[j] && b2[j] == h2[j - 22]);
            assert(s.subrange(22, 38)[j - 22] == s[j]);
        } else if j < 38 + ml {
            assert((b3 + ep)[j] == b3[j] && b3[j] == t.mint[j - 38]);
            assert(t.mint[j - 38] == s.subrange(38, 38 + ml)[j - 38]);
        } else {
            assert((b3 + ep)[j] == ep[j - 38 - ml]);
            assert(s.subrange(38 + ml, s.len() as int)[j - 38 - ml] == s[j]);
        }
    }
    assert(b3 + ep =~= s);
}

/// What a wallet sends is what a wallet receives: a token bundling the pay
/// proofs parses back losslessly, to the same mint identifier and a proof set
/// whose total is exactly the amount that was sent.
pub proof fn lemma_sent_token_receivable(mint: Seq<char>, pay: Seq<ProofV>, amount: u64)
    requires
        token_fits(TokenV { mint, proofs: pay }),
        sum_amounts(pay) == amount,
    ensures
        match spec_parse_token(spec_encode_token(TokenV { mint, proofs: pay })) {
            Some(tv) => tv.mint == mint && tv.proofs == pay && sum_amounts(tv.proofs) == amount,
            None => false,
        },
{
    lemma_token_round_trip(TokenV { mint, proofs: pay });
}

/// What parsing one proof at `pos` gives: the proof and the next position.
pub open spec fn parse_proof_at(s: Seq<char>, pos: int) -> Option<(ProofV, int)> {
    match parse_hex16(s, pos) {
        None => None,
        Some(amount) => match parse_hex16(s, pos + 16) {
            None => None,
            Some(slen) => {
                let sstart = pos + 32;
                if sstart + slen > s.len() {
                    None
                } else {
                    let secret = s.subrange(sstart, sstart + slen);
                    match parse_hex16(s, sstart + slen) {
                        None => None,
                        Some(clen) => {
                            let cstart = sstart + slen + 16;
                            if cstart + clen > s.len() {
                                None
                            } else {
                                Some(
                                    (
                                        ProofV {
                                            amount,
                                            secret,
                                            c: s.subrange(cstart, cstart + clen),
                                        },
                                        cstart + clen,
                                    ),
                                )
                            }
                        },
                    }
                }
            },
        },
    }
}

/// What parsing `k` proofs starting at `pos` gives.
pub open spec fn parse_proofs_at(s: Seq<char>, pos: int, k: nat) -> Option<(Seq<ProofV>, int)>
    decreases k,
{
    if k == 0 {
        Some((Seq::empty(), pos))
    } else {
        match parse_proof_at(s, pos) {
            None => None,
            Some((p, pos2)) => match parse_proofs_at(s, pos2, (k - 1) as nat) {
                None => None,
                Some((ps, pos3)) => Some((seq![p] + ps, pos3)),
            },
        }
    }
}

/// What parsing a whole token string gives: the token exactly when the string
/// is well-formed from tag to final position, `None` otherwise.
pub open spec fn spec_parse_token(s: Seq<char>) -> Option<TokenV> {
    if s.len() < 38 {
        None
    } else if s.subrange(0, 6) != "cashuw"@ {
        None
    } else {
        match parse_hex16(s, 6) {
            None => None,
            Some(count) => match parse_hex16(s, 22) {
                None => None,
                Some(mlen) => {
                    if 38 + mlen > s.len() {
                        None
                    } else {
                        let mint = s.subrange(38, 38 + mlen);
                        match parse_proofs_at(s, 38 + mlen, count as nat) {
                            None => None,
                            Some((ps, end)) => {
                                if end == s.len() {
                                    Some(TokenV { mint, proofs: ps })
                                } else {
                                    None
                                }
                            },
                        }
                    }
                },
            },
        }
    }
}

/// Writes a token as a string; `parse_token` reads it back exactly.
pub fn encode_token(t: &Token) -> (r: String)
    ensures
        r@ == spec_encode_token(t@),
{
    let mut s = String::new();
    s.append("cashuw");
    push_hex16(&mut s, t.proofs.len() as u64);
    push_hex16(&mut s, t.mint.as_str().unicode_len() as u64);
    s.append(t.mint.as_str());
    let ghost header = s@;
    proof {
        assert(header =~= "cashuw"@ + hex16(t@.proofs.len() as u64) + hex16(
            t@.mint.len() as u64,
        ) + t@.mint);
        assert(encoded_proofs(pviews(t.proofs@).take(0int)) =~= Seq::<char>::empty());
        assert(s@ =~= header + encoded_proofs(pviews(t.proofs@).take(0int)));
    }
    let mut i: usize = 0;
    while i < t.proofs.len()
        invariant
            i <= t.proofs@.len(),
            s@ == header + encoded_proofs(pviews(t.proofs@).take(i as int)),
            header == "cashuw"@ + hex16(t@.proofs.len() as u64) + hex16(t@.mint.len() as u64)
                + t@.mint,
        decreases t.proofs@.len() - i,
    {
        let ghost sprev = s@;
        let p = &t.proofs[i];
        push_hex16(&mut s, p.amount);
        push_hex16(&mut s, p.secret.as_str().unicode_len() as u64);
        s.append(p.secret.as_str());
        push_hex16(&mut s, p.c.as_str().unicode_len() as u64);
        s.append(p.c.as_str());
        proof {
            let pv = pviews(t.proofs@)[i as int];
            assert(s@ =~= sprev + encoded_proof(pv));
            lemma_encoded_proofs_snoc(pviews(t.proofs@).take(i as int), pv);
            assert(pviews(t.proofs@).take(i as int).push(pv) =~= pviews(t.proofs@).take(
                i as int + 1,
            ));
            assert(s@ =~= header + encoded_proofs(pviews(t.proofs@).take(i as int + 1)));
        }
        i = i + 1;
    }
    proof {
        assert(pviews(t.proofs@).take(t.proofs@.len() as int) =~= pviews(t.proofs@));
        assert(s@ =~= spec_encode_token(t@));
    }
    s
}

/// Reads one proof at `pos`; `n` is the string's length in characters.
fn parse_proof(s: &str, n: usize, pos: usize) -> (r: Option<(Proof, usize)>)
    requires
        n == s@.len(),
        pos <= n,
    ensures
        match r {
            Some(pe) => parse_proof_at(s@, pos as int) == Some((pe.0@, pe.1 as int)) && pos
                < pe.1 <= n,
            None => parse_proof_at(s@, pos as int) is None,
        },
{
    if n - pos < 16 {
        proof {
            lemma_hex_fold_short(s@, pos as int, 16, 0u64);
        }
        return None;
    }
    let amount = match read_hex16(s, pos) {
        Some(a) => a,
        None => {
            return None;
        },
    };
    if n - (pos + 16) < 16 {
        proof {
            lemma_hex_fold_short(s@, pos as int + 16, 16, 0u64);
        }
        return None;
    }
    let slen = match read_hex16(s, pos + 16) {
        Some(v) => v,
        None => {
            return None;
        },
    };
    let sstart = pos + 32;
    if slen > (n - sstart) as u64 {
        return None;
    }
    let slen_us = slen as usize;
    let secret = s.substring_char(sstart, sstart + slen_us).to_owned();
    let cpos = sstart + slen_us;
    if n - cpos < 16 {
        proof {
            lemma_hex_fold_short(s@, cpos as int, 16, 0u64);
        }
        return None;
    }
    let clen = match read_hex16(s, cpos) {
        Some(v) => v,
        None => {
            return None;
        },
    };
    let cstart = cpos + 16;
    if clen > (n - cstart) as u64 {
        return None;
    }
    let clen_us = clen as usize;
    let c = s.substring_char(cstart, cstart + clen_us).to_owned();
    let end = cstart + clen_us;
    Some((Proof { amount, secret, c }, end))
}

/// Parses a token string; fails with `SerializationError` exactly on the
/// strings no token encodes to.
pub fn parse_token(s: &str) -> (r: Result<Token, WalletError>)
    ensures
        match r {
            Ok(t) => spec_parse_token(s@) == Some(t@) && token_fits(t@) && spec_encode_token(t@)
                == s@,
            Err(e) => e == WalletError::SerializationError && spec_parse_token(s@) is None,
        },
{
    let n = s.unicode_len();
    if n < 38 {
        return Err(WalletError::SerializationError);
    }
    proof {
        reveal_strlit("cashuw");
    }
    let pref_ok = s.get_char(0) == 'c' && s.get_char(1) == 'a' && s.get_char(2) == 's'
        && s.get_char(3) == 'h' && s.get_char(4) == 'u' && s.get_char(5) == 'w';
    if !pref_ok {
        proof {
            if s@.subrange(0, 6) == "cashuw"@ {
                assert(forall|j: int| 0 <= j < 6 ==> s@.subrange(0, 6)[j] == #[trigger] s@[j]);
            }
        }
        return Err(WalletError::SerializationError);
    }
    proof {
        assert(s@.subrange(0, 6) =~= "cashuw"@);
    }
    let count = match read_hex16(s, 6) {
        Some(v) => v,
        None => {
            return Err(WalletError::SerializationError);
        },
    };
    let mlen = match read_hex16(s, 22) {
        Some(v) => v,
        None => {
            return Err(WalletError::SerializationError);
        },
    };
    if mlen > (n - 38) as u64 {
        return Err(WalletError::SerializationError);
    }
    let mlen_us = mlen as usize;
    let mint = s.substring_char(38, 38 + mlen_us).to_owned();
    let start = 38 + mlen_us;
    let ghost mintg = s@.subrange(38, 38 + mlen as int);
    proof {
        assert(spec_parse_token(s@) == (match parse_proofs_at(s@, start as int, count as nat) {
            None => Option::<TokenV>::None,
            Some((ps, end)) => {
                if end == s@.len() {
                    Some(TokenV { mint: mintg, proofs: ps })
                } else {
                    Option::<TokenV>::None
                }
            },
        }));
    }
    let mut proofs_vec: Vec<Proof> = Vec::new();
    let mut cur = start;
    let mut done: u64 = 0;
    proof {
        assert(pviews(proofs_vec@) =~= Seq::<ProofV>::empty());
    }
    while done < count
        invariant
            done <= count,
            cur <= n,
            n == s@.len(),
            (match parse_proofs_at(s@, cur as int, (count - done) as nat) {
                None => parse_proofs_at(s@, start as int, count as nat) is None,
                Some((ps, end)) => parse_proofs_at(s@, start as int, count as nat) == Some(
                    (pviews(proofs_vec@) + ps, end),
                ),
            }),
            spec_parse_token(s@) == (match parse_proofs_at(s@, start as int, count as nat) {
                None => Option::<TokenV>::None,
                Some((ps, end)) => {
                    if end == s@.len() {
                        Some(TokenV { mint: mintg, proofs: ps })
                    } else {
                        Option::<TokenV>::None
                    }
                },
            }),
        decreases count - done,
    {
        match parse_proof(s, n, cur) {
            None => {
                return Err(WalletError::SerializationError);
            },
            Some((p, end)) => {
                proof {
                    let k = (count - done) as nat;
                    assert(parse_proofs_at(s@, cur as int, k) == (match parse_proofs_at(
                        s@,
                        end as int,
                        (k - 1) as nat,
                    ) {
                        None => Option::<(Seq<ProofV>, int)>::None,
                        Some((ps, pos3)) => Some((seq![p@] + ps, pos3)),
                    }));
                    let accp = pviews(proofs_vec@);
                    match parse_proofs_at(s@, end as int, (k - 1) as nat) {
                        None => {},
                        Some((ps, pos3)) => {
                            assert(accp + (seq![p@] + ps) =~= accp.push(p@) + ps);
                        },
                    }
                }
                let ghost acc0 = pviews(proofs_vec@);
                proofs_vec.push(p);
                proof {
                    assert(pviews(proofs_vec@) =~= acc0.push(p@));
                }
                cur = end;
                done = done + 1;
            },
        }
    }
    proof {
        assert(parse_proofs_at(s@, cur as int, 0) == Some((Seq::<ProofV>::empty(), cur as int)));
        assert(pviews(proofs_vec@) + Seq::<ProofV>::empty() =~= pviews(proofs_vec@));
    }
    if cur != n {
        return Err(WalletError::SerializationError);
    }
    let ghost accv = pviews(proofs_vec@);
    let t = Token { mint, proofs: proofs_vec };
    proof {
        assert(t@ =~= TokenV { mint: mintg, proofs: accv });
        lemma_parse_token_sound(s@, t@);
    }
    Ok(t)
}

} // verus!
