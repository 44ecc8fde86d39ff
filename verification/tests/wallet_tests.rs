use cashuw::amounts::split_amount;
use cashuw::error::WalletError;
use cashuw::records::Proof;
use cashuw::select::checked_sum;
use cashuw::select::select_proofs;
use cashuw::store::InvoiceStore;
use cashuw::store::ProofStore;
use cashuw::token::Token;
use cashuw::token::encode_token;
use cashuw::token::parse_token;
use cashuw::wallet::Wallet;

fn mk_proof(amount: u64, secret: &str) -> Proof {
    Proof { amount, secret: secret.to_string(), c: format!("c-{}", secret) }
}

fn wallet_with_three_proofs() -> Wallet {
    let mut w = Wallet::build("http://127.0.0.1:3338");
    w.save_proof(mk_proof(1, "a"));
    w.save_proof(mk_proof(2, "b"));
    w.save_proof(mk_proof(4, "c"));
    w
}

#[test]
fn select_covers_five_with_three_proofs() {
    let proofs = vec![mk_proof(1, "a"), mk_proof(2, "b"), mk_proof(4, "c")];
    let (selected, overshoot) = select_proofs(proofs, 5).unwrap();
    assert_eq!(selected.len(), 3);
    assert_eq!(selected[0].secret, "a");
    assert_eq!(selected[1].secret, "b");
    assert_eq!(selected[2].secret, "c");
    assert_eq!(overshoot, 2);
}

#[test]
fn select_stops_as_soon_as_total_exceeds() {
    let proofs = vec![mk_proof(4, "a"), mk_proof(2, "b"), mk_proof(1, "c")];
    let (selected, overshoot) = select_proofs(proofs, 3).unwrap();
    assert_eq!(selected.len(), 1);
    assert_eq!(selected[0].secret, "a");
    assert_eq!(overshoot, 1);
}

#[test]
fn select_exact_total_takes_everything_without_overshoot() {
    let proofs = vec![mk_proof(1, "a"), mk_proof(2, "b")];
    let (selected, overshoot) = select_proofs(proofs, 3).unwrap();
    assert_eq!(selected.len(), 2);
    assert_eq!(overshoot, 0);
}

#[test]
fn select_fails_when_amount_exceeds_total() {
    let proofs = vec![mk_proof(1, "a"), mk_proof(2, "b"), mk_proof(4, "c")];
    assert_eq!(select_proofs(proofs, 8).unwrap_err(), WalletError::InsufficientFunds);
}

#[test]
fn balance_of_three_proofs_is_seven() {
    let w = wallet_with_three_proofs();
    assert_eq!(w.get_balance(), 7);
}

#[test]
fn balance_follows_saves_and_deletes() {
    let mut store = ProofStore::new();
    assert_eq!(store.balance(), 0);
    store.save(mk_proof(1, "a"));
    store.save(mk_proof(2, "b"));
    store.save(mk_proof(4, "c"));
    assert_eq!(store.balance(), 7);
    store.delete(&"b".to_string());
    assert_eq!(store.balance(), 5);
    store.delete(&"nope".to_string());
    assert_eq!(store.balance(), 5);
    store.delete(&"a".to_string());
    store.delete(&"c".to_string());
    assert_eq!(store.balance(), 0);
}

#[test]
fn saving_the_same_secret_twice_keeps_one_record_with_latest_value() {
    let mut store = ProofStore::new();
    store.save(mk_proof(3, "s"));
    store.save(mk_proof(5, "s"));
    let all = store.all();
    assert_eq!(all.len(), 1);
    assert_eq!(all[0].amount, 5);
    assert_eq!(store.balance(), 5);
    store.save(mk_proof(5, "s"));
    assert_eq!(store.all().len(), 1);
    assert_eq!(store.balance(), 5);
}

#[test]
fn mint_tokens_fails_for_unknown_payment_request() {
    let w = Wallet::build("http://127.0.0.1:3338");
    let err = w.mint_tokens(&"unknown-pr".to_string()).unwrap_err();
    assert_eq!(err, WalletError::InvoiceNotFound);
}

#[test]
fn mint_tokens_plans_the_invoice_amount() {
    let mut w = Wallet::build("http://127.0.0.1:3338");
    w.request_mint(21, "pr-1".to_string(), "hash-1".to_string());
    let plan = w.mint_tokens(&"pr-1".to_string()).unwrap();
    assert_eq!(plan.hash, "hash-1");
    let total: u64 = plan.outputs.iter().sum();
    assert_eq!(total, 21);
    assert_eq!(plan.outputs, vec![1, 4, 16]);
}

#[test]
fn send_on_empty_wallet_fails_with_insufficient_funds() {
    let w = Wallet::build("http://127.0.0.1:3338");
    assert_eq!(w.send(1).unwrap_err(), WalletError::InsufficientFunds);
}

#[test]
fn request_mint_persists_a_retrievable_invoice() {
    let mut w = Wallet::build("http://127.0.0.1:3338");
    let inv = w.request_mint(42, "pr-42".to_string(), "hash-42".to_string());
    assert_eq!(inv.amount, 42);
    let got = w.get_invoice(&"pr-42".to_string()).unwrap();
    assert_eq!(got.pr, "pr-42");
    assert_eq!(got.hash, "hash-42");
    assert_eq!(got.amount, 42);
}

#[test]
fn invoice_store_upserts_by_payment_request() {
    let mut store = InvoiceStore::new();
    store.save(cashuw::records::Invoice {
        hash: "h1".to_string(),
        pr: "pr".to_string(),
        amount: 5,
    });
    store.save(cashuw::records::Invoice {
        hash: "h2".to_string(),
        pr: "pr".to_string(),
        amount: 9,
    });
    let got = store.get(&"pr".to_string()).unwrap();
    assert_eq!(got.hash, "h2");
    assert_eq!(got.amount, 9);
}

#[test]
fn split_amount_gives_binary_denominations() {
    assert_eq!(split_amount(0), Vec::<u64>::new());
    assert_eq!(split_amount(1), vec![1]);
    assert_eq!(split_amount(5), vec![1, 4]);
    assert_eq!(split_amount(13), vec![1, 4, 8]);
    assert_eq!(split_amount(64), vec![64]);
    let all = split_amount(u64::MAX);
    assert_eq!(all.len(), 64);
    let mut total: u128 = 0;
    for d in &all {
        total += *d as u128;
    }
    assert_eq!(total, u64::MAX as u128);
}

#[test]
fn checked_sum_refuses_a_total_past_the_balance_type() {
    let proofs = vec![mk_proof(u64::MAX, "a"), mk_proof(1, "b")];
    assert_eq!(checked_sum(&proofs), None);
    let proofs = vec![mk_proof(u64::MAX, "a")];
    assert_eq!(checked_sum(&proofs), Some(u64::MAX));
}

#[test]
fn token_encoding_is_exact() {
    let t = Token { mint: "m".to_string(), proofs: vec![] };
    assert_eq!(encode_token(&t), "cashuw00000000000000000000000000000001m");
}

#[test]
fn token_round_trips_through_its_string_form() {
    let t = Token {
        mint: "http://127.0.0.1:3338".to_string(),
        proofs: vec![mk_proof(1, "a"), mk_proof(4, "longer-secret"), mk_proof(2, "")],
    };
    let s = encode_token(&t);
    let back = parse_token(&s).unwrap();
    assert_eq!(back.mint, t.mint);
    assert_eq!(back.proofs.len(), 3);
    for (orig, parsed) in t.proofs.iter().zip(back.proofs.iter()) {
        assert_eq!(orig.amount, parsed.amount);
        assert_eq!(orig.secret, parsed.secret);
        assert_eq!(orig.c, parsed.c);
    }
}

#[test]
fn malformed_tokens_fail_to_parse() {
    for bad in [
        "",
        "cashuw",
        "cashuw0000000000000000",
        "cashuX00000000000000000000000000000001m",
        "cashuw0000000000000000000000000000000gm",
        "cashuw00000000000000000000000000000002m",
        "cashuw00000000000000000000000000000001mx",
        "cashuw00000000000000010000000000000001m",
    ] {
        assert_eq!(parse_token(bad).unwrap_err(), WalletError::SerializationError);
    }
}

#[test]
fn send_round_trip_token_carries_the_sent_amount() {
    let mut w = wallet_with_three_proofs();
    let plan = w.send(5).unwrap();
    assert_eq!(plan.amount, 5);
    assert_eq!(plan.selected.len(), 3);
    assert_eq!(plan.pay_outputs, vec![1, 4]);
    assert_eq!(plan.change_outputs, vec![2]);
    assert_eq!(plan.merged_outputs(), vec![1, 4, 2]);

    // What the crypto engine would hand back after the mint signs the split:
    // one fresh proof per requested output, in the same order.
    let new_proofs = vec![mk_proof(1, "fresh-1"), mk_proof(4, "fresh-2"), mk_proof(2, "fresh-3")];
    let token_string = w.send_finish(&plan, new_proofs).unwrap();

    // The spent proofs are gone; only the change is retained.
    assert_eq!(w.get_balance(), 2);

    // The recipient parses the token back to exactly the sent amount.
    let token = parse_token(&token_string).unwrap();
    assert_eq!(token.mint, "http://127.0.0.1:3338");
    let received: u64 = token.proofs.iter().map(|p| p.amount).sum();
    assert_eq!(received, 5);
    assert_eq!(token.proofs.len(), 2);
    assert_eq!(token.proofs[0].secret, "fresh-1");
    assert_eq!(token.proofs[1].secret, "fresh-2");
}

#[test]
fn send_finish_rejects_a_mint_answer_that_differs_from_the_plan() {
    let mut w = wallet_with_three_proofs();
    let plan = w.send(5).unwrap();
    let wrong_count = vec![mk_proof(1, "f1"), mk_proof(4, "f2")];
    assert_eq!(w.send_finish(&plan, wrong_count).unwrap_err(), WalletError::ProtocolError);
    let wrong_amounts = vec![mk_proof(1, "f1"), mk_proof(4, "f2"), mk_proof(8, "f3")];
    assert_eq!(w.send_finish(&plan, wrong_amounts).unwrap_err(), WalletError::ProtocolError);
    // The store is untouched by a refused answer.
    assert_eq!(w.get_balance(), 7);
}

#[test]
fn receive_plans_the_tokens_whole_value() {
    let w = Wallet::build("http://127.0.0.1:3338");
    let t = Token {
        mint: "http://other-mint".to_string(),
        proofs: vec![mk_proof(2, "x"), mk_proof(3, "y")],
    };
    let s = encode_token(&t);
    let plan = w.receive(&s).unwrap();
    assert_eq!(plan.inputs.len(), 2);
    assert_eq!(plan.outputs, vec![1, 4]);
    let total: u64 = plan.outputs.iter().sum();
    assert_eq!(total, 5);
}

#[test]
fn receive_rejects_malformed_and_overflowing_tokens() {
    let w = Wallet::build("http://127.0.0.1:3338");
    assert_eq!(w.receive("not a token").unwrap_err(), WalletError::SerializationError);
    let t = Token {
        mint: "m".to_string(),
        proofs: vec![mk_proof(u64::MAX, "x"), mk_proof(1, "y")],
    };
    let s = encode_token(&t);
    assert_eq!(w.receive(&s).unwrap_err(), WalletError::ProtocolError);
}

#[test]
fn store_new_proofs_books_every_minted_proof() {
    let mut w = Wallet::build("http://127.0.0.1:3338");
    w.store_new_proofs(vec![mk_proof(1, "m1"), mk_proof(4, "m2"), mk_proof(16, "m3")]);
    assert_eq!(w.get_balance(), 21);
}

#[test]
fn error_messages_name_each_failure() {
    assert_eq!(WalletError::InsufficientFunds.message(), "insufficient funds");
    assert_eq!(WalletError::InvoiceNotFound.message(), "invoice not found");
    assert_eq!(WalletError::StorageError.message(), "storage failure");
    assert_eq!(WalletError::NetworkError.message(), "could not reach the mint");
    assert_eq!(WalletError::ProtocolError.message(), "unexpected answer from the mint");
    assert_eq!(WalletError::SerializationError.message(), "malformed token");
    assert_eq!(WalletError::SetupError.message(), "error setting up wallet");
}
