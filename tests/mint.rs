use ecash_mint::keyset::KeySet;
use ecash_mint::scheme::BlindSignatureScheme;
use ecash_mint::types::{
    BlindedMessage, CheckSpendableRequest, CryptoError, Error, KeyPair, MeltRequest, MintRequest,
    SplitRequest,
};
use ecash_mint::{Amount, Mint, Proof};
use vstd::seq::Seq;

/// A transparent stand-in for the elliptic-curve scheme: a signature is the
/// private key followed by the signed bytes.
struct ToyScheme;

impl BlindSignatureScheme for ToyScheme {
    // The spec items only describe the scheme to the verifier; nothing calls them.
    fn secret_key_of(&self, _: Seq<char>, _: Seq<char>, _: u64) -> Seq<u8> {
        panic!("specification only")
    }

    fn public_key_of(&self, _: Seq<char>, _: Seq<char>, _: u64) -> Seq<u8> {
        panic!("specification only")
    }

    fn keyset_id_of(&self, _: Seq<char>, _: Seq<char>) -> Seq<char> {
        panic!("specification only")
    }

    fn signature_of(&self, _: Seq<u8>, _: Seq<u8>) -> Seq<u8> {
        panic!("specification only")
    }

    fn accepts(&self, _: Seq<u8>, _: Seq<u8>, _: Seq<char>) -> bool {
        panic!("specification only")
    }

    fn derive_keypair(&self, secret: &str, derivation_path: &str, amount: u64) -> KeyPair {
        let secret_key = format!("{}/{}/{}", secret, derivation_path, amount).into_bytes();
        let mut public_key = secret_key.clone();
        public_key.reverse();
        KeyPair { amount: 0, secret_key, public_key }
    }

    fn derive_keyset_id(&self, secret: &str, derivation_path: &str) -> String {
        format!("{}-{}", secret, derivation_path)
    }

    fn sign(&self, secret_key: &Vec<u8>, blinded: &Vec<u8>) -> Vec<u8> {
        let mut out = secret_key.clone();
        out.extend_from_slice(blinded);
        out
    }

    fn verify(&self, secret_key: &Vec<u8>, signature: &Vec<u8>, secret: &str) -> Result<(), String> {
        let mut expected = secret_key.clone();
        expected.extend_from_slice(secret.as_bytes());
        if *signature == expected {
            Ok(())
        } else {
            Err("signature mismatch".to_string())
        }
    }
}

fn amt(sat: u64) -> Amount {
    Amount::from_sat(sat)
}

fn new_mint() -> Mint {
    Mint::new(&ToyScheme, "seed", "0/0/0", Vec::new(), Vec::new(), 8)
}

fn message(sat: u64, b: &str) -> BlindedMessage {
    BlindedMessage { amount: amt(sat), b: b.as_bytes().to_vec() }
}

/// Mints a proof of `sat` for `secret` the way a wallet would.
fn issue(mint: &mut Mint, secret: &str, sat: u64) -> Proof {
    let resp = mint
        .process_mint_request(&ToyScheme, MintRequest { outputs: vec![message(sat, secret)] })
        .unwrap();
    let promise = &resp.promises[0];
    Proof {
        amount: Some(promise.amount),
        secret: secret.to_string(),
        c: Some(promise.c.clone()),
        id: Some(promise.id.clone()),
        script: None,
    }
}

fn sats(ps: &[ecash_mint::types::Promise]) -> Vec<u64> {
    ps.iter().map(|p| p.amount.to_sat()).collect()
}

#[test]
fn amount_split_thirteen() {
    assert_eq!(amt(13).split(), vec![amt(8), amt(4), amt(1)]);
}

#[test]
fn amount_split_zero_is_empty() {
    assert!(amt(0).split().is_empty());
}

#[test]
fn amount_split_sums_to_input() {
    for v in [1u64, 2, 7, 64, 100, 1023, 123_456_789, u64::MAX] {
        let parts = amt(v).split();
        let total: u128 = parts.iter().map(|a| a.to_sat() as u128).sum();
        assert_eq!(total, v as u128);
        for w in parts.windows(2) {
            assert!(w[0].to_sat() > w[1].to_sat());
        }
        assert!(parts.iter().all(|a| a.to_sat().is_power_of_two()));
    }
    assert_eq!(amt(u64::MAX).split().len(), 64);
}

#[test]
fn generated_keyset_has_power_of_two_keys() {
    let ks = KeySet::generate(&ToyScheme, "seed", "0/0/0", 5);
    let denominations: Vec<u64> = ks.keys.iter().map(|k| k.amount).collect();
    assert_eq!(denominations, vec![1, 2, 4, 8, 16]);
    assert_eq!(ks.id, "seed-0/0/0");
}

#[test]
fn identical_configuration_gives_identical_keyset_id() {
    assert_eq!(new_mint().active_keyset().id, new_mint().active_keyset().id);
}

#[test]
fn mint_supported_amount_returns_one_promise() {
    let mut mint = new_mint();
    let resp = mint
        .process_mint_request(&ToyScheme, MintRequest { outputs: vec![message(8, "x")] })
        .unwrap();
    assert_eq!(resp.promises.len(), 1);
    assert_eq!(resp.promises[0].amount, amt(8));
    assert_eq!(resp.promises[0].id, mint.active_keyset.id);
}

#[test]
fn mint_unsupported_amount_fails_amount_key() {
    let mut mint = new_mint();
    let err = mint
        .process_mint_request(&ToyScheme, MintRequest { outputs: vec![message(2, "a"), message(3, "b")] })
        .err()
        .unwrap();
    assert_eq!(err, Error::AmountKey);
    let err = mint
        .process_mint_request(&ToyScheme, MintRequest { outputs: vec![message(256, "c")] })
        .err()
        .unwrap();
    assert_eq!(err, Error::AmountKey);
}

#[test]
fn mint_keeps_input_order() {
    let mut mint = new_mint();
    let resp = mint
        .process_mint_request(
            &ToyScheme,
            MintRequest { outputs: vec![message(1, "a"), message(16, "b"), message(4, "c")] },
        )
        .unwrap();
    assert_eq!(sats(&resp.promises), vec![1, 16, 4]);
}

#[test]
fn split_conserves_value() {
    let mut mint = new_mint();
    let proofs = vec![issue(&mut mint, "s1", 8), issue(&mut mint, "s2", 4), issue(&mut mint, "s3", 1)];
    let req = SplitRequest {
        amount: amt(5),
        proofs,
        outputs: vec![message(4, "o1"), message(1, "o2"), message(8, "o3")],
    };
    let resp = mint.process_split_request(&ToyScheme, req).unwrap();
    assert_eq!(sats(&resp.snd), vec![4, 1]);
    assert_eq!(sats(&resp.fst), vec![8]);
    let total: u64 = sats(&resp.snd).iter().chain(sats(&resp.fst).iter()).sum();
    assert_eq!(total, 13);
    assert!(resp.snd.iter().chain(resp.fst.iter()).all(|p| p.id == mint.active_keyset.id));
}

#[test]
fn split_falls_back_to_reversed_outputs() {
    let mut mint = new_mint();
    let proofs = vec![issue(&mut mint, "r1", 4), issue(&mut mint, "r2", 2), issue(&mut mint, "r3", 1)];
    let req = SplitRequest {
        amount: amt(6),
        proofs,
        outputs: vec![message(1, "a"), message(4, "b"), message(2, "c")],
    };
    let resp = mint.process_split_request(&ToyScheme, req).unwrap();
    assert_eq!(sats(&resp.snd), vec![2, 4]);
    assert_eq!(sats(&resp.fst), vec![1]);
}

#[test]
fn split_fails_output_ordering() {
    let mut mint = new_mint();
    let proofs = vec![issue(&mut mint, "q1", 4)];
    let req = SplitRequest {
        amount: amt(3),
        proofs: proofs.clone(),
        outputs: vec![message(2, "a"), message(2, "b")],
    };
    let err = mint.process_split_request(&ToyScheme, req).err().unwrap();
    assert_eq!(err, Error::OutputOrdering);
    // Nothing was marked spent.
    let resp = mint.check_spendable(&CheckSpendableRequest { proofs }).unwrap();
    assert_eq!(resp.spendable, vec![false]);
}

#[test]
fn split_amount_mismatches_fail() {
    let mut mint = new_mint();
    let p = issue(&mut mint, "m1", 4);
    let short_proofs = SplitRequest { amount: amt(8), proofs: vec![p.clone()], outputs: vec![message(8, "a")] };
    assert_eq!(mint.process_split_request(&ToyScheme, short_proofs).err().unwrap(), Error::Amount);
    let short_outputs = SplitRequest { amount: amt(4), proofs: vec![p.clone()], outputs: vec![message(2, "a")] };
    assert_eq!(mint.process_split_request(&ToyScheme, short_outputs).err().unwrap(), Error::Amount);
    let unequal = SplitRequest {
        amount: amt(2),
        proofs: vec![p],
        outputs: vec![message(2, "a"), message(4, "b")],
    };
    assert_eq!(mint.process_split_request(&ToyScheme, unequal).err().unwrap(), Error::Amount);
}

#[test]
fn split_output_without_key_fails_amount_key() {
    let mut mint = new_mint();
    let p = issue(&mut mint, "k1", 4);
    let req = SplitRequest { amount: amt(1), proofs: vec![p], outputs: vec![message(1, "a"), message(3, "b")] };
    assert_eq!(mint.process_split_request(&ToyScheme, req).err().unwrap(), Error::AmountKey);
}

#[test]
fn reused_secret_fails_token_spent() {
    let mut mint = new_mint();
    let p = issue(&mut mint, "twice", 2);
    let req = |p: &Proof| SplitRequest { amount: amt(2), proofs: vec![p.clone()], outputs: vec![message(2, "o")] };
    assert!(mint.process_split_request(&ToyScheme, req(&p)).is_ok());
    assert_eq!(mint.process_split_request(&ToyScheme, req(&p)).err().unwrap(), Error::TokenSpent);
}

#[test]
fn second_of_two_splits_on_one_secret_fails() {
    let mut mint = new_mint();
    let shared = issue(&mut mint, "shared", 4);
    let other = issue(&mut mint, "other", 4);
    let first = SplitRequest { amount: amt(4), proofs: vec![shared.clone()], outputs: vec![message(4, "a")] };
    let second = SplitRequest {
        amount: amt(8),
        proofs: vec![other, shared],
        outputs: vec![message(8, "b")],
    };
    assert!(mint.process_split_request(&ToyScheme, first).is_ok());
    assert_eq!(mint.process_split_request(&ToyScheme, second).err().unwrap(), Error::TokenSpent);
}

#[test]
fn check_spendable_is_a_pure_read() {
    let mut mint = new_mint();
    let p = issue(&mut mint, "probe", 1);
    let probe = CheckSpendableRequest { proofs: vec![p.clone()] };
    assert_eq!(mint.check_spendable(&probe).unwrap().spendable, vec![false]);
    assert_eq!(mint.check_spendable(&probe).unwrap().spendable, vec![false]);
    let req = SplitRequest { amount: amt(1), proofs: vec![p], outputs: vec![message(1, "o")] };
    mint.process_split_request(&ToyScheme, req).unwrap();
    assert_eq!(mint.check_spendable(&probe).unwrap().spendable, vec![true]);
}

#[test]
fn forged_signature_is_rejected() {
    let mut mint = new_mint();
    let mut p = issue(&mut mint, "forged", 2);
    p.c = Some(b"nonsense".to_vec());
    assert_eq!(
        mint.verify_proof(&ToyScheme, &p).err().unwrap(),
        Error::Crypto(CryptoError::Rejected("signature mismatch".to_string()))
    );
    p.c = None;
    assert_eq!(mint.verify_proof(&ToyScheme, &p).err().unwrap(), Error::Crypto(CryptoError::MissingSignature));
}

#[test]
fn proof_without_amount_or_key_fails_amount_key() {
    let mut mint = new_mint();
    let mut p = issue(&mut mint, "odd", 2);
    p.amount = Some(amt(3));
    assert_eq!(mint.verify_proof(&ToyScheme, &p).err().unwrap(), Error::AmountKey);
    p.amount = None;
    assert_eq!(mint.verify_proof(&ToyScheme, &p).err().unwrap(), Error::AmountKey);
}

#[test]
fn proofs_of_a_rotated_keyset_still_verify() {
    let mut old = Mint::new(&ToyScheme, "old-seed", "0/0/0", Vec::new(), Vec::new(), 4);
    let p = issue(&mut old, "legacy", 2);
    let retired = old.active_keyset().clone();
    let mut mint = Mint::new(&ToyScheme, "new-seed", "0/0/1", vec![retired], Vec::new(), 4);
    assert_eq!(mint.verify_proof(&ToyScheme, &p).unwrap(), "legacy");
    let mut no_id = p.clone();
    no_id.id = None;
    assert!(mint.verify_proof(&ToyScheme, &no_id).is_err());
    let req = SplitRequest { amount: amt(2), proofs: vec![p], outputs: vec![message(2, "n")] };
    let resp = mint.process_split_request(&ToyScheme, req).unwrap();
    assert_eq!(resp.snd[0].id, "new-seed-0/0/1");
}

#[test]
fn keyset_listing_and_lookup() {
    let retired = KeySet::generate(&ToyScheme, "old", "p", 3);
    let mint = Mint::new(&ToyScheme, "seed", "0/0/0", vec![retired], Vec::new(), 8);
    assert_eq!(mint.keysets().keysets, vec!["seed-0/0/0".to_string(), "old-p".to_string()]);
    let active = mint.keyset("seed-0/0/0").unwrap();
    assert_eq!(active.keys.len(), 8);
    assert_eq!(mint.keyset("old-p").unwrap().keys.len(), 3);
    assert!(mint.keyset("missing").is_none());
    let pubkeys = mint.active_keyset_pubkeys();
    assert_eq!(pubkeys.id, "seed-0/0/0");
    assert_eq!(pubkeys.keys[3].amount, 8);
    assert_eq!(pubkeys.keys[3].public_key, mint.active_keyset.keys[3].public_key);
}

#[test]
fn melt_checks_invoice_cover() {
    let mut mint = new_mint();
    let p = issue(&mut mint, "melt-a", 4);
    let req = MeltRequest { proofs: vec![p], invoice_amount: amt(5), outputs: None };
    assert_eq!(mint.verify_melt_request(&ToyScheme, &req).err().unwrap(), Error::Amount);
    let enough = MeltRequest { invoice_amount: amt(4), ..req };
    assert!(mint.verify_melt_request(&ToyScheme, &enough).is_ok());
}

#[test]
fn melt_returns_canonical_change_and_spends_proofs() {
    let mut mint = new_mint();
    let proofs = vec![issue(&mut mint, "m-a", 16)];
    let req = MeltRequest {
        proofs: proofs.clone(),
        invoice_amount: amt(3),
        outputs: Some(vec![message(1, "c1"), message(1, "c2"), message(1, "c3"), message(1, "c4")]),
    };
    mint.verify_melt_request(&ToyScheme, &req).unwrap();
    let resp = mint.process_melt_request(&ToyScheme, &req, "preimage", amt(3)).unwrap();
    assert!(resp.paid);
    assert_eq!(resp.preimage, Some("preimage".to_string()));
    let change = resp.change.unwrap();
    assert_eq!(sats(&change), vec![8, 4, 1]);
    assert_eq!(change[0].c, ToyScheme.sign(&mint.active_keyset.keys[3].secret_key, &b"c1".to_vec()));
    let probe = CheckSpendableRequest { proofs };
    assert_eq!(mint.check_spendable(&probe).unwrap().spendable, vec![true]);
    assert_eq!(mint.verify_melt_request(&ToyScheme, &req).err().unwrap(), Error::TokenSpent);
}

#[test]
fn melt_with_too_few_outputs_fails_amount() {
    let mut mint = new_mint();
    let proofs = vec![issue(&mut mint, "m-b", 16)];
    let req = MeltRequest {
        proofs: proofs.clone(),
        invoice_amount: amt(3),
        outputs: Some(vec![message(1, "c1"), message(1, "c2")]),
    };
    assert_eq!(mint.process_melt_request(&ToyScheme, &req, "p", amt(3)).err().unwrap(), Error::Amount);
    let probe = CheckSpendableRequest { proofs };
    assert_eq!(mint.check_spendable(&probe).unwrap().spendable, vec![false]);
}

#[test]
fn melt_paying_more_than_proofs_fails_amount() {
    let mut mint = new_mint();
    let req = MeltRequest { proofs: vec![issue(&mut mint, "m-c", 2)], invoice_amount: amt(2), outputs: None };
    assert_eq!(mint.process_melt_request(&ToyScheme, &req, "p", amt(3)).err().unwrap(), Error::Amount);
}

#[test]
fn melt_without_outputs_gives_no_change() {
    let mut mint = new_mint();
    let req = MeltRequest { proofs: vec![issue(&mut mint, "m-d", 8)], invoice_amount: amt(2), outputs: None };
    let resp = mint.process_melt_request(&ToyScheme, &req, "p", amt(2)).unwrap();
    assert_eq!(resp.change.unwrap().len(), 0);
}

#[test]
fn keyset_ids_are_listed_once() {
    let a = KeySet::generate(&ToyScheme, "old", "p", 2);
    let b = KeySet::generate(&ToyScheme, "old", "p", 3);
    let same_as_active = KeySet::generate(&ToyScheme, "seed", "0/0/0", 1);
    let mint = Mint::new(&ToyScheme, "seed", "0/0/0", vec![a, same_as_active, b], Vec::new(), 8);
    assert_eq!(mint.keysets().keysets, vec!["seed-0/0/0".to_string(), "old-p".to_string()]);
}

#[test]
fn duplicate_secret_within_one_split_fails_token_spent() {
    let mut mint = new_mint();
    let p = issue(&mut mint, "dup", 4);
    let req = SplitRequest {
        amount: amt(8),
        proofs: vec![p.clone(), p.clone()],
        outputs: vec![message(8, "o")],
    };
    assert_eq!(mint.process_split_request(&ToyScheme, req).err().unwrap(), Error::TokenSpent);
    let probe = CheckSpendableRequest { proofs: vec![p] };
    assert_eq!(mint.check_spendable(&probe).unwrap().spendable, vec![false]);
}

#[test]
fn reused_secret_later_in_request_fails_token_spent() {
    let mut mint = new_mint();
    let spent = issue(&mut mint, "late", 2);
    let fresh = issue(&mut mint, "fresh", 2);
    let first = SplitRequest { amount: amt(2), proofs: vec![spent.clone()], outputs: vec![message(2, "a")] };
    mint.process_split_request(&ToyScheme, first).unwrap();
    let second = SplitRequest {
        amount: amt(4),
        proofs: vec![fresh.clone(), spent.clone()],
        outputs: vec![message(4, "b")],
    };
    assert_eq!(mint.process_split_request(&ToyScheme, second).err().unwrap(), Error::TokenSpent);
    let melt = MeltRequest { proofs: vec![fresh, spent], invoice_amount: amt(1), outputs: None };
    assert_eq!(mint.verify_melt_request(&ToyScheme, &melt).err().unwrap(), Error::TokenSpent);
}

#[test]
fn duplicate_secret_within_one_melt_fails_token_spent() {
    let mut mint = new_mint();
    let p = issue(&mut mint, "dup-melt", 4);
    let req = MeltRequest { proofs: vec![p.clone(), p], invoice_amount: amt(4), outputs: None };
    assert_eq!(mint.verify_melt_request(&ToyScheme, &req).err().unwrap(), Error::TokenSpent);
}

#[test]
fn missing_signature_later_in_split_is_reported() {
    let mut mint = new_mint();
    let good = issue(&mut mint, "good", 2);
    let mut bare = issue(&mut mint, "bare", 2);
    bare.c = None;
    let req = SplitRequest { amount: amt(4), proofs: vec![good, bare], outputs: vec![message(4, "o")] };
    assert_eq!(
        mint.process_split_request(&ToyScheme, req).err().unwrap(),
        Error::Crypto(CryptoError::MissingSignature)
    );
}

#[test]
fn empty_melt_with_zero_invoice_verifies() {
    let mut mint = new_mint();
    let req = MeltRequest { proofs: Vec::new(), invoice_amount: amt(0), outputs: None };
    assert!(mint.verify_melt_request(&ToyScheme, &req).is_ok());
}

#[test]
fn melting_the_same_proofs_twice_fails_token_spent() {
    let mut mint = new_mint();
    let req = MeltRequest { proofs: vec![issue(&mut mint, "twice-melt", 8)], invoice_amount: amt(2), outputs: None };
    assert!(mint.process_melt_request(&ToyScheme, &req, "p", amt(2)).is_ok());
    assert_eq!(mint.process_melt_request(&ToyScheme, &req, "p", amt(2)).err().unwrap(), Error::TokenSpent);
}

#[test]
fn melt_with_repeated_proof_fails_token_spent() {
    let mut mint = new_mint();
    let p = issue(&mut mint, "rep-melt", 8);
    let req = MeltRequest { proofs: vec![p.clone(), p], invoice_amount: amt(2), outputs: None };
    assert_eq!(mint.process_melt_request(&ToyScheme, &req, "p", amt(2)).err().unwrap(), Error::TokenSpent);
}

#[test]
fn split_reversed_pass_example() {
    let mut mint = new_mint();
    let proofs = vec![issue(&mut mint, "rv1", 2), issue(&mut mint, "rv2", 1)];
    let req = SplitRequest { amount: amt(2), proofs, outputs: vec![message(1, "x"), message(2, "y")] };
    let resp = mint.process_split_request(&ToyScheme, req).unwrap();
    assert_eq!(sats(&resp.snd), vec![2]);
    assert_eq!(sats(&resp.fst), vec![1]);
    assert_eq!(resp.snd[0].c, ToyScheme.sign(&mint.active_keyset.keys[1].secret_key, &b"y".to_vec()));
}

#[test]
fn split_no_ordering_balances_example() {
    let mut mint = new_mint();
    let proofs = vec![issue(&mut mint, "nb1", 4), issue(&mut mint, "nb2", 2)];
    let req = SplitRequest {
        amount: amt(4),
        proofs,
        outputs: vec![message(1, "a"), message(4, "b"), message(1, "c")],
    };
    assert_eq!(mint.process_split_request(&ToyScheme, req).err().unwrap(), Error::OutputOrdering);
}
