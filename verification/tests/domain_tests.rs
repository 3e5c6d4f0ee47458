//! Domain records: transaction digests and field accessors.

use lr_trie::domain::{
    generate_txn_digest_vec, Address, PublicKey, Signature, Token, TransactionDigest, Txn,
};
use sha2::Digest;

fn sample_txn() -> Txn {
    let pk = PublicKey { encoded: b"02aabbcc".to_vec() };
    let sender = Address::new(pk.clone());
    let receiver = Address::new(PublicKey { encoded: b"03ddeeff".to_vec() });
    Txn {
        id: TransactionDigest::default(),
        timestamp: -42,
        sender_address: sender,
        sender_public_key: pk,
        receiver_address: receiver,
        token: Token { name: b"token-name".to_vec(), symbol: b"TOK".to_vec(), decimals: 18 },
        amount: 12345,
        signature: Signature { encoded: b"sig".to_vec() },
        validators: None,
        nonce: 7,
    }
}

#[test]
fn txn_accessors_return_the_fields() {
    let txn = sample_txn();
    assert_eq!(txn.timestamp(), -42);
    assert_eq!(txn.amount(), 12345);
    assert_eq!(txn.nonce(), 7);
    assert_eq!(txn.sender_address().public_key_bytes(), b"02aabbcc".to_vec());
    assert_eq!(txn.sender_public_key().encoded, b"02aabbcc".to_vec());
    assert_eq!(txn.receiver_address().public_key_bytes(), b"03ddeeff".to_vec());
    assert_eq!(txn.token().symbol, b"TOK".to_vec());
    assert_eq!(txn.token().decimals, 18);
}

#[test]
fn txn_digest_hashes_the_canonical_payload() {
    let txn = sample_txn();
    let digest = txn.generate_txn_digest_vec();
    assert_eq!(digest.len(), 32);

    let payload = b"-42,02aabbcc,02aabbcc,03ddeeff,12345,token-name/TOK/18,7".to_vec();
    let expected = sha2::Sha256::digest(&payload).to_vec();
    assert_eq!(digest, expected);

    let again = generate_txn_digest_vec(
        txn.timestamp(),
        txn.sender_address().public_key_bytes(),
        txn.sender_public_key(),
        txn.receiver_address().public_key_bytes(),
        txn.token(),
        txn.amount(),
        txn.nonce(),
    );
    assert_eq!(again, digest);
}
