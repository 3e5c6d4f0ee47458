//! Domain records stored by the higher-level stores: transactions,
//! accounts, claims and stakes. Cryptographic key material is carried in
//! its textual encoding; signing and key generation live outside the
//! library.

use crate::assoc::bytes_clone;
use crate::digest::{sha256_digest, sha256_of};
use vstd::prelude::*;

verus! {

/// A transaction nonce.
pub type TxNonce = u128;

/// A transaction timestamp, seconds.
pub type TxTimestamp = i64;

/// A transaction amount.
pub type TxAmount = u128;

/// A byte vector.
pub type ByteVec = Vec<u8>;

/// A secp256k1 public key, carried in its textual encoding.
#[derive(Debug)]
pub struct PublicKey {
    pub encoded: Vec<u8>,
}

impl Clone for PublicKey {
    fn clone(&self) -> (r: Self)
        ensures
            r.encoded@ == self.encoded@,
    {
        PublicKey { encoded: bytes_clone(&self.encoded) }
    }
}

/// A signature, carried in its textual encoding.
#[derive(Debug)]
pub struct Signature {
    pub encoded: Vec<u8>,
}

impl Clone for Signature {
    fn clone(&self) -> (r: Self)
        ensures
            r.encoded@ == self.encoded@,
    {
        Signature { encoded: bytes_clone(&self.encoded) }
    }
}

/// Represents a secp256k1 public key, used as an account address.
#[derive(Debug)]
pub struct Address(pub PublicKey);

impl Clone for Address {
    fn clone(&self) -> (r: Self)
        ensures
            r.0.encoded@ == self.0.encoded@,
    {
        Address(self.0.clone())
    }
}

impl Address {
    pub fn new(public_key: PublicKey) -> (r: Self)
        ensures
            r.0.encoded@ == public_key.encoded@,
    {
        Address(public_key)
    }

    pub fn public_key(&self) -> (r: PublicKey)
        ensures
            r.encoded@ == self.0.encoded@,
    {
        self.0.clone()
    }

    pub fn public_key_bytes(&self) -> (r: ByteVec)
        ensures
            r@ == self.0.encoded@,
    {
        bytes_clone(&self.0.encoded)
    }
}

/// A token denomination.
#[derive(Debug)]
pub struct Token {
    pub name: Vec<u8>,
    pub symbol: Vec<u8>,
    pub decimals: u8,
}

impl Clone for Token {
    fn clone(&self) -> (r: Self)
        ensures
            r.name@ == self.name@,
            r.symbol@ == self.symbol@,
            r.decimals == self.decimals,
    {
        Token {
            name: bytes_clone(&self.name),
            symbol: bytes_clone(&self.symbol),
            decimals: self.decimals,
        }
    }
}

impl Default for Token {
    fn default() -> (r: Self)
        ensures
            r.name@.len() == 0,
            r.symbol@.len() == 0,
            r.decimals == 0,
    {
        Token { name: Vec::new(), symbol: Vec::new(), decimals: 0 }
    }
}

/// The digest identifying a transaction, with its textual form.
#[derive(Debug)]
pub struct TransactionDigest {
    pub inner: Vec<u8>,
    pub digest_string: Vec<u8>,
}

impl Clone for TransactionDigest {
    fn clone(&self) -> (r: Self)
        ensures
            r.inner@ == self.inner@,
            r.digest_string@ == self.digest_string@,
    {
        TransactionDigest {
            inner: bytes_clone(&self.inner),
            digest_string: bytes_clone(&self.digest_string),
        }
    }
}

impl Default for TransactionDigest {
    fn default() -> (r: Self)
        ensures
            r.inner@.len() == 0,
            r.digest_string@.len() == 0,
    {
        TransactionDigest { inner: Vec::new(), digest_string: Vec::new() }
    }
}

/// A transaction.
#[derive(Debug)]
pub struct Txn {
    pub id: TransactionDigest,
    pub timestamp: TxTimestamp,
    pub sender_address: Address,
    pub sender_public_key: PublicKey,
    pub receiver_address: Address,
    pub token: Token,
    pub amount: TxAmount,
    pub signature: Signature,
    pub validators: Option<Vec<(Vec<u8>, bool)>>,
    pub nonce: TxNonce,
}

/// The decimal digits of a number, most significant first.
pub open spec fn dec_digits(n: nat) -> Seq<u8>
    decreases n,
{
    if n < 10 {
        seq![(48 + n) as u8]
    } else {
        dec_digits(n / 10).push((48 + n % 10) as u8)
    }
}

/// The decimal form of a signed number: a minus sign, then the digits of
/// the magnitude.
pub open spec fn dec_signed(n: int) -> Seq<u8> {
    if n < 0 {
        seq![45u8] + dec_digits((-n) as nat)
    } else {
        dec_digits(n as nat)
    }
}

/// Render an unsigned number in decimal.
pub fn u128_to_dec(n: u128) -> (r: Vec<u8>)
    ensures
        r@ == dec_digits(n as nat),
    decreases n,
{
    if n < 10 {
        let mut r: Vec<u8> = Vec::new();
        r.push(48 + (n as u8));
        proof {
            assert(r@ =~= dec_digits(n as nat));
        }
        r
    } else {
        let mut r = u128_to_dec(n / 10);
        r.push(48 + ((n % 10) as u8));
        r
    }
}

/// Render a signed number in decimal.
pub fn i64_to_dec(n: i64) -> (r: Vec<u8>)
    ensures
        r@ == dec_signed(n as int),
{
    if n < 0 {
        let magnitude: u64 = ((-(n + 1)) as u64) + 1;
        proof {
            assert(magnitude == -(n as int));
        }
        let mut r: Vec<u8> = Vec::new();
        r.push(45u8);
        let digits = u128_to_dec(magnitude as u128);
        r.extend_from_slice(digits.as_slice());
        proof {
            assert(r@ =~= dec_signed(n as int));
        }
        r
    } else {
        let r = u128_to_dec(n as u128);
        r
    }
}

/// The canonical byte rendering of a token: name, symbol and decimals,
/// slash-separated. This fixed rendering, not a formatter's output, feeds
/// the transaction digest, so digests are a stable function of the token's
/// fields alone.
pub open spec fn token_repr(name: Seq<u8>, symbol: Seq<u8>, decimals: u8) -> Seq<u8> {
    name + seq![47u8] + symbol + seq![47u8] + dec_digits(decimals as nat)
}

/// The canonical digest payload of a transaction: its fields in order,
/// comma-separated, numbers in decimal.
pub open spec fn txn_payload(
    timestamp: i64,
    sender_address: Seq<u8>,
    sender_public_key: Seq<u8>,
    receiver_address: Seq<u8>,
    token: (Seq<u8>, Seq<u8>, u8),
    amount: u128,
    nonce: u128,
) -> Seq<u8> {
    dec_signed(timestamp as int) + seq![44u8] + sender_address + seq![44u8] + sender_public_key
        + seq![44u8] + receiver_address + seq![44u8] + dec_digits(amount as nat) + seq![44u8]
        + token_repr(token.0, token.1, token.2) + seq![44u8] + dec_digits(nonce as nat)
}

/// The digest of a transaction's canonical payload.
pub fn generate_txn_digest_vec(
    timestamp: TxTimestamp,
    sender_address: ByteVec,
    sender_public_key: PublicKey,
    receiver_address: ByteVec,
    token: Token,
    amount: TxAmount,
    nonce: TxNonce,
) -> (r: ByteVec)
    ensures
        r@ == sha256_of(
            txn_payload(
                timestamp,
                sender_address@,
                sender_public_key.encoded@,
                receiver_address@,
                (token.name@, token.symbol@, token.decimals),
                amount,
                nonce,
            ),
        ),
{
    let mut payload: Vec<u8> = Vec::new();
    let ts = i64_to_dec(timestamp);
    payload.extend_from_slice(ts.as_slice());
    payload.push(44u8);
    payload.extend_from_slice(sender_address.as_slice());
    payload.push(44u8);
    payload.extend_from_slice(sender_public_key.encoded.as_slice());
    payload.push(44u8);
    payload.extend_from_slice(receiver_address.as_slice());
    payload.push(44u8);
    let am = u128_to_dec(amount);
    payload.extend_from_slice(am.as_slice());
    payload.push(44u8);
    payload.extend_from_slice(token.name.as_slice());
    payload.push(47u8);
    payload.extend_from_slice(token.symbol.as_slice());
    payload.push(47u8);
    let dm = u128_to_dec(token.decimals as u128);
    payload.extend_from_slice(dm.as_slice());
    payload.push(44u8);
    let nn = u128_to_dec(nonce);
    payload.extend_from_slice(nn.as_slice());
    proof {
        assert(payload@ =~= txn_payload(
            timestamp,
            sender_address@,
            sender_public_key.encoded@,
            receiver_address@,
            (token.name@, token.symbol@, token.decimals),
            amount,
            nonce,
        ));
    }
    sha256_digest(payload.as_slice())
}

impl Txn {
    pub fn timestamp(&self) -> (r: TxTimestamp)
        ensures
            r == self.timestamp,
    {
        self.timestamp
    }

    pub fn sender_address(&self) -> (r: Address)
        ensures
            r.0.encoded@ == self.sender_address.0.encoded@,
    {
        self.sender_address.clone()
    }

    pub fn sender_public_key(&self) -> (r: PublicKey)
        ensures
            r.encoded@ == self.sender_public_key.encoded@,
    {
        self.sender_public_key.clone()
    }

    pub fn receiver_address(&self) -> (r: Address)
        ensures
            r.0.encoded@ == self.receiver_address.0.encoded@,
    {
        self.receiver_address.clone()
    }

    pub fn token(&self) -> (r: Token)
        ensures
            r.name@ == self.token.name@,
            r.symbol@ == self.token.symbol@,
            r.decimals == self.token.decimals,
    {
        self.token.clone()
    }

    pub fn amount(&self) -> (r: TxAmount)
        ensures
            r == self.amount,
    {
        self.amount
    }

    pub fn nonce(&self) -> (r: TxNonce)
        ensures
            r == self.nonce,
    {
        self.nonce
    }

    /// The digest of this transaction's canonical payload.
    pub fn generate_txn_digest_vec(&self) -> (r: ByteVec)
        ensures
            r@ == sha256_of(
                txn_payload(
                    self.timestamp,
                    self.sender_address.0.encoded@,
                    self.sender_public_key.encoded@,
                    self.receiver_address.0.encoded@,
                    (self.token.name@, self.token.symbol@, self.token.decimals),
                    self.amount,
                    self.nonce,
                ),
            ),
    {
        generate_txn_digest_vec(
            self.timestamp(),
            self.sender_address().public_key_bytes(),
            self.sender_public_key(),
            self.receiver_address().public_key_bytes(),
            self.token(),
            self.amount(),
            self.nonce(),
        )
    }
}

/// An account's nonce.
pub type AccountNonce = u128;

/// Convenient access to all the digests in an account's history, split by
/// whether the transaction was sent, received, or staked.
#[derive(Debug)]
pub struct AccountDigests {
    pub sent: Vec<TransactionDigest>,
    pub recv: Vec<TransactionDigest>,
    pub stake: Vec<TransactionDigest>,
}

/// An account record.
#[derive(Debug)]
pub struct Account {
    pub address: Address,
    pub hash: Vec<u8>,
    pub nonce: AccountNonce,
    pub credits: u128,
    pub debits: u128,
    pub storage: Option<Vec<u8>>,
    pub code: Option<Vec<u8>>,
    pub pubkey: Vec<u8>,
    pub digests: AccountDigests,
    pub created_at: i64,
    pub updated_at: Option<i64>,
}

/// The desired updates to apply to an account.
#[derive(Debug)]
pub struct UpdateArgs {
    pub address: Address,
    pub nonce: Option<u128>,
    pub credits: Option<u128>,
    pub debits: Option<u128>,
    pub storage: Option<Option<Vec<u8>>>,
    pub code: Option<Option<Vec<u8>>>,
    pub digests: Option<AccountDigests>,
}

/// A node's privilege level.
#[derive(Debug, Clone, PartialEq, Eq, Structural)]
pub enum Eligibility {
    Harvester,
    Miner,
    Farmer,
    NotEligible,
}

/// The kinds of stake updates, with the amount or the percentage to slash.
#[derive(Debug, Clone, Copy, PartialEq, Eq, Structural)]
pub enum StakeUpdate {
    Add(u128),
    Withdrawal(u128),
    Slash(u8),
}

/// A stake: who stakes, to whom it is delegated, how much, when, and the
/// witnessing signatures.
#[derive(Debug)]
pub struct Stake {
    pub pubkey: PublicKey,
    pub from: Address,
    pub to: Option<Address>,
    pub amount: StakeUpdate,
    pub timestamp: i64,
    pub signature: Signature,
    pub validator_quorum_key: Vec<u8>,
    pub certificate: Option<(Vec<u8>, Vec<u8>)>,
}

/// The claim object carrying the key information used to mine blocks and
/// to determine mining entitlement.
#[derive(Debug)]
pub struct Claim {
    pub public_key: PublicKey,
    pub address: Address,
    pub hash: Vec<u8>,
    pub eligibility: Eligibility,
    pub ip_address: Vec<u8>,
    pub signature: Vec<u8>,
    pub stake: u128,
    pub stake_txns: Vec<Stake>,
}

} // verus!
