//! RSA keys and PKCS #1 v1.5 encryption of request and reply payloads.
//!
//! Keys are held as big-endian bytes of their components; the `rsa` crate does
//! the arithmetic. What this module states of that crate is listed with each
//! trusted function below.

use vstd::prelude::*;
use vstd::arithmetic::power::pow;
use vstd::string::StringSliceAdditionalSpecFns;
use rsa::traits::{PrivateKeyParts, PublicKeyParts};
use rsa::{BigUint, Pkcs1v15Encrypt, RsaPrivateKey, RsaPublicKey};

verus! {

/// The number that the big-endian bytes `b` denote.
pub open spec fn be_value(b: Seq<u8>) -> nat
    decreases b.len(),
{
    if b.len() == 0 {
        0
    } else {
        be_value(b.drop_last()) * 256 + b.last() as nat
    }
}

/// The view of an optional byte string.
pub open spec fn bytes_view(v: Option<Vec<u8>>) -> Option<Seq<u8>> {
    match v {
        Some(b) => Some(b@),
        None => None,
    }
}

/// The views of a list of byte strings.
pub open spec fn byte_views(v: Seq<Vec<u8>>) -> Seq<Seq<u8>> {
    v.map_values(|x: Vec<u8>| x@)
}

/// The checks that the `rsa` crate makes of a public key (`check_public`,
/// as encryption and key validation run it, with no size limit): `n` is
/// odd, `e` is odd, less than
/// `n`, and between 2 and 2^33 - 1.
pub open spec fn public_key_valid(n: Seq<u8>, e: Seq<u8>) -> bool {
    let nv = be_value(n);
    let ev = be_value(e);
    &&& ev < nv
    &&& nv % 2 == 1
    &&& ev % 2 == 1
    &&& 2 <= ev <= 0x1_ffff_ffff
}

/// The product of the numbers that the big-endian byte strings `ps` denote.
pub open spec fn product_of(ps: Seq<Seq<u8>>) -> nat
    decreases ps.len(),
{
    if ps.len() == 0 {
        1
    } else {
        product_of(ps.drop_last()) * be_value(ps.last())
    }
}

/// Whether `RsaPrivateKey::from_components` accepts the modulus `n`, the
/// exponents `e` and `d` and two or more prime factors `primes`: its
/// validation (`RsaPrivateKey::validate`) makes the public-key checks,
/// requires every factor to be above 1 and their product to be `n`, and
/// `d * e` to be 1 modulo `p - 1` for each factor `p`.
pub open spec fn private_key_accepted(
    n: Seq<u8>,
    e: Seq<u8>,
    d: Seq<u8>,
    primes: Seq<Seq<u8>>,
) -> bool {
    &&& public_key_valid(n, e)
    &&& forall|i: int| 0 <= i < primes.len() ==> be_value(#[trigger] primes[i]) > 1
    &&& product_of(primes) == be_value(n)
    &&& forall|i: int|
        0 <= i < primes.len() ==> ((be_value(d) * be_value(e)) as int) % (be_value(
            #[trigger] primes[i],
        ) - 1) == 1
}

/// What PKCS #1 v1.5 decryption of `ct` gives under the private key with the
/// components `n`, `e`, `d` and `primes` (`RsaPrivateKey::decrypt`), where
/// the key is accepted.
pub uninterp spec fn pkcs1v15_decryption(
    n: Seq<u8>,
    e: Seq<u8>,
    d: Seq<u8>,
    primes: Seq<Seq<u8>>,
    ct: Seq<u8>,
) -> Option<Seq<u8>>;

/// `p` is a prime number.
pub open spec fn is_prime(p: nat) -> bool {
    p > 1 && forall|q: nat| 1 < q < p ==> #[trigger] (p % q) != 0
}

/// The factors `primes` are distinct prime numbers.
pub open spec fn distinct_primes(primes: Seq<Seq<u8>>) -> bool {
    &&& forall|i: int| 0 <= i < primes.len() ==> is_prime(#[trigger] be_value(primes[i]))
    &&& forall|i: int, j: int|
        0 <= i < j < primes.len() ==> be_value(#[trigger] primes[i]) != be_value(
            #[trigger] primes[j],
        )
}

/// `block` is a PKCS #1 v1.5 encryption block of `msg` for a `k`-byte
/// modulus: `0x00 0x02 PS 0x00 msg`, with at least eight padding bytes `PS`,
/// none of them zero.
pub open spec fn is_encryption_block(block: Seq<u8>, msg: Seq<u8>, k: int) -> bool {
    &&& block.len() == k
    &&& msg.len() + 11 <= k
    &&& block[0] == 0
    &&& block[1] == 2
    &&& forall|i: int| 2 <= i < k - msg.len() - 1 ==> #[trigger] block[i] != 0
    &&& block[k - msg.len() - 1] == 0
    &&& block.skip(k - msg.len()) == msg
}

/// `ct` is a PKCS #1 v1.5 encryption of `msg` under the public key `(n, e)`:
/// the `k`-byte big-endian power `block^e mod n` of an encryption block.
pub open spec fn is_ciphertext_of(n: Seq<u8>, e: Seq<u8>, msg: Seq<u8>, ct: Seq<u8>) -> bool {
    &&& ct.len() == n.len()
    &&& exists|block: Seq<u8>|
        #![trigger is_encryption_block(block, msg, n.len() as int)]
        is_encryption_block(block, msg, n.len() as int) && be_value(ct) == pow(
            be_value(block) as int,
            be_value(e),
        ) % (be_value(n) as int)
}

/// The components `n`, `e`, `d`, `primes` are those of a generated
/// `bits`-bit key: a modulus of `(bits + 7) / 8` bytes without leading zero,
/// the exponent 65537, two factors that denote different numbers, components
/// that the public-key checks and `RsaPrivateKey::from_components` accept.
pub open spec fn generated_parts(
    bits: int,
    n: Seq<u8>,
    e: Seq<u8>,
    d: Seq<u8>,
    primes: Seq<Seq<u8>>,
) -> bool {
    &&& n.len() == (bits + 7) / 8
    &&& n.len() > 0
    &&& n[0] != 0
    &&& e == seq![1u8, 0u8, 1u8]
    &&& primes.len() == 2
    &&& be_value(primes[0]) != be_value(primes[1])
    &&& public_key_valid(n, e)
    &&& private_key_accepted(n, e, d, primes)
}

/// Generates the components of a fresh `bits`-bit RSA key with public
/// exponent 65537: modulus, public exponent, private exponent and primes,
/// each in big-endian bytes (`RsaPrivateKey::new` with `rand::thread_rng`).
/// The key is random; what the crate's source shows of every outcome is
/// stated: for these sizes `RsaPrivateKey::new` succeeds (its generation
/// loop retries until the modulus has exactly `bits` bits and the private
/// exponent exists, for two distinct primes); the exponent is 65537; the
/// modulus takes `(bits + 7) / 8` minimal bytes; and the components passed
/// `RsaPrivateKey::from_components`, whose validation includes the checks
/// of `check_public` on modulus and exponent. That the primes are
/// prime is not stated: the crate tests them probabilistically.
#[verifier::external_body]
fn rsa_generate(bits: usize) -> (res: Option<(Vec<u8>, Vec<u8>, Vec<u8>, Vec<Vec<u8>>)>)
    requires
        1024 <= bits <= 4096,
    ensures
        res is Some,
        res matches Some(t) ==> generated_parts(bits as int, t.0@, t.1@, t.2@, byte_views(t.3@)),
{
    let mut rng = rand::thread_rng();
    match RsaPrivateKey::new(&mut rng, bits) {
        Ok(k) => Some((
            k.n().to_bytes_be(),
            k.e().to_bytes_be(),
            k.d().to_bytes_be(),
            k.primes().iter().map(|p| p.to_bytes_be()).collect(),
        )),
        Err(_) => None,
    }
}

/// Whether `RsaPublicKey::new_with_max_size` with no size limit
/// (`usize::MAX` bits) accepts the modulus `n` and exponent `e`, which its
/// source shows to be [`public_key_valid`].
#[verifier::external_body]
fn rsa_public_key_accepted(n: &[u8], e: &[u8]) -> (res: bool)
    ensures
        res == public_key_valid(n@, e@),
{
    RsaPublicKey::new_with_max_size(BigUint::from_bytes_be(n), BigUint::from_bytes_be(e), usize::MAX)
        .is_ok()
}

/// Whether `RsaPrivateKey::from_components` accepts the components, which
/// its validation shows to be [`private_key_accepted`]; the precomputation
/// that follows ignores its own errors. With fewer than two primes that
/// function recovers them from `d`, and can panic there; this is called with
/// two or more.
#[verifier::external_body]
fn rsa_private_key_accepted(n: &[u8], e: &[u8], d: &[u8], primes: &Vec<Vec<u8>>) -> (res: bool)
    requires
        primes@.len() >= 2,
    ensures
        res == private_key_accepted(n@, e@, d@, byte_views(primes@)),
{
    let ps = primes.iter().map(|p| BigUint::from_bytes_be(p)).collect();
    let (n, e, d) = (BigUint::from_bytes_be(n), BigUint::from_bytes_be(e), BigUint::from_bytes_be(d));
    RsaPrivateKey::from_components(n, e, d, ps).is_ok()
}

/// PKCS #1 v1.5 encryption of `msg` under the public key `(n, e)`
/// (`RsaPublicKey::encrypt` with `Pkcs1v15Encrypt` and `rand::thread_rng`).
/// The padding is random; what holds of every outcome, as the crate's source
/// shows it: the encryption succeeds exactly where `msg` is at least eleven
/// bytes shorter than the modulus, and then gives a ciphertext of `msg`.
#[verifier::external_body]
fn rsa_encrypt(n: &[u8], e: &[u8], msg: &[u8]) -> (res: Option<Vec<u8>>)
    requires
        public_key_valid(n@, e@),
        n@.len() > 0,
        n@[0] != 0,
    ensures
        res is Some <==> msg@.len() + 11 <= n@.len(),
        res matches Some(ct) ==> is_ciphertext_of(n@, e@, msg@, ct@),
{
    let (n, e) = (BigUint::from_bytes_be(n), BigUint::from_bytes_be(e));
    let key = RsaPublicKey::new_with_max_size(n, e, usize::MAX).ok()?;
    let mut rng = rand::thread_rng();
    key.encrypt(&mut rng, Pkcs1v15Encrypt, msg).ok()
}

/// PKCS #1 v1.5 decryption of `ct` under the private key with the given
/// components (`RsaPrivateKey::from_components`, then `RsaPrivateKey::decrypt`
/// with `Pkcs1v15Encrypt`). Stated: the result is [`pkcs1v15_decryption`] of
/// the components and `ct`; and where the primes are distinct prime numbers
/// (as the crate's key generation makes them) and `n` has no leading zero
/// byte (so that its length is the key's size), a ciphertext of a message
/// under the matching public key decrypts to that message.
#[verifier::external_body]
fn rsa_decrypt(
    n: &[u8],
    e: &[u8],
    d: &[u8],
    primes: &Vec<Vec<u8>>,
    ct: &[u8],
) -> (res: Option<Vec<u8>>)
    requires
        primes@.len() >= 2,
        private_key_accepted(n@, e@, d@, byte_views(primes@)),
    ensures
        bytes_view(res) == pkcs1v15_decryption(n@, e@, d@, byte_views(primes@), ct@),
        forall|msg: Seq<u8>| #[trigger]
            is_ciphertext_of(n@, e@, msg, ct@) && distinct_primes(byte_views(primes@))
                && n@.len() > 0 && n@[0] != 0 ==> bytes_view(res) == Some(msg),
{
    let ps = primes.iter().map(|p| BigUint::from_bytes_be(p)).collect();
    let (n, e, d) = (BigUint::from_bytes_be(n), BigUint::from_bytes_be(e), BigUint::from_bytes_be(d));
    let key = RsaPrivateKey::from_components(n, e, d, ps).ok()?;
    key.decrypt(Pkcs1v15Encrypt, ct).ok()
}

/// The minimal big-endian bytes of the number that `b` denotes, as
/// `BigUint::to_bytes_be` writes them: no leading zero byte, and `[0]` for
/// zero.
pub open spec fn minimal_be(b: Seq<u8>) -> Seq<u8>
    decreases b.len(),
{
    if b.len() == 0 {
        seq![0u8]
    } else if b.len() > 1 && b[0] == 0 {
        minimal_be(b.drop_first())
    } else {
        b
    }
}

/// The view of an optional pair of byte strings.
pub open spec fn pair_view(v: Option<(Vec<u8>, Vec<u8>)>) -> Option<(Seq<u8>, Seq<u8>)> {
    match v {
        Some(p) => Some((p.0@, p.1@)),
        None => None,
    }
}

/// The bytes that `bincode::serialize` writes for the `RsaPublicKey` whose
/// modulus and exponent are the numbers with big-endian bytes `n` and `e`.
pub uninterp spec fn bincode_public_key(n: Seq<u8>, e: Seq<u8>) -> Seq<u8>;

/// What `bincode::deserialize::<RsaPublicKey>` reads from `bytes`: the
/// modulus and the exponent, each in minimal big-endian bytes; `None` where
/// it fails.
pub uninterp spec fn bincode_public_key_read(bytes: Seq<u8>) -> Option<(Seq<u8>, Seq<u8>)>;

/// `bincode::serialize` of the `rsa` crate's public key with modulus `n` and
/// exponent `e` (built by `RsaPublicKey::new_with_max_size` with no size
/// limit, which accepts them). Stated:
/// the result is [`bincode_public_key`] of `n` and `e`.
#[verifier::external_body]
fn bincode_write_public_key(n: &[u8], e: &[u8]) -> (res: Vec<u8>)
    requires
        public_key_valid(n@, e@),
    ensures
        res@ == bincode_public_key(n@, e@),
{
    let (n, e) = (BigUint::from_bytes_be(n), BigUint::from_bytes_be(e));
    match RsaPublicKey::new_with_max_size(n, e, usize::MAX) {
        Ok(k) => bincode::serialize(&k).unwrap_or_default(),
        Err(_) => Vec::new(),
    }
}

/// `bincode::deserialize::<RsaPublicKey>` of `bytes`, with the key's modulus
/// and exponent in big-endian bytes (`BigUint::to_bytes_be`). Stated: the
/// result is [`bincode_public_key_read`] of `bytes`; and, as the serde
/// implementations of `RsaPublicKey` and `BigUint` (the base-2^32 digits of
/// each number) show, the bytes written for a key read back as that key's
/// numbers.
#[verifier::external_body]
fn bincode_read_public_key(bytes: &[u8]) -> (res: Option<(Vec<u8>, Vec<u8>)>)
    ensures
        pair_view(res) == bincode_public_key_read(bytes@),
        forall|n: Seq<u8>, e: Seq<u8>|
            #[trigger] bincode_public_key(n, e) == bytes@ ==> pair_view(res) == Some(
                (minimal_be(n), minimal_be(e)),
            ),
{
    match bincode::deserialize::<RsaPublicKey>(bytes) {
        Ok(k) => Some((k.n().to_bytes_be(), k.e().to_bytes_be())),
        Err(_) => None,
    }
}

/// A leading zero byte does not change the number.
pub proof fn lemma_be_value_leading_zero(r: Seq<u8>)
    ensures
        be_value(seq![0u8] + r) == be_value(r),
    decreases r.len(),
{
    let z = seq![0u8] + r;
    if r.len() > 0 {
        assert(z.drop_last() =~= seq![0u8] + r.drop_last());
        assert(z.last() == r.last());
        lemma_be_value_leading_zero(r.drop_last());
    } else {
        assert(z.drop_last() =~= Seq::<u8>::empty());
        assert(z.last() == 0);
        assert(be_value(z) == be_value(z.drop_last()) * 256 + z.last());
    }
}

/// The minimal bytes of a number denote that number.
pub proof fn lemma_minimal_be_value(b: Seq<u8>)
    ensures
        be_value(minimal_be(b)) == be_value(b),
    decreases b.len(),
{
    if b.len() == 0 {
        lemma_be_value_leading_zero(b);
        assert(seq![0u8] + b =~= seq![0u8]);
    } else if b.len() > 1 && b[0] == 0 {
        lemma_minimal_be_value(b.drop_first());
        assert(b =~= seq![0u8] + b.drop_first());
        lemma_be_value_leading_zero(b.drop_first());
    }
}

/// An RSA public key: modulus and public exponent in big-endian bytes, which
/// the `rsa` crate's public-key checks accept, the modulus without leading
/// zero bytes.
pub struct PublicKey {
    n: Vec<u8>,
    e: Vec<u8>,
}

/// An RSA private key: modulus, public and private exponents and two or more
/// prime factors in big-endian bytes, which `RsaPrivateKey::from_components`
/// accepts, the modulus without leading zero bytes.
pub struct PrivateKey {
    n: Vec<u8>,
    e: Vec<u8>,
    d: Vec<u8>,
    primes: Vec<Vec<u8>>,
}

impl PublicKey {
    #[verifier::type_invariant]
    spec fn well_formed(self) -> bool {
        &&& public_key_valid(self.n@, self.e@)
        &&& self.n@.len() > 0
        &&& self.n@[0] != 0
    }

    /// The modulus.
    pub closed spec fn modulus(self) -> Seq<u8> {
        self.n@
    }

    /// The public exponent.
    pub closed spec fn exponent(self) -> Seq<u8> {
        self.e@
    }

    /// The key with modulus `n` and exponent `e`, where these make a key.
    pub fn from_parts(n: Vec<u8>, e: Vec<u8>) -> (res: Option<PublicKey>)
        ensures
            res is Some <==> (public_key_valid(n@, e@) && n@.len() > 0 && n@[0] != 0),
            res matches Some(k) ==> k.modulus() == n@ && k.exponent() == e@,
    {
        if n.len() > 0 && n[0] != 0 && rsa_public_key_accepted(n.as_slice(), e.as_slice()) {
            Some(PublicKey { n, e })
        } else {
            None
        }
    }

    /// The modulus in big-endian bytes.
    pub fn modulus_bytes(&self) -> (res: &[u8])
        ensures
            res@ == self.modulus(),
    {
        self.n.as_slice()
    }

    /// The public exponent in big-endian bytes.
    pub fn exponent_bytes(&self) -> (res: &[u8])
        ensures
            res@ == self.exponent(),
    {
        self.e.as_slice()
    }

    /// The length of the modulus in bytes, which is that of each ciphertext.
    pub fn size(&self) -> (res: usize)
        ensures
            res == self.modulus().len(),
    {
        self.n.len()
    }

    /// The key as the key exchange sends it: the `bincode` bytes of the `rsa`
    /// crate's key.
    pub fn to_bincode(&self) -> (res: Vec<u8>)
        ensures
            res@ == bincode_public_key(self.modulus(), self.exponent()),
    {
        proof {
            use_type_invariant(self);
        }
        bincode_write_public_key(self.n.as_slice(), self.e.as_slice())
    }

    /// The key that the `bincode` bytes `bytes` carry, where they carry one
    /// (see [`PublicKey::from_parts`]). The bytes that [`PublicKey::to_bincode`]
    /// writes for a key read back as that key, its exponent in minimal bytes.
    pub fn from_bincode(bytes: &[u8]) -> (res: Option<PublicKey>)
        ensures
            res is Some <==> (bincode_public_key_read(bytes@) matches Some((n, e)) && public_key_valid(
                n,
                e,
            ) && n.len() > 0 && n[0] != 0),
            res matches Some(k) ==> bincode_public_key_read(bytes@) == Some(
                (k.modulus(), k.exponent()),
            ),
            forall|n: Seq<u8>, e: Seq<u8>|
                #[trigger] bincode_public_key(n, e) == bytes@ && public_key_valid(n, e) && n.len()
                    > 0 && n[0] != 0 ==> (res matches Some(k) && k.modulus() == n && k.exponent()
                    == minimal_be(e) && be_value(k.exponent()) == be_value(e)),
    {
        let read = bincode_read_public_key(bytes);
        proof {
            assert forall|n: Seq<u8>, e: Seq<u8>|
                #[trigger] bincode_public_key(n, e) == bytes@ && public_key_valid(n, e) && n.len()
                    > 0 && n[0] != 0 implies public_key_valid(minimal_be(n), minimal_be(e))
                && minimal_be(n) == n && be_value(minimal_be(e)) == be_value(e) by {
                lemma_minimal_be_value(n);
                lemma_minimal_be_value(e);
            }
        }
        match read {
            Some((n, e)) => PublicKey::from_parts(n, e),
            None => None,
        }
    }
}

impl PrivateKey {
    #[verifier::type_invariant]
    spec fn well_formed(self) -> bool {
        &&& self.primes@.len() >= 2
        &&& self.n@.len() > 0
        &&& self.n@[0] != 0
        &&& private_key_accepted(self.n@, self.e@, self.d@, byte_views(self.primes@))
    }

    /// The modulus.
    pub closed spec fn modulus(self) -> Seq<u8> {
        self.n@
    }

    /// The public exponent.
    pub closed spec fn exponent(self) -> Seq<u8> {
        self.e@
    }

    /// The private exponent.
    pub closed spec fn private_exponent(self) -> Seq<u8> {
        self.d@
    }

    /// The prime factors of the modulus.
    pub closed spec fn factors(self) -> Seq<Seq<u8>> {
        byte_views(self.primes@)
    }

    /// What decrypting `ct` with this key gives.
    pub open spec fn decryption(self, ct: Seq<u8>) -> Option<Seq<u8>> {
        pkcs1v15_decryption(self.modulus(), self.exponent(), self.private_exponent(), self.factors(), ct)
    }

    /// The key with the given components, where they make a key with two or
    /// more primes and a modulus without leading zero bytes.
    pub fn from_parts(n: Vec<u8>, e: Vec<u8>, d: Vec<u8>, primes: Vec<Vec<u8>>) -> (res: Option<
        PrivateKey,
    >)
        ensures
            res is Some <==> (primes@.len() >= 2 && n@.len() > 0 && n@[0] != 0 && private_key_accepted(
                n@,
                e@,
                d@,
                byte_views(primes@),
            )),
            res matches Some(k) ==> k.modulus() == n@ && k.exponent() == e@ && k.private_exponent()
                == d@ && k.factors() == byte_views(primes@),
    {
        if primes.len() >= 2 && n.len() > 0 && n[0] != 0 && rsa_private_key_accepted(
            n.as_slice(),
            e.as_slice(),
            d.as_slice(),
            &primes,
        ) {
            Some(PrivateKey { n, e, d, primes })
        } else {
            None
        }
    }
}

/// The public key `pk` is the public half of the private key `sk`.
pub open spec fn key_pair(sk: PrivateKey, pk: PublicKey) -> bool {
    sk.modulus() == pk.modulus() && sk.exponent() == pk.exponent()
}

/// A fresh 2048-bit key pair with public exponent 65537. It is always
/// `Some`: the key generation does not fail at this size.
pub fn generate_keys() -> (res: Option<(PrivateKey, PublicKey)>)
    ensures
        res matches Some((sk, pk)) && key_pair(sk, pk) && pk.modulus().len() == 256
            && pk.exponent() == seq![1u8, 0u8, 1u8] && sk.factors().len() == 2,
{
    let (n, e, d, primes) = match rsa_generate(2048) {
        Some(parts) => parts,
        None => return None,
    };
    let pk = match PublicKey::from_parts(n.clone(), e.clone()) {
        Some(k) => k,
        None => return None,
    };
    let sk = match PrivateKey::from_parts(n, e, d, primes) {
        Some(k) => k,
        None => return None,
    };
    Some((sk, pk))
}

/// Encrypts `message` for the holder of `pub_key`.
pub fn encrypt_u8(pub_key: &PublicKey, message: &[u8]) -> (res: Vec<u8>)
    requires
        message@.len() + 11 <= pub_key.modulus().len(),
    ensures
        is_ciphertext_of(pub_key.modulus(), pub_key.exponent(), message@, res@),
{
    proof {
        use_type_invariant(pub_key);
    }
    match rsa_encrypt(pub_key.n.as_slice(), pub_key.e.as_slice(), message) {
        Some(ct) => ct,
        None => {
            proof {
                assert(false);
            }
            Vec::new()
        },
    }
}

/// Encrypts the UTF-8 bytes of `message` for the holder of `pub_key`.
pub fn encrypt_str(pub_key: &PublicKey, message: &str) -> (res: Vec<u8>)
    requires
        message.spec_bytes().len() + 11 <= pub_key.modulus().len(),
    ensures
        is_ciphertext_of(pub_key.modulus(), pub_key.exponent(), message.spec_bytes(), res@),
{
    encrypt_u8(pub_key, message.as_bytes())
}

/// Decrypts `ciphertext`, which must be decryptable with `priv_key`. Where
/// the key's prime factors are distinct primes, a ciphertext of a message
/// under the matching public key decrypts to that message.
pub fn decrypt_u8(priv_key: &PrivateKey, ciphertext: &[u8]) -> (res: Vec<u8>)
    requires
        priv_key.decryption(ciphertext@) is Some,
    ensures
        priv_key.decryption(ciphertext@) == Some(res@),
        forall|msg: Seq<u8>| #[trigger]
            is_ciphertext_of(priv_key.modulus(), priv_key.exponent(), msg, ciphertext@)
                && distinct_primes(priv_key.factors()) ==> res@ == msg,
{
    proof {
        use_type_invariant(priv_key);
    }
    match rsa_decrypt(
        priv_key.n.as_slice(),
        priv_key.e.as_slice(),
        priv_key.d.as_slice(),
        &priv_key.primes,
        ciphertext,
    ) {
        Some(m) => m,
        None => {
            proof {
                assert(false);
            }
            Vec::new()
        },
    }
}

/// Decrypts `ciphertext` with `priv_key`, `None` where it does not decrypt.
/// Where the key's prime factors are distinct primes, a ciphertext of a
/// message under the matching public key decrypts to that message.
pub fn try_decrypt_u8(priv_key: &PrivateKey, ciphertext: &[u8]) -> (res: Option<Vec<u8>>)
    ensures
        bytes_view(res) == priv_key.decryption(ciphertext@),
        forall|msg: Seq<u8>| #[trigger]
            is_ciphertext_of(priv_key.modulus(), priv_key.exponent(), msg, ciphertext@)
                && distinct_primes(priv_key.factors()) ==> bytes_view(res) == Some(msg),
{
    proof {
        use_type_invariant(priv_key);
    }
    let probe = rsa_decrypt(
        priv_key.n.as_slice(),
        priv_key.e.as_slice(),
        priv_key.d.as_slice(),
        &priv_key.primes,
        ciphertext,
    );
    if probe.is_some() {
        Some(decrypt_u8(priv_key, ciphertext))
    } else {
        None
    }
}

/// Decrypts the bytes of `ciphertext`, which must be decryptable with `priv_key`.
pub fn decrypt_str(priv_key: &PrivateKey, ciphertext: &str) -> (res: Vec<u8>)
    requires
        priv_key.decryption(ciphertext.spec_bytes()) is Some,
    ensures
        priv_key.decryption(ciphertext.spec_bytes()) == Some(res@),
{
    decrypt_u8(priv_key, ciphertext.as_bytes())
}

/// Decrypts the bytes of `ciphertext` with `priv_key`, `None` where they do
/// not decrypt.
pub fn try_decrypt_str(priv_key: &PrivateKey, ciphertext: &str) -> (res: Option<Vec<u8>>)
    ensures
        bytes_view(res) == priv_key.decryption(ciphertext.spec_bytes()),
{
    match try_decrypt_u8(priv_key, ciphertext.as_bytes()) {
        Some(_) => Some(decrypt_str(priv_key, ciphertext)),
        None => None,
    }
}

} // verus!
