//! The boundary to the RSA primitive: trusted wrappers around key
//! generation, PKCS#1 v1.5 encryption and decryption, and the verified
//! helpers that test a key's components before those wrappers may be called.
use vstd::prelude::*;

use rsa::{PublicKey, PublicKeyParts};

use vstd::arithmetic::power2::pow2;

use crate::model::{le_value, sig_len};
use crate::store::KeyComponents;

verus! {

/// Whether a set of prime factors can rebuild a working private key: at
/// least two primes, each of value at least two. The key construction
/// indexes the first two primes and divides by each prime minus one, so
/// anything less cannot be handed to it.
pub open spec fn primes_usable(primes: Seq<Seq<u8>>) -> bool {
    &&& primes.len() >= 2
    &&& forall|i: int| 0 <= i < primes.len() ==> le_value(#[trigger] primes[i]) >= 2
}

/// Whether byte-encoded components form a mathematically valid RSA keypair:
/// the modulus is the product of the primes and the exponents are modular
/// inverses. Only key generation is known to establish it.
pub uninterp spec fn is_valid_keypair(
    primes: Seq<Seq<u8>>,
    n: Seq<u8>,
    e: Seq<u8>,
    d: Seq<u8>,
) -> bool;

/// What PKCS#1 v1.5 decryption under the given components returns for the
/// given ciphertext: `Some` plaintext when the padding of the decrypted block
/// validates, `None` otherwise. Decryption draws no randomness, so this is a
/// function of its arguments alone.
pub uninterp spec fn rsa_decrypt_of(
    primes: Seq<Seq<u8>>,
    n: Seq<u8>,
    e: Seq<u8>,
    d: Seq<u8>,
    c: Seq<u8>,
) -> Option<Seq<u8>>;

/// Relies on rsa's `RSAPrivateKey::new`: with two primes it fails exactly
/// for strengths below 12 bits, where the generation algorithm's estimate of
/// available primes rejects the request, and otherwise retries until it has
/// a key. On success it returns a fresh two-prime keypair with public
/// exponent 65537 whose modulus has exactly the requested bit count, and the
/// byte encodings taken from it are minimal (no trailing zero byte).
#[verifier::external_body]
pub(crate) fn rsa_generate(bits: usize) -> (r: Result<KeyComponents, String>)
    requires
        bits <= 65536,
    ensures
        r is Ok <==> bits >= 12,
        r matches Ok(k) ==> {
            &&& is_valid_keypair(k@.primes, k@.n, k@.e, k@.d)
            &&& k@.primes.len() == 2
            &&& primes_usable(k@.primes)
            &&& le_value(k@.e) == 65537
            &&& sig_len(k@.n) == (bits as int + 7) / 8
            &&& k@.n.len() == sig_len(k@.n)
            &&& pow2((bits - 1) as nat) <= le_value(k@.n) < pow2(bits as nat)
        },
{
    let mut rng = rand::rngs::OsRng;
    let key = rsa::RSAPrivateKey::new(&mut rng, bits).map_err(|err| format!("{}", err))?;
    let primes: Vec<Vec<u8>> = key.primes().iter().map(|p| p.to_bytes_le()).collect();
    Ok(KeyComponents {
        primes,
        n: key.n().to_bytes_le(),
        e: key.e().to_bytes_le(),
        d: key.d().to_bytes_le(),
    })
}

/// Relies on rsa's PKCS#1 v1.5 `encrypt`: it succeeds exactly when the public
/// exponent lies in the range the crate accepts and the plaintext fits under
/// the 11-byte padding overhead; the ciphertext then has the modulus's byte
/// length and decrypts back to the plaintext under any valid keypair built on
/// this modulus and exponent.
#[verifier::external_body]
pub(crate) fn rsa_encrypt(n: &Vec<u8>, e: &Vec<u8>, data: &[u8]) -> (r: Result<Vec<u8>, String>)
    requires
        sig_len(n@) >= 11,
    ensures
        r is Ok <==> (2 <= le_value(e@) <= 0x4000_0000 && data@.len() + 11 <= sig_len(n@)),
        r matches Ok(c) ==> {
            &&& c@.len() == sig_len(n@)
            &&& forall|primes: Seq<Seq<u8>>, d: Seq<u8>|
                is_valid_keypair(primes, n@, e@, d) ==> #[trigger] rsa_decrypt_of(
                    primes,
                    n@,
                    e@,
                    d,
                    c@,
                ) == Some(data@)
        },
{
    let pk = rsa::RSAPublicKey::new(
        rsa::BigUint::from_bytes_le(n),
        rsa::BigUint::from_bytes_le(e),
    ).map_err(|err| format!("{}", err))?;
    let mut rng = rand::rngs::OsRng;
    pk.encrypt(&mut rng, rsa::PaddingScheme::new_pkcs1v15_encrypt(), data).map_err(
        |err| format!("{}", err),
    )
}

/// Relies on rsa's PKCS#1 v1.5 `decrypt` without blinding: the outcome is a
/// function of the key components and the ciphertext alone, succeeding exactly
/// when the padding of the decrypted block validates. The key construction
/// indexes the first two primes and divides by each prime minus one, so at
/// least two primes, each of value at least two, are required.
#[verifier::external_body]
pub(crate) fn rsa_decrypt(
    primes: &Vec<Vec<u8>>,
    n: &Vec<u8>,
    e: &Vec<u8>,
    d: &Vec<u8>,
    data: &[u8],
) -> (r: Result<Vec<u8>, String>)
    requires
        primes@.len() >= 2,
        forall|i: int| 0 <= i < primes@.len() ==> le_value(#[trigger] primes@[i]@) >= 2,
    ensures
        r matches Ok(m) ==> rsa_decrypt_of(primes.deep_view(), n@, e@, d@, data@) == Some(m@),
        r is Err ==> rsa_decrypt_of(primes.deep_view(), n@, e@, d@, data@) is None,
{
    let pr: Vec<rsa::BigUint> = primes.iter().map(|p| rsa::BigUint::from_bytes_le(p)).collect();
    let key = rsa::RSAPrivateKey::from_components(
        rsa::BigUint::from_bytes_le(n),
        rsa::BigUint::from_bytes_le(e),
        rsa::BigUint::from_bytes_le(d),
        pr,
    );
    key.decrypt(rsa::PaddingScheme::new_pkcs1v15_encrypt(), data).map_err(
        |err| format!("{}", err),
    )
}

/// A byte sequence is at least the value of each of its bytes.
pub proof fn lemma_le_value_byte(s: Seq<u8>, i: int)
    requires
        0 <= i < s.len(),
    ensures
        le_value(s) >= s[i],
    decreases s.len(),
{
    if i > 0 {
        lemma_le_value_byte(s.skip(1), i - 1);
        assert(s.skip(1)[i - 1] == s[i]);
    }
}

/// A sequence whose bytes beyond the first are all zero has its first byte's
/// value.
pub proof fn lemma_le_value_low(s: Seq<u8>)
    requires
        forall|j: int| 1 <= j < s.len() ==> s[j] == 0,
        s.len() > 0,
    ensures
        le_value(s) == s[0],
    decreases s.len(),
{
    assert(forall|j: int| 0 <= j < s.skip(1).len() ==> s.skip(1)[j] == s[j + 1] && s.skip(1)[j] == 0);
    lemma_le_value_all_zero(s.skip(1));
}

/// An all-zero byte sequence has value zero.
pub proof fn lemma_le_value_all_zero(s: Seq<u8>)
    requires
        forall|j: int| 0 <= j < s.len() ==> s[j] == 0,
    ensures
        le_value(s) == 0,
    decreases s.len(),
{
    if s.len() > 0 {
        assert(forall|j: int| 0 <= j < s.skip(1).len() ==> s.skip(1)[j] == s[j + 1]);
        lemma_le_value_all_zero(s.skip(1));
    }
}

/// The number of significant bytes: the length with trailing zeros dropped.
pub fn significant_len(v: &Vec<u8>) -> (r: usize)
    ensures
        r == sig_len(v@),
{
    let mut k = v.len();
    proof {
        assert(v@.subrange(0, k as int) =~= v@);
    }
    while k > 0 && v[k - 1] == 0
        invariant
            0 <= k <= v@.len(),
            sig_len(v@) == sig_len(v@.subrange(0, k as int)),
        decreases k,
    {
        proof {
            assert(v@.subrange(0, k as int).drop_last() =~= v@.subrange(0, k - 1));
        }
        k -= 1;
    }
    k
}

/// Whether the encoded value is at least two, the least any prime factor of a
/// usable key can be.
pub fn value_at_least_two(v: &Vec<u8>) -> (r: bool)
    ensures
        r == (le_value(v@) >= 2),
{
    if v.len() == 0 {
        proof {
            assert(le_value(v@) == 0);
        }
        return false;
    }
    let mut i: usize = 1;
    while i < v.len()
        invariant
            1 <= i <= v@.len(),
            forall|j: int| 1 <= j < i ==> v@[j] == 0,
        decreases v@.len() - i,
    {
        if v[i] != 0 {
            proof {
                lemma_le_value_byte(v@.skip(1), i - 1);
                assert(v@.skip(1)[i - 1] == v@[i as int]);
                assert(le_value(v@) >= 256 * le_value(v@.skip(1)));
            }
            return true;
        }
        i += 1;
    }
    proof {
        lemma_le_value_low(v@);
    }
    v[0] >= 2
}

} // verus!
