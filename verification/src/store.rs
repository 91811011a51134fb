//! The key store: named entries of persisted key material, with lookup,
//! generation, encryption, decryption and a textual persisted form.
use vstd::prelude::*;

use vstd::arithmetic::power2::pow2;

use crate::errors::KeyStoreError;
use crate::model::{find_entry, le_value, sig_len, EntryView, KeyView};
use crate::rsa_ops::{
    is_valid_keypair, primes_usable, rsa_decrypt, rsa_decrypt_of, rsa_encrypt, rsa_generate,
    significant_len, value_at_least_two,
};

verus! {

/// The numeric material of one keypair: the public modulus, the public and
/// private exponents, and the prime factors, each as little-endian bytes with
/// no sign and no length prefix.
#[derive(Debug)]
pub struct KeyComponents {
    pub primes: Vec<Vec<u8>>,
    pub n: Vec<u8>,
    pub e: Vec<u8>,
    pub d: Vec<u8>,
}

impl View for KeyComponents {
    type V = KeyView;

    open spec fn view(&self) -> KeyView {
        KeyView { primes: self.primes.deep_view(), n: self.n@, e: self.e@, d: self.d@ }
    }
}

/// A named wrapper around one set of key components.
#[derive(Debug)]
pub struct KeyEntry {
    pub name: String,
    pub description: Option<String>,
    pub key: KeyComponents,
}

impl View for KeyEntry {
    type V = EntryView;

    open spec fn view(&self) -> EntryView {
        EntryView {
            name: self.name@,
            description: match self.description {
                Option::None => Option::None,
                Option::Some(d) => Option::Some(d@),
            },
            key: self.key@,
        }
    }
}

impl DeepView for KeyEntry {
    type V = EntryView;

    open spec fn deep_view(&self) -> EntryView {
        self@
    }
}

impl KeyEntry {
    /// The description is not retained: entries are stored without one.
    pub fn new(name: &str, _description: Option<&str>, key: KeyComponents) -> (r: Self)
        ensures
            r@ == (EntryView { name: name@, description: Option::None, key: key@ }),
    {
        KeyEntry { name: name.to_owned(), description: Option::None, key }
    }
}

/// What a caller asks key generation for: a name, an optional description and
/// a bit strength.
pub struct KeyDetails {
    pub name: String,
    pub description: Option<String>,
    pub size: usize,
}

impl KeyDetails {
    /// The description is not retained: generated entries carry none.
    pub fn new(name: &str, _description: Option<&str>, size: usize) -> (r: Self)
        ensures
            r.name@ == name@,
            r.description is None,
            r.size == size,
    {
        KeyDetails { name: name.to_owned(), description: Option::None, size }
    }
}

/// An ordered collection of named key entries; insertion order is preserved
/// and lookups return the first entry with the requested name.
#[derive(Debug)]
pub struct KeyStore {
    pub entries: Vec<KeyEntry>,
}

impl View for KeyStore {
    type V = Seq<EntryView>;

    open spec fn view(&self) -> Seq<EntryView> {
        self.entries.deep_view()
    }
}

/// Whether two string slices hold the same characters.
pub fn str_eq(a: &str, b: &str) -> (r: bool)
    ensures
        r == (a@ == b@),
{
    let alen = a.unicode_len();
    let blen = b.unicode_len();
    if alen != blen {
        return false;
    }
    let mut i: usize = 0;
    while i < alen
        invariant
            alen == a@.len(),
            blen == b@.len(),
            alen == blen,
            0 <= i <= alen,
            forall|j: int| 0 <= j < i ==> a@[j] == b@[j],
        decreases alen - i,
    {
        if a.get_char(i) != b.get_char(i) {
            return false;
        }
        i += 1;
    }
    proof {
        assert(a@ =~= b@);
    }
    true
}

impl KeyStore {
    /// An empty store.
    pub fn new() -> (r: Self)
        ensures
            r@ == Seq::<EntryView>::empty(),
    {
        let r = KeyStore { entries: Vec::new() };
        proof {
            assert(r@ =~= Seq::<EntryView>::empty());
        }
        r
    }

    /// The first entry named `key_name`; an error naming the key when the
    /// store has no such entry.
    pub fn find(&self, key_name: &str) -> (r: Result<&KeyEntry, KeyStoreError>)
        ensures
            match r {
                Ok(entry) => find_entry(self@, key_name@) == Some(entry@),
                Err(e) => {
                    &&& find_entry(self@, key_name@) is None
                    &&& e@ == "key: '"@ + key_name@ + "' not found"@
                },
            },
    {
        let ghost view = self@;
        proof {
            assert(view.skip(0) =~= view);
        }
        let mut i: usize = 0;
        while i < self.entries.len()
            invariant
                view == self@,
                view.len() == self.entries.len(),
                0 <= i <= view.len(),
                forall|j: int| 0 <= j < i ==> view[j].name != key_name@,
                find_entry(view, key_name@) == find_entry(view.skip(i as int), key_name@),
            decreases view.len() - i,
        {
            if str_eq(self.entries[i].name.as_str(), key_name) {
                proof {
                    assert(view.skip(i as int)[0] == view[i as int]);
                }
                return Ok(&self.entries[i]);
            }
            proof {
                assert(view.skip(i as int)[0] == view[i as int]);
                assert(view.skip(i as int).skip(1) =~= view.skip(i + 1));
            }
            i += 1;
        }
        proof {
            assert(view.skip(i as int).len() == 0);
        }
        let mut message = "key: '".to_owned();
        message.append(key_name);
        message.append("' not found");
        Err(KeyStoreError::from_string(message))
    }

    /// Generates a fresh keypair of the requested strength and appends it
    /// under the requested name; duplicate names are permitted and are
    /// shadowed on lookup. Fails exactly when the strength is below 12 bits,
    /// which the generation algorithm rejects, or above 65536 bits; on
    /// failure the store is unchanged.
    pub fn generate_key(&mut self, details: KeyDetails) -> (r: Result<(), KeyStoreError>)
        ensures
            r is Ok <==> 12 <= details.size <= 65536,
            details.size > 65536 ==> (r matches Err(e) && e@
                == "key generation failed: strength too large"@),
            r is Ok ==> {
                let post = final(self)@;
                &&& post.len() == old(self)@.len() + 1
                &&& post.subrange(0, old(self)@.len() as int) == old(self)@
                &&& post.last().name == details.name@
                &&& post.last().description is None
                &&& is_valid_keypair(
                    post.last().key.primes,
                    post.last().key.n,
                    post.last().key.e,
                    post.last().key.d,
                )
                &&& post.last().key.primes.len() == 2
                &&& primes_usable(post.last().key.primes)
                &&& le_value(post.last().key.e) == 65537
                &&& sig_len(post.last().key.n) == (details.size as int + 7) / 8
                &&& pow2((details.size - 1) as nat) <= le_value(post.last().key.n) < pow2(
                    details.size as nat,
                )
            },
            r is Err ==> final(self)@ == old(self)@,
    {
        if details.size > 65536 {
            return Err(KeyStoreError::new("key generation failed: strength too large"));
        }
        match rsa_generate(details.size) {
            Err(msg) => Err(KeyStoreError::from_string(msg)),
            Ok(key) => {
                let entry = KeyEntry::new(details.name.as_str(), Option::None, key);
                self.entries.push(entry);
                proof {
                    assert(self@ =~= old(self)@.push(self@.last()));
                    assert(self@.subrange(0, old(self)@.len() as int) =~= old(self)@);
                }
                Ok(())
            },
        }
    }

    /// Encrypts the payload under the named key with PKCS#1 v1.5 padding and
    /// a fresh secure random nonce. Fails when the name is not found, and
    /// when the plaintext exceeds the modulus's byte length minus the
    /// 11-byte padding overhead.
    pub fn encrypt(&self, key_name: &str, data: &[u8]) -> (r: Result<Vec<u8>, KeyStoreError>)
        ensures
            find_entry(self@, key_name@) is None ==> (r matches Err(e) && e@ == "key: '"@
                + key_name@ + "' not found"@),
            r matches Ok(c) ==> {
                let en = find_entry(self@, key_name@).unwrap();
                &&& find_entry(self@, key_name@) is Some
                &&& data@.len() + 11 <= sig_len(en.key.n)
                &&& c@.len() == sig_len(en.key.n)
                &&& (is_valid_keypair(en.key.primes, en.key.n, en.key.e, en.key.d)
                    ==> rsa_decrypt_of(en.key.primes, en.key.n, en.key.e, en.key.d, c@) == Some(
                    data@,
                ))
            },
            find_entry(self@, key_name@) matches Some(en) && data@.len() + 11 > sig_len(en.key.n)
                ==> r is Err,
            find_entry(self@, key_name@) matches Some(en) && data@.len() + 11 <= sig_len(en.key.n)
                && 2 <= le_value(en.key.e) <= 0x4000_0000 ==> r is Ok,
    {
        let entry = match self.find(key_name) {
            Ok(en) => en,
            Err(e) => {
                return Err(e);
            },
        };
        let k = significant_len(&entry.key.n);
        if k < 11 {
            return Err(KeyStoreError::new("crypto failure: modulus too small for this padding"));
        }
        match rsa_encrypt(&entry.key.n, &entry.key.e, data) {
            Ok(c) => Ok(c),
            Err(msg) => Err(KeyStoreError::from_string(msg)),
        }
    }

    /// Decrypts the payload under the named key with PKCS#1 v1.5 padding.
    /// Fails when the name is not found, when the key's components cannot
    /// build a private key, when the ciphertext's length differs from the
    /// modulus's byte length, and when padding validation rejects the
    /// decrypted block.
    pub fn decrypt(&self, key_name: &str, data: &[u8]) -> (r: Result<Vec<u8>, KeyStoreError>)
        ensures
            find_entry(self@, key_name@) is None ==> (r matches Err(e) && e@ == "key: '"@
                + key_name@ + "' not found"@),
            r matches Ok(m) ==> {
                let en = find_entry(self@, key_name@).unwrap();
                &&& find_entry(self@, key_name@) is Some
                &&& rsa_decrypt_of(en.key.primes, en.key.n, en.key.e, en.key.d, data@) == Some(m@)
            },
            find_entry(self@, key_name@) matches Some(en) && !primes_usable(en.key.primes) ==> r
                is Err,
            find_entry(self@, key_name@) matches Some(en) && data@.len() != sig_len(en.key.n)
                ==> r is Err,
            (find_entry(self@, key_name@) matches Some(en) && primes_usable(en.key.primes)
                && data@.len() == sig_len(en.key.n) && rsa_decrypt_of(
                en.key.primes,
                en.key.n,
                en.key.e,
                en.key.d,
                data@,
            ) is Some) ==> r is Ok,
    {
        let entry = match self.find(key_name) {
            Ok(en) => en,
            Err(e) => {
                return Err(e);
            },
        };
        proof {
            assert(entry@.key.primes.len() == entry.key.primes@.len());
        }
        if entry.key.primes.len() < 2 {
            return Err(KeyStoreError::new("crypto failure: malformed key components"));
        }
        let mut i: usize = 0;
        while i < entry.key.primes.len()
            invariant
                0 <= i <= entry.key.primes@.len(),
                find_entry(self@, key_name@) == Some(entry@),
                forall|j: int|
                    0 <= j < i ==> le_value(#[trigger] entry.key.primes.deep_view()[j]) >= 2,
        decreases entry.key.primes@.len() - i,
        {
            if !value_at_least_two(&entry.key.primes[i]) {
                proof {
                    assert(entry.key.primes.deep_view()[i as int] == entry.key.primes@[i as int]@);
                    assert(le_value(entry@.key.primes[i as int]) < 2);
                }
                return Err(KeyStoreError::new("crypto failure: malformed key components"));
            }
            proof {
                assert(entry.key.primes.deep_view()[i as int] == entry.key.primes@[i as int]@);
            }
            i += 1;
        }
        let k = significant_len(&entry.key.n);
        if data.len() != k {
            return Err(
                KeyStoreError::new("crypto failure: ciphertext length does not match the modulus"),
            );
        }
        proof {
            assert forall|j: int| 0 <= j < entry.key.primes@.len() implies le_value(
                #[trigger] entry.key.primes@[j]@,
            ) >= 2 by {
                assert(entry.key.primes.deep_view()[j] == entry.key.primes@[j]@);
            }
        }
        match rsa_decrypt(&entry.key.primes, &entry.key.n, &entry.key.e, &entry.key.d, data) {
            Ok(m) => Ok(m),
            Err(msg) => Err(KeyStoreError::from_string(msg)),
        }
    }
}

} // verus!
