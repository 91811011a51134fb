//! Mathematical model of the key store: views of the key material and the
//! spec-level lookup function.
use vstd::prelude::*;

verus! {

/// The numeric material of one keypair, as sequences of little-endian bytes.
#[verifier::ext_equal]
pub struct KeyView {
    pub primes: Seq<Seq<u8>>,
    pub n: Seq<u8>,
    pub e: Seq<u8>,
    pub d: Seq<u8>,
}

/// One named entry of the store.
#[verifier::ext_equal]
pub struct EntryView {
    pub name: Seq<char>,
    pub description: Option<Seq<char>>,
    pub key: KeyView,
}

/// The unsigned integer that a little-endian byte sequence stands for.
pub open spec fn le_value(s: Seq<u8>) -> nat
    decreases s.len(),
{
    if s.len() == 0 {
        0
    } else {
        (s[0] + 256 * le_value(s.skip(1))) as nat
    }
}

/// The number of significant bytes of a little-endian byte sequence:
/// its length with trailing zero bytes not counted.
pub open spec fn sig_len(s: Seq<u8>) -> int
    decreases s.len(),
{
    if s.len() == 0 {
        0
    } else if s[s.len() - 1] != 0 {
        s.len() as int
    } else {
        sig_len(s.drop_last())
    }
}

/// The first entry of the store whose name matches, if any: lookups resolve
/// duplicate names to the earliest entry.
pub open spec fn find_entry(s: Seq<EntryView>, name: Seq<char>) -> Option<EntryView>
    decreases s.len(),
{
    if s.len() == 0 {
        None
    } else if s[0].name == name {
        Some(s[0])
    } else {
        find_entry(s.skip(1), name)
    }
}

/// A name absent from every entry is not found, whatever the store holds.
pub proof fn lemma_find_absent(s: Seq<EntryView>, name: Seq<char>)
    requires
        forall|i: int| 0 <= i < s.len() ==> s[i].name != name,
    ensures
        find_entry(s, name) is None,
    decreases s.len(),
{
    if s.len() > 0 {
        assert(forall|i: int| 0 <= i < s.skip(1).len() ==> s.skip(1)[i] == s[i + 1]);
        lemma_find_absent(s.skip(1), name);
    }
}

/// A found entry is one of the store's entries and carries the requested name.
pub proof fn lemma_find_is_member(s: Seq<EntryView>, name: Seq<char>)
    requires
        find_entry(s, name) is Some,
    ensures
        exists|i: int|
            0 <= i < s.len() && s[i] == find_entry(s, name).unwrap() && s[i].name == name,
    decreases s.len(),
{
    if s.len() > 0 && s[0].name != name {
        lemma_find_is_member(s.skip(1), name);
        let i = choose|i: int|
            0 <= i < s.skip(1).len() && s.skip(1)[i] == find_entry(s.skip(1), name).unwrap()
                && s.skip(1)[i].name == name;
        assert(s[i + 1] == s.skip(1)[i]);
    }
}

} // verus!
