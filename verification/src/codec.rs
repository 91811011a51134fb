//! The persisted text form of the store: one object holding the entry list,
//! each entry holding its name, optional description and key components, the
//! byte sequences written as lists of decimal numbers. The serializer is
//! specified by the spec-level text of a store view, and the parser accepts
//! exactly that text, which makes the round trip an identity.
use vstd::prelude::*;

use crate::errors::KeyStoreError;
use crate::model::{EntryView, KeyView};
use crate::store::{KeyComponents, KeyEntry, KeyStore};

verus! {

// ---------------------------------------------------------------------------
// Digits
// ---------------------------------------------------------------------------
/// The character of one decimal digit.
pub open spec fn digit_char(d: int) -> char {
    if d == 0 {
        '0'
    } else if d == 1 {
        '1'
    } else if d == 2 {
        '2'
    } else if d == 3 {
        '3'
    } else if d == 4 {
        '4'
    } else if d == 5 {
        '5'
    } else if d == 6 {
        '6'
    } else if d == 7 {
        '7'
    } else if d == 8 {
        '8'
    } else {
        '9'
    }
}

/// The value of a decimal digit character, or -1 for any other character.
pub open spec fn digit_val(c: char) -> int {
    if c == '0' {
        0
    } else if c == '1' {
        1
    } else if c == '2' {
        2
    } else if c == '3' {
        3
    } else if c == '4' {
        4
    } else if c == '5' {
        5
    } else if c == '6' {
        6
    } else if c == '7' {
        7
    } else if c == '8' {
        8
    } else if c == '9' {
        9
    } else {
        -1
    }
}

pub open spec fn is_digit(c: char) -> bool {
    digit_val(c) >= 0
}

pub proof fn lemma_digit_char_val(k: int)
    requires
        0 <= k < 10,
    ensures
        digit_val(digit_char(k)) == k,
        is_digit(digit_char(k)),
{
}

pub proof fn lemma_digit_val_char(c: char)
    requires
        is_digit(c),
    ensures
        digit_char(digit_val(c)) == c,
{
}

// ---------------------------------------------------------------------------
// The text of a store view
// ---------------------------------------------------------------------------
/// A byte as decimal digits without leading zeros.
pub open spec fn ser_u8(b: int) -> Seq<char> {
    if b < 10 {
        seq![digit_char(b)]
    } else if b < 100 {
        seq![digit_char(b / 10), digit_char(b % 10)]
    } else {
        seq![digit_char(b / 100), digit_char((b / 10) % 10), digit_char(b % 10)]
    }
}

/// After a list's first byte: each further byte behind a comma, then the
/// closing bracket.
pub open spec fn ser_bytes_tail(v: Seq<u8>) -> Seq<char>
    decreases v.len(),
{
    if v.len() == 0 {
        seq![']']
    } else {
        seq![','] + ser_u8(v[0] as int) + ser_bytes_tail(v.skip(1))
    }
}

/// A byte sequence as a bracketed list of decimal numbers.
pub open spec fn ser_bytes(v: Seq<u8>) -> Seq<char> {
    if v.len() == 0 {
        seq!['[', ']']
    } else {
        seq!['['] + ser_u8(v[0] as int) + ser_bytes_tail(v.skip(1))
    }
}

pub open spec fn ser_primes_tail(v: Seq<Seq<u8>>) -> Seq<char>
    decreases v.len(),
{
    if v.len() == 0 {
        seq![']']
    } else {
        seq![','] + ser_bytes(v[0]) + ser_primes_tail(v.skip(1))
    }
}

/// A list of byte sequences.
pub open spec fn ser_primes(v: Seq<Seq<u8>>) -> Seq<char> {
    if v.len() == 0 {
        seq!['[', ']']
    } else {
        seq!['['] + ser_bytes(v[0]) + ser_primes_tail(v.skip(1))
    }
}

/// The escape of one character inside a quoted string: quote and backslash
/// get a backslash before them, every other character stands as itself.
pub open spec fn esc_char(c: char) -> Seq<char> {
    if c == '"' {
        seq!['\\', '"']
    } else if c == '\\' {
        seq!['\\', '\\']
    } else {
        seq![c]
    }
}

pub open spec fn esc_str(s: Seq<char>) -> Seq<char>
    decreases s.len(),
{
    if s.len() == 0 {
        Seq::empty()
    } else {
        esc_char(s[0]) + esc_str(s.skip(1))
    }
}

/// A quoted, escaped string.
pub open spec fn ser_string(s: Seq<char>) -> Seq<char> {
    seq!['"'] + esc_str(s) + seq!['"']
}

/// An optional string: the word null when absent.
pub open spec fn ser_opt_string(o: Option<Seq<char>>) -> Seq<char> {
    match o {
        Option::None => seq!['n', 'u', 'l', 'l'],
        Option::Some(s) => ser_string(s),
    }
}

/// The object of one key's components.
pub open spec fn ser_key(k: KeyView) -> Seq<char> {
    seq!['{', '"', 'p', 'r', 'i', 'm', 'e', 's', '"', ':'] + ser_primes(k.primes) + seq![
        ',',
        '"',
        'n',
        '"',
        ':',
    ] + ser_bytes(k.n) + seq![',', '"', 'e', '"', ':'] + ser_bytes(k.e) + seq![
        ',',
        '"',
        'd',
        '"',
        ':',
    ] + ser_bytes(k.d) + seq!['}']
}

/// The object of one entry.
pub open spec fn ser_entry(e: EntryView) -> Seq<char> {
    seq!['{', '"', 'n', 'a', 'm', 'e', '"', ':'] + ser_string(e.name) + seq![
        ',',
        '"',
        'd',
        'e',
        's',
        'c',
        'r',
        'i',
        'p',
        't',
        'i',
        'o',
        'n',
        '"',
        ':',
    ] + ser_opt_string(e.description) + seq![',', '"', 'k', 'e', 'y', '"', ':'] + ser_key(e.key)
        + seq!['}']
}

pub open spec fn ser_entries_tail(v: Seq<EntryView>) -> Seq<char>
    decreases v.len(),
{
    if v.len() == 0 {
        seq![']']
    } else {
        seq![','] + ser_entry(v[0]) + ser_entries_tail(v.skip(1))
    }
}

/// The entry list.
pub open spec fn ser_entries(v: Seq<EntryView>) -> Seq<char> {
    if v.len() == 0 {
        seq!['[', ']']
    } else {
        seq!['['] + ser_entry(v[0]) + ser_entries_tail(v.skip(1))
    }
}

/// The whole persisted text of a store.
pub open spec fn ser_store(v: Seq<EntryView>) -> Seq<char> {
    seq!['{', '"', 'e', 'n', 't', 'r', 'i', 'e', 's', '"', ':'] + ser_entries(v) + seq!['}']
}

// ---------------------------------------------------------------------------
// The serializer
// ---------------------------------------------------------------------------
fn push_digit(out: &mut String, d: u8)
    requires
        d < 10,
    ensures
        final(out)@ == old(out)@ + seq![digit_char(d as int)],
{
    if d == 0 {
        proof {
            reveal_strlit("0");
            assert("0"@ =~= seq![digit_char(0)]);
        }
        out.append("0");
    } else if d == 1 {
        proof {
            reveal_strlit("1");
            assert("1"@ =~= seq![digit_char(1)]);
        }
        out.append("1");
    } else if d == 2 {
        proof {
            reveal_strlit("2");
            assert("2"@ =~= seq![digit_char(2)]);
        }
        out.append("2");
    } else if d == 3 {
        proof {
            reveal_strlit("3");
            assert("3"@ =~= seq![digit_char(3)]);
        }
        out.append("3");
    } else if d == 4 {
        proof {
            reveal_strlit("4");
            assert("4"@ =~= seq![digit_char(4)]);
        }
        out.append("4");
    } else if d == 5 {
        proof {
            reveal_strlit("5");
            assert("5"@ =~= seq![digit_char(5)]);
        }
        out.append("5");
    } else if d == 6 {
        proof {
            reveal_strlit("6");
            assert("6"@ =~= seq![digit_char(6)]);
        }
        out.append("6");
    } else if d == 7 {
        proof {
            reveal_strlit("7");
            assert("7"@ =~= seq![digit_char(7)]);
        }
        out.append("7");
    } else if d == 8 {
        proof {
            reveal_strlit("8");
            assert("8"@ =~= seq![digit_char(8)]);
        }
        out.append("8");
    } else {
        proof {
            reveal_strlit("9");
            assert("9"@ =~= seq![digit_char(9)]);
        }
        out.append("9");
    }
}

fn write_u8(out: &mut String, b: u8)
    ensures
        final(out)@ == old(out)@ + ser_u8(b as int),
{
    if b < 10 {
        push_digit(out, b);
    } else if b < 100 {
        push_digit(out, b / 10);
        push_digit(out, b % 10);
        proof {
            assert(out@ =~= old(out)@ + ser_u8(b as int));
        }
    } else {
        push_digit(out, b / 100);
        push_digit(out, (b / 10) % 10);
        push_digit(out, b % 10);
        proof {
            assert(out@ =~= old(out)@ + ser_u8(b as int));
        }
    }
}

fn write_bytes_tail(out: &mut String, v: &Vec<u8>, i: usize)
    requires
        i <= v@.len(),
    ensures
        final(out)@ == old(out)@ + ser_bytes_tail(v@.skip(i as int)),
    decreases v@.len() - i,
{
    if i == v.len() {
        proof {
            reveal_strlit("]");
            assert("]"@ =~= seq![']']);
            assert(v@.skip(i as int).len() == 0);
        }
        out.append("]");
    } else {
        proof {
            reveal_strlit(",");
            assert(","@ =~= seq![',']);
        }
        out.append(",");
        write_u8(out, v[i]);
        write_bytes_tail(out, v, i + 1);
        proof {
            let rest = v@.skip(i as int);
            assert(rest[0] == v@[i as int]);
            assert(rest.skip(1) =~= v@.skip(i + 1));
            assert(out@ =~= old(out)@ + ser_bytes_tail(rest));
        }
    }
}

fn write_bytes(out: &mut String, v: &Vec<u8>)
    ensures
        final(out)@ == old(out)@ + ser_bytes(v@),
{
    if v.len() == 0 {
        proof {
            reveal_strlit("[]");
            assert("[]"@ =~= seq!['[', ']']);
        }
        out.append("[]");
    } else {
        proof {
            reveal_strlit("[");
            assert("["@ =~= seq!['[']);
        }
        out.append("[");
        write_u8(out, v[0]);
        write_bytes_tail(out, v, 1);
        proof {
            assert(out@ =~= old(out)@ + ser_bytes(v@));
        }
    }
}

fn write_primes_tail(out: &mut String, v: &Vec<Vec<u8>>, i: usize)
    requires
        i <= v@.len(),
    ensures
        final(out)@ == old(out)@ + ser_primes_tail(v.deep_view().skip(i as int)),
    decreases v@.len() - i,
{
    if i == v.len() {
        proof {
            reveal_strlit("]");
            assert("]"@ =~= seq![']']);
            assert(v.deep_view().skip(i as int).len() == 0);
        }
        out.append("]");
    } else {
        proof {
            reveal_strlit(",");
            assert(","@ =~= seq![',']);
        }
        out.append(",");
        write_bytes(out, &v[i]);
        write_primes_tail(out, v, i + 1);
        proof {
            let rest = v.deep_view().skip(i as int);
            assert(rest[0] == v@[i as int]@);
            assert(rest.skip(1) =~= v.deep_view().skip(i + 1));
            assert(out@ =~= old(out)@ + ser_primes_tail(rest));
        }
    }
}

fn write_primes(out: &mut String, v: &Vec<Vec<u8>>)
    ensures
        final(out)@ == old(out)@ + ser_primes(v.deep_view()),
{
    if v.len() == 0 {
        proof {
            reveal_strlit("[]");
            assert("[]"@ =~= seq!['[', ']']);
            assert(v.deep_view().len() == 0);
        }
        out.append("[]");
    } else {
        proof {
            reveal_strlit("[");
            assert("["@ =~= seq!['[']);
        }
        out.append("[");
        write_bytes(out, &v[0]);
        write_primes_tail(out, v, 1);
        proof {
            assert(v.deep_view()[0] == v@[0]@);
            assert(out@ =~= old(out)@ + ser_primes(v.deep_view()));
        }
    }
}

fn write_string_body(out: &mut String, s: &str, i: usize, len: usize)
    requires
        len == s@.len(),
        i <= len,
    ensures
        final(out)@ == old(out)@ + esc_str(s@.skip(i as int)),
    decreases len - i,
{
    if i == len {
        proof {
            assert(s@.skip(i as int).len() == 0);
            assert(out@ =~= old(out)@ + esc_str(s@.skip(i as int)));
        }
    } else {
        let c = s.get_char(i);
        if c == '"' {
            proof {
                reveal_strlit("\\\"");
                assert("\\\""@ =~= seq!['\\', '"']);
            }
            out.append("\\\"");
        } else if c == '\\' {
            proof {
                reveal_strlit("\\\\");
                assert("\\\\"@ =~= seq!['\\', '\\']);
            }
            out.append("\\\\");
        } else {
            let piece = s.substring_char(i, i + 1);
            proof {
                assert(piece@ =~= seq![c]);
            }
            out.append(piece);
        }
        write_string_body(out, s, i + 1, len);
        proof {
            let rest = s@.skip(i as int);
            assert(rest[0] == s@[i as int]);
            assert(rest.skip(1) =~= s@.skip(i + 1));
            assert(out@ =~= old(out)@ + esc_str(rest));
        }
    }
}

fn write_string(out: &mut String, s: &str)
    ensures
        final(out)@ == old(out)@ + ser_string(s@),
{
    proof {
        reveal_strlit("\"");
        assert("\""@ =~= seq!['"']);
    }
    out.append("\"");
    let len = s.unicode_len();
    write_string_body(out, s, 0, len);
    out.append("\"");
    proof {
        assert(s@.skip(0) =~= s@);
        assert(out@ =~= old(out)@ + ser_string(s@));
    }
}

fn write_key(out: &mut String, k: &KeyComponents)
    ensures
        final(out)@ == old(out)@ + ser_key(k@),
{
    proof {
        reveal_strlit("{\"primes\":");
        assert("{\"primes\":"@ =~= seq!['{', '"', 'p', 'r', 'i', 'm', 'e', 's', '"', ':']);
        reveal_strlit(",\"n\":");
        assert(",\"n\":"@ =~= seq![',', '"', 'n', '"', ':']);
        reveal_strlit(",\"e\":");
        assert(",\"e\":"@ =~= seq![',', '"', 'e', '"', ':']);
        reveal_strlit(",\"d\":");
        assert(",\"d\":"@ =~= seq![',', '"', 'd', '"', ':']);
        reveal_strlit("}");
        assert("}"@ =~= seq!['}']);
    }
    out.append("{\"primes\":");
    write_primes(out, &k.primes);
    out.append(",\"n\":");
    write_bytes(out, &k.n);
    out.append(",\"e\":");
    write_bytes(out, &k.e);
    out.append(",\"d\":");
    write_bytes(out, &k.d);
    out.append("}");
    proof {
        assert(out@ =~= old(out)@ + ser_key(k@));
    }
}

fn write_entry(out: &mut String, e: &KeyEntry)
    ensures
        final(out)@ == old(out)@ + ser_entry(e@),
{
    proof {
        reveal_strlit("{\"name\":");
        assert("{\"name\":"@ =~= seq!['{', '"', 'n', 'a', 'm', 'e', '"', ':']);
        reveal_strlit(",\"description\":");
        assert(",\"description\":"@ =~= seq![
            ',',
            '"',
            'd',
            'e',
            's',
            'c',
            'r',
            'i',
            'p',
            't',
            'i',
            'o',
            'n',
            '"',
            ':',
        ]);
        reveal_strlit(",\"key\":");
        assert(",\"key\":"@ =~= seq![',', '"', 'k', 'e', 'y', '"', ':']);
        reveal_strlit("null");
        assert("null"@ =~= seq!['n', 'u', 'l', 'l']);
        reveal_strlit("}");
        assert("}"@ =~= seq!['}']);
    }
    out.append("{\"name\":");
    write_string(out, e.name.as_str());
    out.append(",\"description\":");
    match &e.description {
        Option::None => {
            out.append("null");
        },
        Option::Some(d) => {
            write_string(out, d.as_str());
        },
    }
    out.append(",\"key\":");
    write_key(out, &e.key);
    out.append("}");
    proof {
        assert(out@ =~= old(out)@ + ser_entry(e@));
    }
}

fn write_entries_tail(out: &mut String, v: &Vec<KeyEntry>, i: usize)
    requires
        i <= v@.len(),
    ensures
        final(out)@ == old(out)@ + ser_entries_tail(v.deep_view().skip(i as int)),
    decreases v@.len() - i,
{
    if i == v.len() {
        proof {
            reveal_strlit("]");
            assert("]"@ =~= seq![']']);
            assert(v.deep_view().skip(i as int).len() == 0);
        }
        out.append("]");
    } else {
        proof {
            reveal_strlit(",");
            assert(","@ =~= seq![',']);
        }
        out.append(",");
        write_entry(out, &v[i]);
        write_entries_tail(out, v, i + 1);
        proof {
            let rest = v.deep_view().skip(i as int);
            assert(rest[0] == v@[i as int]@);
            assert(rest.skip(1) =~= v.deep_view().skip(i + 1));
            assert(out@ =~= old(out)@ + ser_entries_tail(rest));
        }
    }
}

fn write_entries(out: &mut String, v: &Vec<KeyEntry>)
    ensures
        final(out)@ == old(out)@ + ser_entries(v.deep_view()),
{
    if v.len() == 0 {
        proof {
            reveal_strlit("[]");
            assert("[]"@ =~= seq!['[', ']']);
            assert(v.deep_view().len() == 0);
        }
        out.append("[]");
    } else {
        proof {
            reveal_strlit("[");
            assert("["@ =~= seq!['[']);
        }
        out.append("[");
        write_entry(out, &v[0]);
        write_entries_tail(out, v, 1);
        proof {
            assert(v.deep_view()[0] == v@[0]@);
            assert(out@ =~= old(out)@ + ser_entries(v.deep_view()));
        }
    }
}

impl KeyStore {
    /// The complete textual encoding of the store: all entries in order, each
    /// with its name, description and key components, exactly the spec-level
    /// text of the store's view.
    pub fn serialize(&self) -> (r: Result<String, KeyStoreError>)
        ensures
            r is Ok,
            r matches Ok(t) ==> t@ == ser_store(self@),
    {
        let mut out = String::new();
        proof {
            reveal_strlit("{\"entries\":");
            assert("{\"entries\":"@ =~= seq!['{', '"', 'e', 'n', 't', 'r', 'i', 'e', 's', '"', ':']);
            reveal_strlit("}");
            assert("}"@ =~= seq!['}']);
        }
        out.append("{\"entries\":");
        write_entries(&mut out, &self.entries);
        out.append("}");
        proof {
            assert(out@ =~= ser_store(self@));
        }
        Ok(out)
    }
}

// ---------------------------------------------------------------------------
// The parser
// ---------------------------------------------------------------------------
/// Equal sequences stay equal when a shared prefix is removed.
pub proof fn lemma_concat_cancel(a: Seq<char>, x: Seq<char>, y: Seq<char>)
    requires
        a + x == a + y,
    ensures
        x == y,
{
    assert(x.len() == y.len()) by {
        assert((a + x).len() == a.len() + x.len());
        assert((a + y).len() == a.len() + y.len());
    }
    assert forall|i: int| 0 <= i < x.len() implies x[i] == y[i] by {
        vstd::seq::axiom_seq_add_index2::<char>(a, x, a.len() + i);
        vstd::seq::axiom_seq_add_index2::<char>(a, y, a.len() + i);
    }
    assert(x =~= y);
}

/// The decimal value of a digit character.
fn digit_of(c: char) -> (r: Option<u8>)
    ensures
        match r {
            Option::Some(d) => d < 10 && digit_val(c) == d as int,
            Option::None => !is_digit(c),
        },
{
    if c == '0' {
        Option::Some(0)
    } else if c == '1' {
        Option::Some(1)
    } else if c == '2' {
        Option::Some(2)
    } else if c == '3' {
        Option::Some(3)
    } else if c == '4' {
        Option::Some(4)
    } else if c == '5' {
        Option::Some(5)
    } else if c == '6' {
        Option::Some(6)
    } else if c == '7' {
        Option::Some(7)
    } else if c == '8' {
        Option::Some(8)
    } else if c == '9' {
        Option::Some(9)
    } else {
        Option::None
    }
}

/// Consumes an exact literal from the front of the input.
fn expect<'a>(s: &'a str, lit: &str) -> (r: Result<&'a str, ()>)
    ensures
        r matches Ok(rest) ==> s@ == lit@ + rest@,
        forall|t: Seq<char>| s@ == #[trigger] (lit@ + t) ==> (r matches Ok(rest) && rest@ == t),
{
    let n = lit.unicode_len();
    let m = s.unicode_len();
    if m < n {
        proof {
            assert forall|t: Seq<char>| s@ != lit@ + t by {
                assert((lit@ + t).len() >= lit@.len());
            }
        }
        return Err(());
    }
    let mut i: usize = 0;
    while i < n
        invariant
            0 <= i <= n,
            n == lit@.len(),
            m == s@.len(),
            n <= m,
            forall|j: int| 0 <= j < i ==> s@[j] == lit@[j],
        decreases n - i,
    {
        if s.get_char(i) != lit.get_char(i) {
            proof {
                assert forall|t: Seq<char>| s@ != lit@ + t by {
                    assert((lit@ + t)[i as int] == lit@[i as int]);
                }
            }
            return Err(());
        }
        i += 1;
    }
    let rest = s.substring_char(n, m);
    proof {
        assert(s@ =~= lit@ + rest@);
        assert forall|t: Seq<char>| s@ == lit@ + t implies rest@ == t by {
            lemma_concat_cancel(lit@, rest@, t);
        }
    }
    Ok(rest)
}

/// Reads one byte written as decimal digits without leading zeros, leaving
/// whatever follows its maximal digit prefix.
fn parse_u8<'a>(s: &'a str) -> (r: Result<(u8, &'a str), ()>)
    ensures
        r matches Ok(p) ==> s@ == ser_u8(p.0 as int) + p.1@,
        forall|v: u8, t: Seq<char>|
            (s@ == #[trigger] (ser_u8(v as int) + t) && (t.len() == 0 || !is_digit(t[0]))) ==> (
            r matches Ok(p) && p.0 == v && p.1@ == t),
{
    let m = s.unicode_len();
    if m == 0 {
        proof {
            assert forall|v: u8, t: Seq<char>| s@ != ser_u8(v as int) + t by {
                assert((ser_u8(v as int) + t).len() >= 1);
            }
        }
        return Err(());
    }
    let c0 = s.get_char(0);
    let d0 = match digit_of(c0) {
        Option::Some(d) => d,
        Option::None => {
            proof {
                assert forall|v: u8, t: Seq<char>| s@ != ser_u8(v as int) + t by {
                    let w = ser_u8(v as int);
                    if v < 10 {
                        lemma_digit_char_val(v as int);
                    } else if v < 100 {
                        lemma_digit_char_val(v as int / 10);
                    } else {
                        lemma_digit_char_val(v as int / 100);
                    }
                    assert(is_digit(w[0]));
                    assert((w + t)[0] == w[0]);
                }
            }
            return Err(());
        },
    };
    proof {
        lemma_digit_val_char(c0);
    }
    if d0 == 0 {
        let rest = s.substring_char(1, m);
        proof {
            assert(ser_u8(0) =~= seq![c0]);
            assert(s@ =~= ser_u8(0) + rest@);
            assert forall|v: u8, t: Seq<char>|
                (s@ == ser_u8(v as int) + t && (t.len() == 0 || !is_digit(t[0]))) implies (v == 0
                && t == rest@) by {
                let w = ser_u8(v as int);
                if v >= 100 {
                    lemma_digit_char_val(v as int / 100);
                    assert((w + t)[0] == w[0]);
                    assert(v as int / 100 >= 1);
                } else if v >= 10 {
                    lemma_digit_char_val(v as int / 10);
                    assert((w + t)[0] == w[0]);
                    assert(v as int / 10 >= 1);
                } else {
                    lemma_digit_char_val(v as int);
                    assert((w + t)[0] == w[0]);
                    assert(v == 0);
                    lemma_concat_cancel(ser_u8(0), rest@, t);
                }
            }
        }
        return Ok((0u8, rest));
    }
    // A nonzero first digit; read up to two more.
    let second: Option<u8> = if m >= 2 {
        digit_of(s.get_char(1))
    } else {
        Option::None
    };
    let d1 = match second {
        Option::None => {
            let rest = s.substring_char(1, m);
            proof {
                assert(ser_u8(d0 as int) =~= seq![c0]);
                assert(s@ =~= ser_u8(d0 as int) + rest@);
                assert forall|v: u8, t: Seq<char>|
                    (s@ == ser_u8(v as int) + t && (t.len() == 0 || !is_digit(t[0]))) implies (v
                    == d0 && t == rest@) by {
                    let w = ser_u8(v as int);
                    assert((w + t)[0] == w[0]);
                    if v >= 10 {
                        // the text would go on with a digit after the first
                        if v >= 100 {
                            lemma_digit_char_val((v as int / 10) % 10);
                        } else {
                            lemma_digit_char_val(v as int % 10);
                        }
                        assert(is_digit(w[1]));
                        assert((w + t)[1] == w[1]);
                        if m >= 2 {
                            assert(s@[1] == w[1]);
                        } else {
                            assert(s@.len() == 1);
                            assert((w + t).len() >= 2);
                        }
                    } else {
                        lemma_digit_char_val(v as int);
                        assert(v == d0);
                        lemma_concat_cancel(ser_u8(v as int), rest@, t);
                    }
                }
            }
            return Ok((d0, rest));
        },
        Option::Some(d) => d,
    };
    let c1 = s.get_char(1);
    proof {
        lemma_digit_val_char(c1);
    }
    let value2: u8 = d0 * 10 + d1;
    let third: Option<u8> = if m >= 3 {
        digit_of(s.get_char(2))
    } else {
        Option::None
    };
    let d2 = match third {
        Option::None => {
            let rest = s.substring_char(2, m);
            proof {
                assert(10 <= value2 < 100);
                assert(value2 as int / 10 == d0 as int && value2 as int % 10 == d1 as int) by {
                    assert(value2 == d0 * 10 + d1);
                };
                assert(ser_u8(value2 as int) =~= seq![c0, c1]);
                assert(s@ =~= ser_u8(value2 as int) + rest@);
                assert forall|v: u8, t: Seq<char>|
                    (s@ == ser_u8(v as int) + t && (t.len() == 0 || !is_digit(t[0]))) implies (v
                    == value2 && t == rest@) by {
                    let w = ser_u8(v as int);
                    assert((w + t)[0] == w[0]);
                    if v < 10 {
                        // then the tail would start with the digit at position 1
                        lemma_digit_char_val(v as int);
                        assert(w.len() == 1);
                        assert(t[0] == (w + t)[1]);
                        assert(t[0] == c1);
                    } else if v < 100 {
                        lemma_digit_char_val(v as int / 10);
                        lemma_digit_char_val(v as int % 10);
                        assert((w + t)[1] == w[1]);
                        assert(v as int / 10 == d0 && v as int % 10 == d1);
                        assert(v == value2);
                        lemma_concat_cancel(ser_u8(v as int), rest@, t);
                    } else {
                        lemma_digit_char_val(v as int / 100);
                        lemma_digit_char_val((v as int / 10) % 10);
                        lemma_digit_char_val(v as int % 10);
                        assert((w + t)[2] == w[2]);
                        assert(is_digit(w[2]));
                        if m >= 3 {
                            assert(s@[2] == w[2]);
                        } else {
                            assert(s@.len() == 2);
                            assert((w + t).len() >= 3);
                        }
                    }
                }
            }
            return Ok((value2, rest));
        },
        Option::Some(d) => d,
    };
    let c2 = s.get_char(2);
    proof {
        lemma_digit_val_char(c2);
    }
    if value2 > 25 || (value2 == 25 && d2 > 5) {
        proof {
            assert forall|v: u8, t: Seq<char>|
                (s@ == ser_u8(v as int) + t && (t.len() == 0 || !is_digit(t[0]))) implies false by {
                let w = ser_u8(v as int);
                assert((w + t)[0] == w[0]);
                if v < 10 {
                    lemma_digit_char_val(v as int);
                    assert(t[0] == (w + t)[1]);
                    assert(t[0] == c1);
                } else if v < 100 {
                    lemma_digit_char_val(v as int / 10);
                    lemma_digit_char_val(v as int % 10);
                    assert((w + t)[1] == w[1]);
                    assert(t[0] == (w + t)[2]);
                    assert(t[0] == c2);
                } else {
                    lemma_digit_char_val(v as int / 100);
                    lemma_digit_char_val((v as int / 10) % 10);
                    lemma_digit_char_val(v as int % 10);
                    assert((w + t)[1] == w[1]);
                    assert((w + t)[2] == w[2]);
                    assert(v as int / 100 == d0 as int);
                    assert((v as int / 10) % 10 == d1 as int);
                    assert(v as int % 10 == d2 as int);
                    assert(v as int == (v as int / 100) * 100 + ((v as int / 10) % 10) * 10 + (
                    v as int % 10)) by {
                        vstd::arithmetic::div_mod::lemma_fundamental_div_mod(v as int, 10);
                        vstd::arithmetic::div_mod::lemma_fundamental_div_mod(v as int / 10, 10);
                        vstd::arithmetic::div_mod::lemma_div_denominator(v as int, 10, 10);
                    }
                    assert(v as int >= 256);
                }
            }
        }
        return Err(());
    }
    let value3: u8 = value2 * 10 + d2;
    let rest = s.substring_char(3, m);
    proof {
        assert(100 <= value3);
        assert(value3 as int / 100 == d0 as int && (value3 as int / 10) % 10 == d1 as int
            && value3 as int % 10 == d2 as int) by {
            assert(value3 == d0 * 10 * 10 + d1 * 10 + d2);
            assert(value3 as int / 10 == d0 * 10 + d1 && value3 as int % 10 == d2 as int) by {
                vstd::arithmetic::div_mod::lemma_fundamental_div_mod(value3 as int, 10);
            }
            vstd::arithmetic::div_mod::lemma_div_denominator(value3 as int, 10, 10);
        }
        assert(ser_u8(value3 as int) =~= seq![c0, c1, c2]);
        assert(s@ =~= ser_u8(value3 as int) + rest@);
        assert forall|v: u8, t: Seq<char>|
            (s@ == ser_u8(v as int) + t && (t.len() == 0 || !is_digit(t[0]))) implies (v == value3
            && t == rest@) by {
            let w = ser_u8(v as int);
            assert((w + t)[0] == w[0]);
            if v < 10 {
                lemma_digit_char_val(v as int);
                assert(t[0] == (w + t)[1]);
                assert(t[0] == c1);
            } else if v < 100 {
                lemma_digit_char_val(v as int / 10);
                lemma_digit_char_val(v as int % 10);
                assert((w + t)[1] == w[1]);
                assert(t[0] == (w + t)[2]);
                assert(t[0] == c2);
            } else {
                lemma_digit_char_val(v as int / 100);
                lemma_digit_char_val((v as int / 10) % 10);
                lemma_digit_char_val(v as int % 10);
                assert((w + t)[1] == w[1]);
                assert((w + t)[2] == w[2]);
                assert(v as int == (v as int / 100) * 100 + ((v as int / 10) % 10) * 10 + (
                v as int % 10)) by {
                    vstd::arithmetic::div_mod::lemma_fundamental_div_mod(v as int, 10);
                    vstd::arithmetic::div_mod::lemma_fundamental_div_mod(v as int / 10, 10);
                    vstd::arithmetic::div_mod::lemma_div_denominator(v as int, 10, 10);
                }
                assert(v == value3);
                lemma_concat_cancel(ser_u8(v as int), rest@, t);
            }
        }
    }
    Ok((value3, rest))
}

/// Reads the escaped body of a quoted string up to and including the closing
/// quote.
fn parse_string_body<'a>(s: &'a str) -> (r: Result<(String, &'a str), ()>)
    ensures
        r matches Ok(p) ==> s@ == esc_str(p.0@) + seq!['"'] + p.1@,
        forall|v: Seq<char>, t: Seq<char>|
            s@ == #[trigger] (esc_str(v) + seq!['"'] + t) ==> (r matches Ok(p) && p.0@ == v
                && p.1@ == t),
    decreases s@.len(),
{
    let m = s.unicode_len();
    if m == 0 {
        proof {
            assert forall|v: Seq<char>, t: Seq<char>| s@ != esc_str(v) + seq!['"'] + t by {
                assert((esc_str(v) + seq!['"'] + t).len() >= 1);
            }
        }
        return Err(());
    }
    let c = s.get_char(0);
    if c == '"' {
        let rest = s.substring_char(1, m);
        proof {
            assert(esc_str(Seq::<char>::empty()) + seq!['"'] + rest@ =~= s@);
            assert forall|v: Seq<char>, t: Seq<char>|
                s@ == esc_str(v) + seq!['"'] + t implies (v == Seq::<char>::empty() && t
                == rest@) by {
                if v.len() > 0 {
                    assert(esc_str(v) == esc_char(v[0]) + esc_str(v.skip(1)));
                    assert(s@[0] == esc_char(v[0])[0]);
                } else {
                    assert(esc_str(v) + seq!['"'] =~= seq!['"']);
                    lemma_concat_cancel(seq!['"'], rest@, t);
                }
            }
        }
        return Ok((String::new(), rest));
    }
    if c == '\\' {
        if m < 2 {
            proof {
                assert forall|v: Seq<char>, t: Seq<char>| s@ != esc_str(v) + seq!['"'] + t by {
                    if v.len() > 0 {
                        assert(esc_str(v) == esc_char(v[0]) + esc_str(v.skip(1)));
                        if v[0] == '"' || v[0] == '\\' {
                            assert((esc_str(v) + seq!['"'] + t).len() >= 3);
                        } else {
                            assert((esc_str(v) + seq!['"'] + t)[0] == v[0]);
                        }
                    } else {
                        assert((esc_str(v) + seq!['"'] + t)[0] == '"');
                    }
                }
            }
            return Err(());
        }
        let c2 = s.get_char(1);
        if c2 != '"' && c2 != '\\' {
            proof {
                assert forall|v: Seq<char>, t: Seq<char>| s@ != esc_str(v) + seq!['"'] + t by {
                    if v.len() > 0 {
                        assert(esc_str(v) == esc_char(v[0]) + esc_str(v.skip(1)));
                        if v[0] == '"' || v[0] == '\\' {
                            assert((esc_str(v) + seq!['"'] + t)[1] == v[0]);
                        } else {
                            assert((esc_str(v) + seq!['"'] + t)[0] == v[0]);
                        }
                    } else {
                        assert((esc_str(v) + seq!['"'] + t)[0] == '"');
                    }
                }
            }
            return Err(());
        }
        let tail = s.substring_char(2, m);
        proof {
            assert(s@ =~= seq!['\\', c2] + tail@);
        }
        match parse_string_body(tail) {
            Err(()) => {
                proof {
                    assert forall|v: Seq<char>, t: Seq<char>|
                        s@ == esc_str(v) + seq!['"'] + t implies false by {
                        if v.len() > 0 {
                            assert(esc_str(v) == esc_char(v[0]) + esc_str(v.skip(1)));
                            if v[0] == '"' || v[0] == '\\' {
                                assert(s@ =~= seq!['\\', v[0]] + (esc_str(v.skip(1)) + seq!['"']
                                    + t));
                                assert((esc_str(v) + seq!['"'] + t)[1] == v[0]);
                                assert(v[0] == c2);
                                lemma_concat_cancel(
                                    seq!['\\', c2],
                                    tail@,
                                    esc_str(v.skip(1)) + seq!['"'] + t,
                                );
                            } else {
                                assert((esc_str(v) + seq!['"'] + t)[0] == v[0]);
                            }
                        } else {
                            assert((esc_str(v) + seq!['"'] + t)[0] == '"');
                        }
                    }
                }
                Err(())
            },
            Ok((inner, rest2)) => {
                let mut owned = if c2 == '"' {
                    "\"".to_owned()
                } else {
                    "\\".to_owned()
                };
                proof {
                    reveal_strlit("\"");
                    reveal_strlit("\\");
                    assert(owned@ =~= seq![c2]);
                }
                owned.append(inner.as_str());
                proof {
                    assert(owned@ =~= seq![c2] + inner@);
                    assert(owned@[0] == c2);
                    assert(owned@.skip(1) =~= inner@);
                    assert(esc_char(c2) =~= seq!['\\', c2]);
                    assert(esc_str(owned@) == esc_char(c2) + esc_str(inner@));
                    assert(s@ =~= esc_str(owned@) + seq!['"'] + rest2@);
                    assert forall|v: Seq<char>, t: Seq<char>|
                        s@ == esc_str(v) + seq!['"'] + t implies (v == owned@ && t == rest2@) by {
                        if v.len() > 0 {
                            assert(esc_str(v) == esc_char(v[0]) + esc_str(v.skip(1)));
                            if v[0] == '"' || v[0] == '\\' {
                                assert((esc_str(v) + seq!['"'] + t)[1] == v[0]);
                                assert(v[0] == c2);
                                assert(s@ =~= seq!['\\', c2] + (esc_str(v.skip(1)) + seq!['"']
                                    + t));
                                lemma_concat_cancel(
                                    seq!['\\', c2],
                                    tail@,
                                    esc_str(v.skip(1)) + seq!['"'] + t,
                                );
                                assert(inner@ == v.skip(1) && rest2@ == t);
                                assert(v =~= owned@);
                            } else {
                                assert((esc_str(v) + seq!['"'] + t)[0] == v[0]);
                            }
                        } else {
                            assert((esc_str(v) + seq!['"'] + t)[0] == '"');
                        }
                    }
                }
                Ok((owned, rest2))
            },
        }
    } else {
        // an ordinary character stands as itself
        let tail = s.substring_char(1, m);
        proof {
            assert(s@ =~= seq![c] + tail@);
        }
        match parse_string_body(tail) {
            Err(()) => {
                proof {
                    assert forall|v: Seq<char>, t: Seq<char>|
                        s@ == esc_str(v) + seq!['"'] + t implies false by {
                        if v.len() > 0 {
                            assert(esc_str(v) == esc_char(v[0]) + esc_str(v.skip(1)));
                            if v[0] == '"' || v[0] == '\\' {
                                assert((esc_str(v) + seq!['"'] + t)[0] == '\\');
                            } else {
                                assert((esc_str(v) + seq!['"'] + t)[0] == v[0]);
                                assert(v[0] == c);
                                assert(s@ =~= seq![c] + (esc_str(v.skip(1)) + seq!['"'] + t));
                                lemma_concat_cancel(
                                    seq![c],
                                    tail@,
                                    esc_str(v.skip(1)) + seq!['"'] + t,
                                );
                            }
                        } else {
                            assert((esc_str(v) + seq!['"'] + t)[0] == '"');
                        }
                    }
                }
                Err(())
            },
            Ok((inner, rest2)) => {
                let piece = s.substring_char(0, 1);
                let mut owned = piece.to_owned();
                proof {
                    assert(owned@ =~= seq![c]);
                }
                owned.append(inner.as_str());
                proof {
                    assert(owned@ =~= seq![c] + inner@);
                    assert(owned@[0] == c);
                    assert(owned@.skip(1) =~= inner@);
                    assert(esc_char(c) =~= seq![c]);
                    assert(esc_str(owned@) == esc_char(c) + esc_str(inner@));
                    assert(s@ =~= esc_str(owned@) + seq!['"'] + rest2@);
                    assert forall|v: Seq<char>, t: Seq<char>|
                        s@ == esc_str(v) + seq!['"'] + t implies (v == owned@ && t == rest2@) by {
                        if v.len() > 0 {
                            assert(esc_str(v) == esc_char(v[0]) + esc_str(v.skip(1)));
                            if v[0] == '"' || v[0] == '\\' {
                                assert((esc_str(v) + seq!['"'] + t)[0] == '\\');
                            } else {
                                assert((esc_str(v) + seq!['"'] + t)[0] == v[0]);
                                assert(v[0] == c);
                                assert(s@ =~= seq![c] + (esc_str(v.skip(1)) + seq!['"'] + t));
                                lemma_concat_cancel(
                                    seq![c],
                                    tail@,
                                    esc_str(v.skip(1)) + seq!['"'] + t,
                                );
                                assert(inner@ == v.skip(1) && rest2@ == t);
                                assert(v =~= owned@);
                            }
                        } else {
                            assert((esc_str(v) + seq!['"'] + t)[0] == '"');
                        }
                    }
                }
                Ok((owned, rest2))
            },
        }
    }
}

/// Reads a quoted, escaped string.
fn parse_string<'a>(s: &'a str) -> (r: Result<(String, &'a str), ()>)
    ensures
        r matches Ok(p) ==> s@ == ser_string(p.0@) + p.1@,
        forall|v: Seq<char>, t: Seq<char>|
            s@ == #[trigger] (ser_string(v) + t) ==> (r matches Ok(p) && p.0@ == v && p.1@ == t),
{
    let m = s.unicode_len();
    if m == 0 {
        proof {
            assert forall|v: Seq<char>, t: Seq<char>| s@ != ser_string(v) + t by {
                assert((ser_string(v) + t).len() >= 1);
            }
        }
        return Err(());
    }
    if s.get_char(0) != '"' {
        proof {
            assert forall|v: Seq<char>, t: Seq<char>| s@ != ser_string(v) + t by {
                assert((ser_string(v) + t)[0] == '"');
            }
        }
        return Err(());
    }
    let body = s.substring_char(1, m);
    proof {
        assert(s@ =~= seq!['"'] + body@);
    }
    match parse_string_body(body) {
        Err(()) => {
            proof {
                assert forall|v: Seq<char>, t: Seq<char>|
                    s@ == ser_string(v) + t implies false by {
                    assert(ser_string(v) + t =~= seq!['"'] + (esc_str(v) + seq!['"'] + t));
                    lemma_concat_cancel(seq!['"'], body@, esc_str(v) + seq!['"'] + t);
                }
            }
            Err(())
        },
        Ok((w, rest)) => {
            proof {
                assert(s@ =~= ser_string(w@) + rest@);
                assert forall|v: Seq<char>, t: Seq<char>|
                    s@ == ser_string(v) + t implies (w@ == v && rest@ == t) by {
                    assert(ser_string(v) + t =~= seq!['"'] + (esc_str(v) + seq!['"'] + t));
                    lemma_concat_cancel(seq!['"'], body@, esc_str(v) + seq!['"'] + t);
                }
            }
            Ok((w, rest))
        },
    }
}

/// Reads an optional string: the word null stands for an absent one.
fn parse_opt_string<'a>(s: &'a str) -> (r: Result<(Option<String>, &'a str), ()>)
    ensures
        r matches Ok(p) ==> s@ == ser_opt_string(p.0.deep_view()) + p.1@,
        forall|v: Option<Seq<char>>, t: Seq<char>|
            s@ == #[trigger] (ser_opt_string(v) + t) ==> (r matches Ok(p) && p.0.deep_view() == v
                && p.1@ == t),
{
    let m = s.unicode_len();
    proof {
        reveal_strlit("null");
        assert("null"@ =~= seq!['n', 'u', 'l', 'l']);
    }
    if m == 0 {
        proof {
            assert forall|v: Option<Seq<char>>, t: Seq<char>| s@ != ser_opt_string(v) + t by {
                assert((ser_opt_string(v) + t).len() >= 1);
            }
        }
        return Err(());
    }
    if s.get_char(0) == 'n' {
        match expect(s, "null") {
            Err(()) => {
                proof {
                    assert forall|v: Option<Seq<char>>, t: Seq<char>| s@ != ser_opt_string(v)
                        + t by {
                        match v {
                            Option::None => {
                                assert(ser_opt_string(v) + t =~= "null"@ + t);
                            },
                            Option::Some(w) => {
                                assert((ser_opt_string(v) + t)[0] == '"');
                            },
                        }
                    }
                }
                Err(())
            },
            Ok(rest) => {
                proof {
                    let n: Option<String> = Option::None;
                    assert(n.deep_view() is None);
                    assert(s@ =~= ser_opt_string(n.deep_view()) + rest@);
                    assert forall|v: Option<Seq<char>>, t: Seq<char>|
                        s@ == ser_opt_string(v) + t implies (v is None && rest@ == t) by {
                        match v {
                            Option::None => {
                                assert(s@ =~= "null"@ + t);
                            },
                            Option::Some(w) => {
                                assert((ser_opt_string(v) + t)[0] == '"');
                            },
                        }
                    }
                }
                Ok((Option::None, rest))
            },
        }
    } else {
        let c = s.get_char(0);
        match parse_string(s) {
            Err(()) => {
                proof {
                    assert forall|v: Option<Seq<char>>, t: Seq<char>| s@ != ser_opt_string(v)
                        + t by {
                        match v {
                            Option::None => {
                                assert((ser_opt_string(v) + t)[0] == 'n');
                            },
                            Option::Some(w) => {
                                assert(ser_opt_string(v) == ser_string(w));
                            },
                        }
                    }
                }
                Err(())
            },
            Ok((w, rest)) => {
                proof {
                    let sm: Option<String> = Option::Some(w);
                    assert(sm.deep_view() == Option::Some(w@));
                    assert(s@ =~= ser_opt_string(sm.deep_view()) + rest@);
                    assert forall|v: Option<Seq<char>>, t: Seq<char>|
                        s@ == ser_opt_string(v) + t implies (v == Option::Some(w@) && rest@
                        == t) by {
                        match v {
                            Option::None => {
                                assert((ser_opt_string(v) + t)[0] == 'n');
                            },
                            Option::Some(u) => {
                                assert(ser_opt_string(v) == ser_string(u));
                            },
                        }
                    }
                }
                Ok((Option::Some(w), rest))
            },
        }
    }
}

// ---------------------------------------------------------------------------
// Shape facts about the serialized forms, used to steer the parser
// ---------------------------------------------------------------------------
proof fn lemma_ser_u8_first(b: int)
    requires
        0 <= b < 256,
    ensures
        ser_u8(b).len() >= 1,
        is_digit(ser_u8(b)[0]),
{
    if b < 10 {
        lemma_digit_char_val(b);
    } else if b < 100 {
        lemma_digit_char_val(b / 10);
    } else {
        lemma_digit_char_val(b / 100);
    }
}

proof fn lemma_ser_bytes_tail_first(v: Seq<u8>)
    ensures
        ser_bytes_tail(v).len() >= 1,
        ser_bytes_tail(v)[0] == ',' || ser_bytes_tail(v)[0] == ']',
        !is_digit(ser_bytes_tail(v)[0]),
{
    if v.len() > 0 {
        assert(ser_bytes_tail(v)[0] == ',');
    }
}

proof fn lemma_ser_bytes_tail_split(v: Seq<u8>, t: Seq<char>)
    requires
        v.len() > 0,
    ensures
        ser_bytes_tail(v) + t == seq![','] + (ser_u8(v[0] as int) + (ser_bytes_tail(v.skip(1))
            + t)),
{
    assert(ser_bytes_tail(v) + t =~= seq![','] + (ser_u8(v[0] as int) + (ser_bytes_tail(v.skip(1))
        + t)));
}

proof fn lemma_ser_bytes_first(v: Seq<u8>)
    ensures
        ser_bytes(v).len() >= 2,
        ser_bytes(v)[0] == '[',
{
    if v.len() > 0 {
        lemma_ser_u8_first(v[0] as int);
        lemma_ser_bytes_tail_first(v.skip(1));
    }
}

proof fn lemma_ser_bytes_split(v: Seq<u8>, t: Seq<char>)
    requires
        v.len() > 0,
    ensures
        ser_bytes(v) + t == seq!['['] + (ser_u8(v[0] as int) + (ser_bytes_tail(v.skip(1)) + t)),
{
    assert(ser_bytes(v) + t =~= seq!['['] + (ser_u8(v[0] as int) + (ser_bytes_tail(v.skip(1))
        + t)));
}

proof fn lemma_ser_primes_tail_first(v: Seq<Seq<u8>>)
    ensures
        ser_primes_tail(v).len() >= 1,
        ser_primes_tail(v)[0] == ',' || ser_primes_tail(v)[0] == ']',
{
    if v.len() > 0 {
        assert(ser_primes_tail(v)[0] == ',');
    }
}

proof fn lemma_ser_primes_tail_split(v: Seq<Seq<u8>>, t: Seq<char>)
    requires
        v.len() > 0,
    ensures
        ser_primes_tail(v) + t == seq![','] + (ser_bytes(v[0]) + (ser_primes_tail(v.skip(1))
            + t)),
{
    assert(ser_primes_tail(v) + t =~= seq![','] + (ser_bytes(v[0]) + (ser_primes_tail(v.skip(1))
        + t)));
}

proof fn lemma_ser_primes_first(v: Seq<Seq<u8>>)
    ensures
        ser_primes(v).len() >= 2,
        ser_primes(v)[0] == '[',
{
    if v.len() > 0 {
        lemma_ser_bytes_first(v[0]);
        lemma_ser_primes_tail_first(v.skip(1));
    }
}

proof fn lemma_ser_primes_split(v: Seq<Seq<u8>>, t: Seq<char>)
    requires
        v.len() > 0,
    ensures
        ser_primes(v) + t == seq!['['] + (ser_bytes(v[0]) + (ser_primes_tail(v.skip(1)) + t)),
{
    assert(ser_primes(v) + t =~= seq!['['] + (ser_bytes(v[0]) + (ser_primes_tail(v.skip(1)) + t)));
}

// ---------------------------------------------------------------------------
// List parsers
// ---------------------------------------------------------------------------
/// Reads the remainder of a byte list after its first element: zero or more
/// comma-led numbers, then the closing bracket.
fn parse_bytes_tail<'a>(s: &'a str) -> (r: Result<(Vec<u8>, &'a str), ()>)
    ensures
        r matches Ok(p) ==> s@ == ser_bytes_tail(p.0@) + p.1@,
        forall|v: Seq<u8>, t: Seq<char>|
            s@ == #[trigger] (ser_bytes_tail(v) + t) ==> (r matches Ok(p) && p.0@ == v && p.1@
                == t),
    decreases s@.len(),
{
    let m = s.unicode_len();
    if m == 0 {
        proof {
            assert forall|v: Seq<u8>, t: Seq<char>| s@ != ser_bytes_tail(v) + t by {
                lemma_ser_bytes_tail_first(v);
            }
        }
        return Err(());
    }
    let c = s.get_char(0);
    if c == ']' {
        let rest = s.substring_char(1, m);
        proof {
            assert(ser_bytes_tail(Seq::<u8>::empty()) + rest@ =~= s@);
            assert forall|v: Seq<u8>, t: Seq<char>|
                s@ == ser_bytes_tail(v) + t implies (v == Seq::<u8>::empty() && t == rest@) by {
                if v.len() > 0 {
                    assert((ser_bytes_tail(v) + t)[0] == ',');
                } else {
                    assert(ser_bytes_tail(v) + t =~= seq![']'] + t);
                    lemma_concat_cancel(seq![']'], rest@, t);
                }
            }
        }
        return Ok((Vec::new(), rest));
    }
    if c != ',' {
        proof {
            assert forall|v: Seq<u8>, t: Seq<char>| s@ == ser_bytes_tail(v) + t implies false by {
                if v.len() > 0 {
                    assert((ser_bytes_tail(v) + t)[0] == ',');
                } else {
                    assert((ser_bytes_tail(v) + t)[0] == ']');
                }
            }
        }
        return Err(());
    }
    let after = s.substring_char(1, m);
    proof {
        assert(s@ =~= seq![','] + after@);
    }
    let (b, r1) = match parse_u8(after) {
        Ok(p) => p,
        Err(()) => {
            proof {
                assert forall|v: Seq<u8>, t: Seq<char>| s@ == ser_bytes_tail(v)
                    + t implies false by {
                    if v.len() == 0 {
                        assert((ser_bytes_tail(v) + t)[0] == ']');
                    } else {
                        lemma_ser_bytes_tail_split(v, t);
                        lemma_concat_cancel(
                            seq![','],
                            after@,
                            ser_u8(v[0] as int) + (ser_bytes_tail(v.skip(1)) + t),
                        );
                        lemma_ser_bytes_tail_first(v.skip(1));
                        assert((ser_bytes_tail(v.skip(1)) + t)[0] == ser_bytes_tail(v.skip(1))[0]);
                    }
                }
            }
            return Err(());
        },
    };
    proof {
        assert(r1@.len() < s@.len()) by {
            assert(after@ == ser_u8(b as int) + r1@);
            lemma_ser_u8_first(b as int);
        }
    }
    let (w, r2) = match parse_bytes_tail(r1) {
        Ok(p) => p,
        Err(()) => {
            proof {
                assert forall|v: Seq<u8>, t: Seq<char>| s@ == ser_bytes_tail(v)
                    + t implies false by {
                    if v.len() == 0 {
                        assert((ser_bytes_tail(v) + t)[0] == ']');
                    } else {
                        lemma_ser_bytes_tail_split(v, t);
                        lemma_concat_cancel(
                            seq![','],
                            after@,
                            ser_u8(v[0] as int) + (ser_bytes_tail(v.skip(1)) + t),
                        );
                        lemma_ser_bytes_tail_first(v.skip(1));
                        assert((ser_bytes_tail(v.skip(1)) + t)[0] == ser_bytes_tail(v.skip(1))[0]);
                    }
                }
            }
            return Err(());
        },
    };
    let mut out = w;
    out.insert(0, b);
    proof {
        assert(out@ =~= seq![b] + w@);
        assert(out@[0] == b);
        assert(out@.skip(1) =~= w@);
        lemma_ser_bytes_tail_split(out@, r2@);
        assert(s@ == ser_bytes_tail(out@) + r2@);
        assert forall|v: Seq<u8>, t: Seq<char>|
            s@ == ser_bytes_tail(v) + t implies (out@ == v && r2@ == t) by {
            if v.len() == 0 {
                assert((ser_bytes_tail(v) + t)[0] == ']');
            } else {
                lemma_ser_bytes_tail_split(v, t);
                lemma_concat_cancel(
                    seq![','],
                    after@,
                    ser_u8(v[0] as int) + (ser_bytes_tail(v.skip(1)) + t),
                );
                lemma_ser_bytes_tail_first(v.skip(1));
                assert((ser_bytes_tail(v.skip(1)) + t)[0] == ser_bytes_tail(v.skip(1))[0]);
                assert(v =~= seq![v[0]] + v.skip(1));
                assert(out@ =~= v);
            }
        }
    }
    Ok((out, r2))
}

/// Reads a bracketed list of decimal numbers into a byte vector.
fn parse_bytes<'a>(s: &'a str) -> (r: Result<(Vec<u8>, &'a str), ()>)
    ensures
        r matches Ok(p) ==> s@ == ser_bytes(p.0@) + p.1@,
        forall|v: Seq<u8>, t: Seq<char>|
            s@ == #[trigger] (ser_bytes(v) + t) ==> (r matches Ok(p) && p.0@ == v && p.1@ == t),
{
    let m = s.unicode_len();
    if m == 0 {
        proof {
            assert forall|v: Seq<u8>, t: Seq<char>| s@ != ser_bytes(v) + t by {
                lemma_ser_bytes_first(v);
            }
        }
        return Err(());
    }
    if s.get_char(0) != '[' {
        proof {
            assert forall|v: Seq<u8>, t: Seq<char>| s@ != ser_bytes(v) + t by {
                lemma_ser_bytes_first(v);
                assert((ser_bytes(v) + t)[0] == '[');
            }
        }
        return Err(());
    }
    if m >= 2 && s.get_char(1) == ']' {
        let rest = s.substring_char(2, m);
        proof {
            assert(ser_bytes(Seq::<u8>::empty()) + rest@ =~= s@);
            assert forall|v: Seq<u8>, t: Seq<char>|
                s@ == ser_bytes(v) + t implies (v == Seq::<u8>::empty() && t == rest@) by {
                if v.len() > 0 {
                    lemma_ser_bytes_split(v, t);
                    lemma_ser_u8_first(v[0] as int);
                    assert(s@[1] == ser_u8(v[0] as int)[0]);
                } else {
                    assert(ser_bytes(v) + t =~= seq!['[', ']'] + t);
                    lemma_concat_cancel(seq!['[', ']'], rest@, t);
                }
            }
        }
        return Ok((Vec::new(), rest));
    }
    let after = s.substring_char(1, m);
    proof {
        assert(s@ =~= seq!['['] + after@);
    }
    let (b, r1) = match parse_u8(after) {
        Ok(p) => p,
        Err(()) => {
            proof {
                assert forall|v: Seq<u8>, t: Seq<char>| s@ == ser_bytes(v) + t implies false by {
                    if v.len() == 0 {
                        assert(ser_bytes(v) + t =~= seq!['[', ']'] + t);
                        assert(s@[1] == ']');
                    } else {
                        lemma_ser_bytes_split(v, t);
                        lemma_concat_cancel(
                            seq!['['],
                            after@,
                            ser_u8(v[0] as int) + (ser_bytes_tail(v.skip(1)) + t),
                        );
                        lemma_ser_bytes_tail_first(v.skip(1));
                        assert((ser_bytes_tail(v.skip(1)) + t)[0] == ser_bytes_tail(v.skip(1))[0]);
                    }
                }
            }
            return Err(());
        },
    };
    let (w, r2) = match parse_bytes_tail(r1) {
        Ok(p) => p,
        Err(()) => {
            proof {
                assert forall|v: Seq<u8>, t: Seq<char>| s@ == ser_bytes(v) + t implies false by {
                    if v.len() == 0 {
                        assert(ser_bytes(v) + t =~= seq!['[', ']'] + t);
                        assert(s@[1] == ']');
                    } else {
                        lemma_ser_bytes_split(v, t);
                        lemma_concat_cancel(
                            seq!['['],
                            after@,
                            ser_u8(v[0] as int) + (ser_bytes_tail(v.skip(1)) + t),
                        );
                        lemma_ser_bytes_tail_first(v.skip(1));
                        assert((ser_bytes_tail(v.skip(1)) + t)[0] == ser_bytes_tail(v.skip(1))[0]);
                    }
                }
            }
            return Err(());
        },
    };
    let mut out = w;
    out.insert(0, b);
    proof {
        assert(out@ =~= seq![b] + w@);
        assert(out@[0] == b);
        assert(out@.skip(1) =~= w@);
        lemma_ser_bytes_split(out@, r2@);
        assert(s@ == ser_bytes(out@) + r2@);
        assert forall|v: Seq<u8>, t: Seq<char>|
            s@ == ser_bytes(v) + t implies (out@ == v && r2@ == t) by {
            if v.len() == 0 {
                assert(ser_bytes(v) + t =~= seq!['[', ']'] + t);
                assert(s@[1] == ']');
            } else {
                lemma_ser_bytes_split(v, t);
                lemma_concat_cancel(
                    seq!['['],
                    after@,
                    ser_u8(v[0] as int) + (ser_bytes_tail(v.skip(1)) + t),
                );
                lemma_ser_bytes_tail_first(v.skip(1));
                assert((ser_bytes_tail(v.skip(1)) + t)[0] == ser_bytes_tail(v.skip(1))[0]);
                assert(v =~= seq![v[0]] + v.skip(1));
                assert(out@ =~= v);
            }
        }
    }
    Ok((out, r2))
}

/// Reads the remainder of a list of byte lists after its first element.
fn parse_primes_tail<'a>(s: &'a str) -> (r: Result<(Vec<Vec<u8>>, &'a str), ()>)
    ensures
        r matches Ok(p) ==> s@ == ser_primes_tail(p.0.deep_view()) + p.1@,
        forall|v: Seq<Seq<u8>>, t: Seq<char>|
            s@ == #[trigger] (ser_primes_tail(v) + t) ==> (r matches Ok(p) && p.0.deep_view() == v
                && p.1@ == t),
    decreases s@.len(),
{
    let m = s.unicode_len();
    if m == 0 {
        proof {
            assert forall|v: Seq<Seq<u8>>, t: Seq<char>| s@ != ser_primes_tail(v) + t by {
                lemma_ser_primes_tail_first(v);
            }
        }
        return Err(());
    }
    let c = s.get_char(0);
    if c == ']' {
        let rest = s.substring_char(1, m);
        let out: Vec<Vec<u8>> = Vec::new();
        proof {
            let e = out.deep_view();
            assert(e.len() == 0);
            assert(ser_primes_tail(e) + rest@ =~= s@);
            assert forall|v: Seq<Seq<u8>>, t: Seq<char>|
                s@ == ser_primes_tail(v) + t implies (v =~= e && t == rest@) by {
                if v.len() > 0 {
                    assert((ser_primes_tail(v) + t)[0] == ',');
                } else {
                    assert(ser_primes_tail(v) + t =~= seq![']'] + t);
                    lemma_concat_cancel(seq![']'], rest@, t);
                }
            }
        }
        return Ok((out, rest));
    }
    if c != ',' {
        proof {
            assert forall|v: Seq<Seq<u8>>, t: Seq<char>| s@ == ser_primes_tail(v)
                + t implies false by {
                lemma_ser_primes_tail_first(v);
                assert((ser_primes_tail(v) + t)[0] == ser_primes_tail(v)[0]);
            }
        }
        return Err(());
    }
    let after = s.substring_char(1, m);
    proof {
        assert(s@ =~= seq![','] + after@);
    }
    let (b, r1) = match parse_bytes(after) {
        Ok(p) => p,
        Err(()) => {
            proof {
                assert forall|v: Seq<Seq<u8>>, t: Seq<char>| s@ == ser_primes_tail(v)
                    + t implies false by {
                    if v.len() == 0 {
                        assert((ser_primes_tail(v) + t)[0] == ']');
                    } else {
                        lemma_ser_primes_tail_split(v, t);
                        lemma_concat_cancel(
                            seq![','],
                            after@,
                            ser_bytes(v[0]) + (ser_primes_tail(v.skip(1)) + t),
                        );
                    }
                }
            }
            return Err(());
        },
    };
    proof {
        assert(r1@.len() < s@.len()) by {
            assert(after@ == ser_bytes(b@) + r1@);
            lemma_ser_bytes_first(b@);
        }
    }
    let (w, r2) = match parse_primes_tail(r1) {
        Ok(p) => p,
        Err(()) => {
            proof {
                assert forall|v: Seq<Seq<u8>>, t: Seq<char>| s@ == ser_primes_tail(v)
                    + t implies false by {
                    if v.len() == 0 {
                        assert((ser_primes_tail(v) + t)[0] == ']');
                    } else {
                        lemma_ser_primes_tail_split(v, t);
                        lemma_concat_cancel(
                            seq![','],
                            after@,
                            ser_bytes(v[0]) + (ser_primes_tail(v.skip(1)) + t),
                        );
                    }
                }
            }
            return Err(());
        },
    };
    let mut out = w;
    out.insert(0, b);
    proof {
        assert(b.deep_view() =~= b@);
        assert(out@ =~= seq![out@[0]] + w@);
        assert(out.deep_view() =~~= seq![out@[0]@] + w.deep_view());
        assert(out.deep_view()[0] == b@);
        assert(out.deep_view().skip(1) =~= w.deep_view());
        assert(out.deep_view().len() > 0);
        lemma_ser_primes_tail_split(out.deep_view(), r2@);
        assert(s@ == ser_primes_tail(out.deep_view()) + r2@);
        assert forall|v: Seq<Seq<u8>>, t: Seq<char>|
            s@ == ser_primes_tail(v) + t implies (out.deep_view() == v && r2@ == t) by {
            if v.len() == 0 {
                assert((ser_primes_tail(v) + t)[0] == ']');
            } else {
                lemma_ser_primes_tail_split(v, t);
                lemma_concat_cancel(
                    seq![','],
                    after@,
                    ser_bytes(v[0]) + (ser_primes_tail(v.skip(1)) + t),
                );
                assert(v =~= seq![v[0]] + v.skip(1));
                assert(out.deep_view() =~= v);
            }
        }
    }
    Ok((out, r2))
}

/// Reads a bracketed list of byte lists.
fn parse_primes<'a>(s: &'a str) -> (r: Result<(Vec<Vec<u8>>, &'a str), ()>)
    ensures
        r matches Ok(p) ==> s@ == ser_primes(p.0.deep_view()) + p.1@,
        forall|v: Seq<Seq<u8>>, t: Seq<char>|
            s@ == #[trigger] (ser_primes(v) + t) ==> (r matches Ok(p) && p.0.deep_view() == v
                && p.1@ == t),
{
    let m = s.unicode_len();
    if m == 0 {
        proof {
            assert forall|v: Seq<Seq<u8>>, t: Seq<char>| s@ != ser_primes(v) + t by {
                lemma_ser_primes_first(v);
            }
        }
        return Err(());
    }
    if s.get_char(0) != '[' {
        proof {
            assert forall|v: Seq<Seq<u8>>, t: Seq<char>| s@ != ser_primes(v) + t by {
                lemma_ser_primes_first(v);
                assert((ser_primes(v) + t)[0] == '[');
            }
        }
        return Err(());
    }
    if m >= 2 && s.get_char(1) == ']' {
        let rest = s.substring_char(2, m);
        let out: Vec<Vec<u8>> = Vec::new();
        proof {
            let e = out.deep_view();
            assert(e.len() == 0);
            assert(ser_primes(e) + rest@ =~= s@);
            assert forall|v: Seq<Seq<u8>>, t: Seq<char>|
                s@ == ser_primes(v) + t implies (v =~= e && t == rest@) by {
                if v.len() > 0 {
                    lemma_ser_primes_split(v, t);
                    lemma_ser_bytes_first(v[0]);
                    assert(s@[1] == ser_bytes(v[0])[0]);
                } else {
                    assert(ser_primes(v) + t =~= seq!['[', ']'] + t);
                    lemma_concat_cancel(seq!['[', ']'], rest@, t);
                }
            }
        }
        return Ok((out, rest));
    }
    let after = s.substring_char(1, m);
    proof {
        assert(s@ =~= seq!['['] + after@);
    }
    let (b, r1) = match parse_bytes(after) {
        Ok(p) => p,
        Err(()) => {
            proof {
                assert forall|v: Seq<Seq<u8>>, t: Seq<char>| s@ == ser_primes(v)
                    + t implies false by {
                    if v.len() == 0 {
                        assert(ser_primes(v) + t =~= seq!['[', ']'] + t);
                        assert(s@[1] == ']');
                    } else {
                        lemma_ser_primes_split(v, t);
                        lemma_concat_cancel(
                            seq!['['],
                            after@,
                            ser_bytes(v[0]) + (ser_primes_tail(v.skip(1)) + t),
                        );
                    }
                }
            }
            return Err(());
        },
    };
    let (w, r2) = match parse_primes_tail(r1) {
        Ok(p) => p,
        Err(()) => {
            proof {
                assert forall|v: Seq<Seq<u8>>, t: Seq<char>| s@ == ser_primes(v)
                    + t implies false by {
                    if v.len() == 0 {
                        assert(ser_primes(v) + t =~= seq!['[', ']'] + t);
                        assert(s@[1] == ']');
                    } else {
                        lemma_ser_primes_split(v, t);
                        lemma_concat_cancel(
                            seq!['['],
                            after@,
                            ser_bytes(v[0]) + (ser_primes_tail(v.skip(1)) + t),
                        );
                    }
                }
            }
            return Err(());
        },
    };
    let mut out = w;
    out.insert(0, b);
    proof {
        assert(b.deep_view() =~= b@);
        assert(out@ =~= seq![out@[0]] + w@);
        assert(out.deep_view() =~~= seq![out@[0]@] + w.deep_view());
        assert(out.deep_view()[0] == b@);
        assert(out.deep_view().skip(1) =~= w.deep_view());
        assert(out.deep_view().len() > 0);
        lemma_ser_primes_split(out.deep_view(), r2@);
        assert(s@ == ser_primes(out.deep_view()) + r2@);
        assert forall|v: Seq<Seq<u8>>, t: Seq<char>|
            s@ == ser_primes(v) + t implies (out.deep_view() == v && r2@ == t) by {
            if v.len() == 0 {
                assert(ser_primes(v) + t =~= seq!['[', ']'] + t);
                assert(s@[1] == ']');
            } else {
                lemma_ser_primes_split(v, t);
                lemma_concat_cancel(
                    seq!['['],
                    after@,
                    ser_bytes(v[0]) + (ser_primes_tail(v.skip(1)) + t),
                );
                assert(v =~= seq![v[0]] + v.skip(1));
                assert(out.deep_view() =~= v);
            }
        }
    }
    Ok((out, r2))
}

// ---------------------------------------------------------------------------
// Object parsers
// ---------------------------------------------------------------------------
proof fn lemma_ser_key_split(k: KeyView, t: Seq<char>)
    ensures
        ser_key(k) + t == "{\"primes\":"@ + (ser_primes(k.primes) + (",\"n\":"@ + (ser_bytes(k.n)
            + (",\"e\":"@ + (ser_bytes(k.e) + (",\"d\":"@ + (ser_bytes(k.d) + ("}"@ + t)))))))),
{
    reveal_strlit("{\"primes\":");
    reveal_strlit(",\"n\":");
    reveal_strlit(",\"e\":");
    reveal_strlit(",\"d\":");
    reveal_strlit("}");
    assert(ser_key(k) + t =~= "{\"primes\":"@ + (ser_primes(k.primes) + (",\"n\":"@ + (ser_bytes(
        k.n,
    ) + (",\"e\":"@ + (ser_bytes(k.e) + (",\"d\":"@ + (ser_bytes(k.d) + ("}"@ + t)))))))));
}

proof fn lemma_ser_entry_split(e: EntryView, t: Seq<char>)
    ensures
        ser_entry(e) + t == "{\"name\":"@ + (ser_string(e.name) + (",\"description\":"@ + (
        ser_opt_string(e.description) + (",\"key\":"@ + (ser_key(e.key) + ("}"@ + t)))))),
        ser_entry(e).len() >= 1,
        ser_entry(e)[0] == '{',
{
    reveal_strlit("{\"name\":");
    reveal_strlit(",\"description\":");
    reveal_strlit(",\"key\":");
    reveal_strlit("}");
    assert(ser_entry(e) + t =~= "{\"name\":"@ + (ser_string(e.name) + (",\"description\":"@ + (
    ser_opt_string(e.description) + (",\"key\":"@ + (ser_key(e.key) + ("}"@ + t)))))));
}

proof fn lemma_ser_entries_tail_first(v: Seq<EntryView>)
    ensures
        ser_entries_tail(v).len() >= 1,
        ser_entries_tail(v)[0] == ',' || ser_entries_tail(v)[0] == ']',
{
    if v.len() > 0 {
        assert(ser_entries_tail(v)[0] == ',');
    }
}

proof fn lemma_ser_entries_tail_split(v: Seq<EntryView>, t: Seq<char>)
    requires
        v.len() > 0,
    ensures
        ser_entries_tail(v) + t == seq![','] + (ser_entry(v[0]) + (ser_entries_tail(v.skip(1))
            + t)),
{
    assert(ser_entries_tail(v) + t =~= seq![','] + (ser_entry(v[0]) + (ser_entries_tail(v.skip(1))
        + t)));
}

proof fn lemma_ser_entries_first(v: Seq<EntryView>)
    ensures
        ser_entries(v).len() >= 2,
        ser_entries(v)[0] == '[',
{
    if v.len() > 0 {
        lemma_ser_entry_split(v[0], Seq::empty());
        lemma_ser_entries_tail_first(v.skip(1));
    }
}

proof fn lemma_ser_entries_split(v: Seq<EntryView>, t: Seq<char>)
    requires
        v.len() > 0,
    ensures
        ser_entries(v) + t == seq!['['] + (ser_entry(v[0]) + (ser_entries_tail(v.skip(1)) + t)),
{
    assert(ser_entries(v) + t =~= seq!['['] + (ser_entry(v[0]) + (ser_entries_tail(v.skip(1))
        + t)));
}

proof fn lemma_ser_store_split(v: Seq<EntryView>, t: Seq<char>)
    ensures
        ser_store(v) + t == "{\"entries\":"@ + (ser_entries(v) + ("}"@ + t)),
{
    reveal_strlit("{\"entries\":");
    reveal_strlit("}");
    assert(ser_store(v) + t =~= "{\"entries\":"@ + (ser_entries(v) + ("}"@ + t)));
}

/// Reads one key object.
fn parse_key<'a>(s: &'a str) -> (r: Result<(KeyComponents, &'a str), ()>)
    ensures
        r matches Ok(p) ==> s@ == ser_key(p.0@) + p.1@,
        forall|k: KeyView, t: Seq<char>|
            s@ == #[trigger] (ser_key(k) + t) ==> (r matches Ok(p) && p.0@ == k && p.1@ == t),
{
    let r1 = match expect(s, "{\"primes\":") {
        Ok(x) => x,
        Err(()) => {
            proof {
                assert forall|k: KeyView, t: Seq<char>| s@ == ser_key(k) + t implies false by {
                    lemma_ser_key_split(k, t);
                }
            }
            return Err(());
        },
    };
    let (primes, r2) = match parse_primes(r1) {
        Ok(p) => p,
        Err(()) => {
            proof {
                assert forall|k: KeyView, t: Seq<char>| s@ == ser_key(k) + t implies false by {
                    lemma_ser_key_split(k, t);
                }
            }
            return Err(());
        },
    };
    let r3 = match expect(r2, ",\"n\":") {
        Ok(x) => x,
        Err(()) => {
            proof {
                assert forall|k: KeyView, t: Seq<char>| s@ == ser_key(k) + t implies false by {
                    lemma_ser_key_split(k, t);
                }
            }
            return Err(());
        },
    };
    let (n, r4) = match parse_bytes(r3) {
        Ok(p) => p,
        Err(()) => {
            proof {
                assert forall|k: KeyView, t: Seq<char>| s@ == ser_key(k) + t implies false by {
                    lemma_ser_key_split(k, t);
                }
            }
            return Err(());
        },
    };
    let r5 = match expect(r4, ",\"e\":") {
        Ok(x) => x,
        Err(()) => {
            proof {
                assert forall|k: KeyView, t: Seq<char>| s@ == ser_key(k) + t implies false by {
                    lemma_ser_key_split(k, t);
                }
            }
            return Err(());
        },
    };
    let (e, r6) = match parse_bytes(r5) {
        Ok(p) => p,
        Err(()) => {
            proof {
                assert forall|k: KeyView, t: Seq<char>| s@ == ser_key(k) + t implies false by {
                    lemma_ser_key_split(k, t);
                }
            }
            return Err(());
        },
    };
    let r7 = match expect(r6, ",\"d\":") {
        Ok(x) => x,
        Err(()) => {
            proof {
                assert forall|k: KeyView, t: Seq<char>| s@ == ser_key(k) + t implies false by {
                    lemma_ser_key_split(k, t);
                }
            }
            return Err(());
        },
    };
    let (d, r8) = match parse_bytes(r7) {
        Ok(p) => p,
        Err(()) => {
            proof {
                assert forall|k: KeyView, t: Seq<char>| s@ == ser_key(k) + t implies false by {
                    lemma_ser_key_split(k, t);
                }
            }
            return Err(());
        },
    };
    let rest = match expect(r8, "}") {
        Ok(x) => x,
        Err(()) => {
            proof {
                assert forall|k: KeyView, t: Seq<char>| s@ == ser_key(k) + t implies false by {
                    lemma_ser_key_split(k, t);
                }
            }
            return Err(());
        },
    };
    let out = KeyComponents { primes, n, e, d };
    proof {
        lemma_ser_key_split(out@, rest@);
        assert(s@ == ser_key(out@) + rest@);
        assert forall|k: KeyView, t: Seq<char>|
            s@ == ser_key(k) + t implies (out@ == k && rest@ == t) by {
            lemma_ser_key_split(k, t);
            assert(out@ =~= k);
        }
    }
    Ok((out, rest))
}

/// Reads one entry object.
fn parse_entry<'a>(s: &'a str) -> (r: Result<(KeyEntry, &'a str), ()>)
    ensures
        r matches Ok(p) ==> s@ == ser_entry(p.0@) + p.1@,
        forall|e: EntryView, t: Seq<char>|
            s@ == #[trigger] (ser_entry(e) + t) ==> (r matches Ok(p) && p.0@ == e && p.1@ == t),
{
    let r1 = match expect(s, "{\"name\":") {
        Ok(x) => x,
        Err(()) => {
            proof {
                assert forall|e: EntryView, t: Seq<char>| s@ == ser_entry(e) + t implies false by {
                    lemma_ser_entry_split(e, t);
                }
            }
            return Err(());
        },
    };
    let (name, r2) = match parse_string(r1) {
        Ok(p) => p,
        Err(()) => {
            proof {
                assert forall|e: EntryView, t: Seq<char>| s@ == ser_entry(e) + t implies false by {
                    lemma_ser_entry_split(e, t);
                }
            }
            return Err(());
        },
    };
    let r3 = match expect(r2, ",\"description\":") {
        Ok(x) => x,
        Err(()) => {
            proof {
                assert forall|e: EntryView, t: Seq<char>| s@ == ser_entry(e) + t implies false by {
                    lemma_ser_entry_split(e, t);
                }
            }
            return Err(());
        },
    };
    let (description, r4) = match parse_opt_string(r3) {
        Ok(p) => p,
        Err(()) => {
            proof {
                assert forall|e: EntryView, t: Seq<char>| s@ == ser_entry(e) + t implies false by {
                    lemma_ser_entry_split(e, t);
                }
            }
            return Err(());
        },
    };
    let r5 = match expect(r4, ",\"key\":") {
        Ok(x) => x,
        Err(()) => {
            proof {
                assert forall|e: EntryView, t: Seq<char>| s@ == ser_entry(e) + t implies false by {
                    lemma_ser_entry_split(e, t);
                }
            }
            return Err(());
        },
    };
    let (key, r6) = match parse_key(r5) {
        Ok(p) => p,
        Err(()) => {
            proof {
                assert forall|e: EntryView, t: Seq<char>| s@ == ser_entry(e) + t implies false by {
                    lemma_ser_entry_split(e, t);
                }
            }
            return Err(());
        },
    };
    let rest = match expect(r6, "}") {
        Ok(x) => x,
        Err(()) => {
            proof {
                assert forall|e: EntryView, t: Seq<char>| s@ == ser_entry(e) + t implies false by {
                    lemma_ser_entry_split(e, t);
                }
            }
            return Err(());
        },
    };
    let out = KeyEntry { name, description, key };
    proof {
        assert(out@.description == out.description.deep_view());
        lemma_ser_entry_split(out@, rest@);
        assert(s@ == ser_entry(out@) + rest@);
        assert forall|e: EntryView, t: Seq<char>|
            s@ == ser_entry(e) + t implies (out@ == e && rest@ == t) by {
            lemma_ser_entry_split(e, t);
            assert(out@ =~= e);
        }
    }
    Ok((out, rest))
}

/// Reads the remainder of the entry list after its first element.
fn parse_entries_tail<'a>(s: &'a str) -> (r: Result<(Vec<KeyEntry>, &'a str), ()>)
    ensures
        r matches Ok(p) ==> s@ == ser_entries_tail(p.0.deep_view()) + p.1@,
        forall|v: Seq<EntryView>, t: Seq<char>|
            s@ == #[trigger] (ser_entries_tail(v) + t) ==> (r matches Ok(p) && p.0.deep_view() == v
                && p.1@ == t),
    decreases s@.len(),
{
    let m = s.unicode_len();
    if m == 0 {
        proof {
            assert forall|v: Seq<EntryView>, t: Seq<char>| s@ != ser_entries_tail(v) + t by {
                lemma_ser_entries_tail_first(v);
            }
        }
        return Err(());
    }
    let c = s.get_char(0);
    if c == ']' {
        let rest = s.substring_char(1, m);
        let out: Vec<KeyEntry> = Vec::new();
        proof {
            let ev = out.deep_view();
            assert(ev.len() == 0);
            assert(ser_entries_tail(ev) + rest@ =~= s@);
            assert forall|v: Seq<EntryView>, t: Seq<char>|
                s@ == ser_entries_tail(v) + t implies (v =~= ev && t == rest@) by {
                if v.len() > 0 {
                    lemma_ser_entries_tail_split(v, t);
                    assert((ser_entries_tail(v) + t)[0] == ',');
                } else {
                    assert(ser_entries_tail(v) + t =~= seq![']'] + t);
                    lemma_concat_cancel(seq![']'], rest@, t);
                }
            }
        }
        return Ok((out, rest));
    }
    if c != ',' {
        proof {
            assert forall|v: Seq<EntryView>, t: Seq<char>| s@ == ser_entries_tail(v)
                + t implies false by {
                lemma_ser_entries_tail_first(v);
                assert((ser_entries_tail(v) + t)[0] == ser_entries_tail(v)[0]);
            }
        }
        return Err(());
    }
    let after = s.substring_char(1, m);
    proof {
        assert(s@ =~= seq![','] + after@);
    }
    let (b, r1) = match parse_entry(after) {
        Ok(p) => p,
        Err(()) => {
            proof {
                assert forall|v: Seq<EntryView>, t: Seq<char>| s@ == ser_entries_tail(v)
                    + t implies false by {
                    if v.len() == 0 {
                        assert((ser_entries_tail(v) + t)[0] == ']');
                    } else {
                        lemma_ser_entries_tail_split(v, t);
                        lemma_concat_cancel(
                            seq![','],
                            after@,
                            ser_entry(v[0]) + (ser_entries_tail(v.skip(1)) + t),
                        );
                    }
                }
            }
            return Err(());
        },
    };
    proof {
        assert(r1@.len() < s@.len()) by {
            assert(after@ == ser_entry(b@) + r1@);
            lemma_ser_entry_split(b@, Seq::empty());
        }
    }
    let (w, r2) = match parse_entries_tail(r1) {
        Ok(p) => p,
        Err(()) => {
            proof {
                assert forall|v: Seq<EntryView>, t: Seq<char>| s@ == ser_entries_tail(v)
                    + t implies false by {
                    if v.len() == 0 {
                        assert((ser_entries_tail(v) + t)[0] == ']');
                    } else {
                        lemma_ser_entries_tail_split(v, t);
                        lemma_concat_cancel(
                            seq![','],
                            after@,
                            ser_entry(v[0]) + (ser_entries_tail(v.skip(1)) + t),
                        );
                    }
                }
            }
            return Err(());
        },
    };
    let mut out = w;
    out.insert(0, b);
    proof {
        assert(out@ =~= seq![out@[0]] + w@);
        assert(out.deep_view() =~~= seq![out@[0]@] + w.deep_view());
        assert(out.deep_view()[0] == out@[0]@);
        assert(out.deep_view().skip(1) =~= w.deep_view());
        assert(out.deep_view().len() > 0);
        lemma_ser_entries_tail_split(out.deep_view(), r2@);
        assert(s@ == ser_entries_tail(out.deep_view()) + r2@);
        assert forall|v: Seq<EntryView>, t: Seq<char>|
            s@ == ser_entries_tail(v) + t implies (out.deep_view() == v && r2@ == t) by {
            if v.len() == 0 {
                assert((ser_entries_tail(v) + t)[0] == ']');
            } else {
                lemma_ser_entries_tail_split(v, t);
                lemma_concat_cancel(
                    seq![','],
                    after@,
                    ser_entry(v[0]) + (ser_entries_tail(v.skip(1)) + t),
                );
                assert(v =~= seq![v[0]] + v.skip(1));
                assert(out.deep_view() =~= v);
            }
        }
    }
    Ok((out, r2))
}

/// Reads the bracketed entry list.
fn parse_entries<'a>(s: &'a str) -> (r: Result<(Vec<KeyEntry>, &'a str), ()>)
    ensures
        r matches Ok(p) ==> s@ == ser_entries(p.0.deep_view()) + p.1@,
        forall|v: Seq<EntryView>, t: Seq<char>|
            s@ == #[trigger] (ser_entries(v) + t) ==> (r matches Ok(p) && p.0.deep_view() == v
                && p.1@ == t),
{
    let m = s.unicode_len();
    if m == 0 {
        proof {
            assert forall|v: Seq<EntryView>, t: Seq<char>| s@ != ser_entries(v) + t by {
                lemma_ser_entries_first(v);
            }
        }
        return Err(());
    }
    if s.get_char(0) != '[' {
        proof {
            assert forall|v: Seq<EntryView>, t: Seq<char>| s@ != ser_entries(v) + t by {
                lemma_ser_entries_first(v);
                assert((ser_entries(v) + t)[0] == '[');
            }
        }
        return Err(());
    }
    if m >= 2 && s.get_char(1) == ']' {
        let rest = s.substring_char(2, m);
        let out: Vec<KeyEntry> = Vec::new();
        proof {
            let ev = out.deep_view();
            assert(ev.len() == 0);
            assert(ser_entries(ev) + rest@ =~= s@);
            assert forall|v: Seq<EntryView>, t: Seq<char>|
                s@ == ser_entries(v) + t implies (v =~= ev && t == rest@) by {
                if v.len() > 0 {
                    lemma_ser_entries_split(v, t);
                    lemma_ser_entry_split(v[0], Seq::empty());
                    assert(s@[1] == ser_entry(v[0])[0]);
                } else {
                    assert(ser_entries(v) + t =~= seq!['[', ']'] + t);
                    lemma_concat_cancel(seq!['[', ']'], rest@, t);
                }
            }
        }
        return Ok((out, rest));
    }
    let after = s.substring_char(1, m);
    proof {
        assert(s@ =~= seq!['['] + after@);
    }
    let (b, r1) = match parse_entry(after) {
        Ok(p) => p,
        Err(()) => {
            proof {
                assert forall|v: Seq<EntryView>, t: Seq<char>| s@ == ser_entries(v)
                    + t implies false by {
                    if v.len() == 0 {
                        assert(ser_entries(v) + t =~= seq!['[', ']'] + t);
                        assert(s@[1] == ']');
                    } else {
                        lemma_ser_entries_split(v, t);
                        lemma_concat_cancel(
                            seq!['['],
                            after@,
                            ser_entry(v[0]) + (ser_entries_tail(v.skip(1)) + t),
                        );
                    }
                }
            }
            return Err(());
        },
    };
    let (w, r2) = match parse_entries_tail(r1) {
        Ok(p) => p,
        Err(()) => {
            proof {
                assert forall|v: Seq<EntryView>, t: Seq<char>| s@ == ser_entries(v)
                    + t implies false by {
                    if v.len() == 0 {
                        assert(ser_entries(v) + t =~= seq!['[', ']'] + t);
                        assert(s@[1] == ']');
                    } else {
                        lemma_ser_entries_split(v, t);
                        lemma_concat_cancel(
                            seq!['['],
                            after@,
                            ser_entry(v[0]) + (ser_entries_tail(v.skip(1)) + t),
                        );
                    }
                }
            }
            return Err(());
        },
    };
    let mut out = w;
    out.insert(0, b);
    proof {
        assert(out@ =~= seq![out@[0]] + w@);
        assert(out.deep_view() =~~= seq![out@[0]@] + w.deep_view());
        assert(out.deep_view()[0] == out@[0]@);
        assert(out.deep_view().skip(1) =~= w.deep_view());
        assert(out.deep_view().len() > 0);
        lemma_ser_entries_split(out.deep_view(), r2@);
        assert(s@ == ser_entries(out.deep_view()) + r2@);
        assert forall|v: Seq<EntryView>, t: Seq<char>|
            s@ == ser_entries(v) + t implies (out.deep_view() == v && r2@ == t) by {
            if v.len() == 0 {
                assert(ser_entries(v) + t =~= seq!['[', ']'] + t);
                assert(s@[1] == ']');
            } else {
                lemma_ser_entries_split(v, t);
                lemma_concat_cancel(
                    seq!['['],
                    after@,
                    ser_entry(v[0]) + (ser_entries_tail(v.skip(1)) + t),
                );
                assert(v =~= seq![v[0]] + v.skip(1));
                assert(out.deep_view() =~= v);
            }
        }
    }
    Ok((out, r2))
}

impl KeyStore {
    /// Parses a persisted text back into a store. The parser accepts exactly
    /// the texts the serializer produces: every serialized store
    /// deserializes back to a store with the same entries, and any other
    /// text, one missing a field among them, is rejected with a parse
    /// error and no store is produced.
    pub fn deserialize(data: &str) -> (r: Result<KeyStore, KeyStoreError>)
        ensures
            r matches Ok(ks) ==> data@ == ser_store(ks@),
            forall|v: Seq<EntryView>|
                data@ == #[trigger] ser_store(v) ==> (r matches Ok(ks) && ks@ == v),
    {
        let r1 = match expect(data, "{\"entries\":") {
            Ok(x) => x,
            Err(()) => {
                proof {
                    assert forall|v: Seq<EntryView>| data@ == ser_store(v) implies false by {
                        lemma_ser_store_split(v, Seq::empty());
                        assert(data@ =~= ser_store(v) + Seq::<char>::empty());
                    }
                }
                return Err(KeyStoreError::new("parse failure: malformed key store text"));
            },
        };
        let (entries, r2) = match parse_entries(r1) {
            Ok(p) => p,
            Err(()) => {
                proof {
                    assert forall|v: Seq<EntryView>| data@ == ser_store(v) implies false by {
                        lemma_ser_store_split(v, Seq::empty());
                        assert(data@ =~= ser_store(v) + Seq::<char>::empty());
                    }
                }
                return Err(KeyStoreError::new("parse failure: malformed key store text"));
            },
        };
        let r3 = match expect(r2, "}") {
            Ok(x) => x,
            Err(()) => {
                proof {
                    assert forall|v: Seq<EntryView>| data@ == ser_store(v) implies false by {
                        lemma_ser_store_split(v, Seq::empty());
                        assert(data@ =~= ser_store(v) + Seq::<char>::empty());
                    }
                }
                return Err(KeyStoreError::new("parse failure: malformed key store text"));
            },
        };
        if r3.unicode_len() != 0 {
            proof {
                assert forall|v: Seq<EntryView>| data@ == ser_store(v) implies false by {
                    lemma_ser_store_split(v, Seq::empty());
                    assert(data@ =~= ser_store(v) + Seq::<char>::empty());
                }
            }
            return Err(KeyStoreError::new("parse failure: trailing text after the key store"));
        }
        let ks = KeyStore { entries };
        proof {
            lemma_ser_store_split(ks@, r3@);
            assert(r3@ =~= Seq::<char>::empty());
            assert(data@ == ser_store(ks@) + r3@);
            assert(ser_store(ks@) + r3@ =~= ser_store(ks@));
            assert forall|v: Seq<EntryView>| data@ == ser_store(v) implies ks@ == v by {
                lemma_ser_store_split(v, Seq::empty());
                assert(data@ =~= ser_store(v) + Seq::<char>::empty());
                assert(ks@ =~= v);
            }
        }
        Ok(ks)
    }
}

} // verus!

