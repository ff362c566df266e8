use vstd::prelude::*;
use crate::value::{int_enc, bytes_enc, list_enc, dict_enc};

verus! {

broadcast use vstd::seq::group_seq_axioms;

/// The deepest nesting of lists and dictionaries that the decoder accepts.
pub const MAX_DEPTH: usize = 256;

/// Why a byte stream is not a bencoded value.
#[derive(Clone, Copy, Debug, PartialEq, Eq)]
pub enum DecodeError {
    /// The leading byte starts no value, or the input is empty.
    UnrecognizedTag,
    /// An integer holds a bad character, a leading zero, `-0`, lacks its
    /// terminator, or does not fit 64 bits.
    MalformedInteger,
    /// A byte string's length prefix is not a minimal decimal followed by `:`.
    MalformedLength,
    /// The input ends inside a byte string, list or dictionary.
    TruncatedInput,
    /// A dictionary key is not a byte string.
    NonStringKey,
    /// Lists and dictionaries nest deeper than `MAX_DEPTH`.
    NestingTooDeep,
    /// A whole-input decode found bytes after the value.
    TrailingBytes,
}

pub open spec fn is_digit(b: u8) -> bool {
    48 <= b <= 57
}

/// The number of leading ASCII digits of `s`.
pub open spec fn digits_len(s: Seq<u8>) -> nat
    decreases s.len(),
{
    if s.len() > 0 && is_digit(s[0]) {
        1 + digits_len(s.drop_first())
    } else {
        0
    }
}

/// The number written by a run of ASCII digits.
pub open spec fn digits_value(ds: Seq<u8>) -> nat
    decreases ds.len(),
{
    if ds.len() == 0 {
        0
    } else {
        digits_value(ds.drop_last()) * 10 + (ds.last() - 48) as nat
    }
}

/// Byte-lexicographic order: `a` sorts strictly before `b`.
pub open spec fn seq_lt(a: Seq<u8>, b: Seq<u8>) -> bool
    decreases a.len(),
{
    if a.len() == 0 {
        b.len() > 0
    } else if b.len() == 0 {
        false
    } else if a[0] != b[0] {
        a[0] < b[0]
    } else {
        seq_lt(a.drop_first(), b.drop_first())
    }
}

/// An integer `i...e` at the front of `s` (which starts with `i`): its value
/// and the rest. Where the input ends before the `e`, the integer lacks its
/// terminator; inside a list or dictionary (`nested`) that is a truncated
/// container.
pub open spec fn parse_int(s: Seq<u8>, nested: bool) -> Result<(int, Seq<u8>), DecodeError> {
    let neg = s.len() > 1 && s[1] == 45u8;
    let p: int = if neg { 2 } else { 1 };
    let m = digits_len(s.skip(p));
    let q = p + m;
    if q >= s.len() {
        if nested { Err(DecodeError::TruncatedInput) } else { Err(DecodeError::MalformedInteger) }
    } else if s[q] != 101u8 || m == 0 || (s[p] == 48u8 && (m > 1 || neg)) {
        Err(DecodeError::MalformedInteger)
    } else {
        let mag = digits_value(s.subrange(p, q));
        let n: int = if neg { -mag } else { mag as int };
        if n < i64::MIN || n > i64::MAX {
            Err(DecodeError::MalformedInteger)
        } else {
            Ok((n, s.skip(q + 1)))
        }
    }
}

/// A byte string `<length>:<bytes>` at the front of `s` (which starts with a
/// digit): its content and the rest.
pub open spec fn parse_bytes(s: Seq<u8>) -> Result<(Seq<u8>, Seq<u8>), DecodeError> {
    let m = digits_len(s) as int;
    if m >= s.len() {
        Err(DecodeError::TruncatedInput)
    } else if s[m] != 58u8 || (s[0] == 48u8 && m > 1) {
        Err(DecodeError::MalformedLength)
    } else {
        let len = digits_value(s.take(m)) as int;
        if len > s.len() - m - 1 {
            Err(DecodeError::TruncatedInput)
        } else {
            Ok((s.subrange(m + 1, m + 1 + len), s.skip(m + 1 + len)))
        }
    }
}

/// The value at the front of `s`, inside `depth` enclosing lists and
/// dictionaries: its canonical encoding and the rest of `s`.
pub open spec fn parse_value(s: Seq<u8>, depth: nat) -> Result<(Seq<u8>, Seq<u8>), DecodeError>
    decreases s.len(), 0nat,
{
    if s.len() == 0 {
        Err(DecodeError::UnrecognizedTag)
    } else if s[0] == 105u8 {
        match parse_int(s, depth > 0) {
            Ok((n, rest)) => Ok((int_enc(n), rest)),
            Err(e) => Err(e),
        }
    } else if is_digit(s[0]) {
        match parse_bytes(s) {
            Ok((b, rest)) => Ok((bytes_enc(b), rest)),
            Err(e) => Err(e),
        }
    } else if s[0] == 108u8 || s[0] == 100u8 {
        if depth >= MAX_DEPTH {
            Err(DecodeError::NestingTooDeep)
        } else if s[0] == 108u8 {
            match parse_list(s.drop_first(), depth + 1, seq![]) {
                Ok((items, rest)) => Ok((list_enc(items), rest)),
                Err(e) => Err(e),
            }
        } else {
            match parse_dict(s.drop_first(), depth + 1, seq![]) {
                Ok((entries, rest)) => Ok((dict_enc(flat(entries)), rest)),
                Err(e) => Err(e),
            }
        }
    } else {
        Err(DecodeError::UnrecognizedTag)
    }
}

/// The items of a list up to its `e`, appended to `acc` (encodings concatenated).
pub open spec fn parse_list(s: Seq<u8>, depth: nat, acc: Seq<u8>) -> Result<(Seq<u8>, Seq<u8>), DecodeError>
    decreases s.len(), 1nat,
{
    if s.len() == 0 {
        Err(DecodeError::TruncatedInput)
    } else if s[0] == 101u8 {
        Ok((acc, s.drop_first()))
    } else {
        match parse_value(s, depth) {
            Ok((c, rest)) => if rest.len() < s.len() {
                parse_list(rest, depth, acc + c)
            } else {
                Err(DecodeError::TruncatedInput)
            },
            Err(e) => Err(e),
        }
    }
}

/// The entries of a dictionary up to its `e`, each inserted into `acc`
/// (a later key replaces an earlier equal one).
pub open spec fn parse_dict(s: Seq<u8>, depth: nat, acc: Seq<(Seq<u8>, Seq<u8>)>) -> Result<(Seq<(Seq<u8>, Seq<u8>)>, Seq<u8>), DecodeError>
    decreases s.len(), 1nat,
{
    if s.len() == 0 {
        Err(DecodeError::TruncatedInput)
    } else if s[0] == 101u8 {
        Ok((acc, s.drop_first()))
    } else if !is_digit(s[0]) {
        match parse_value(s, depth) {
            Ok(_) => Err(DecodeError::NonStringKey),
            Err(e) => Err(e),
        }
    } else {
        match parse_bytes(s) {
            Ok((k, r1)) => if r1.len() == 0 {
                Err(DecodeError::TruncatedInput)
            } else {
                match parse_value(r1, depth) {
                    Ok((c, r2)) => if r2.len() < s.len() {
                        parse_dict(r2, depth, dict_insert(acc, k, c))
                    } else {
                        Err(DecodeError::TruncatedInput)
                    },
                    Err(e) => Err(e),
                }
            },
            Err(e) => Err(e),
        }
    }
}

/// The position of the first entry whose key does not sort before `k`.
pub open spec fn lower_bound(d: Seq<(Seq<u8>, Seq<u8>)>, k: Seq<u8>) -> nat
    decreases d.len(),
{
    if d.len() == 0 || !seq_lt(d[0].0, k) {
        0
    } else {
        1 + lower_bound(d.drop_first(), k)
    }
}

/// `d` with `(k, c)` put in key order, replacing an entry with key `k`.
pub open spec fn dict_insert(d: Seq<(Seq<u8>, Seq<u8>)>, k: Seq<u8>, c: Seq<u8>) -> Seq<(Seq<u8>, Seq<u8>)> {
    let i = lower_bound(d, k) as int;
    if i < d.len() && d[i].0 == k {
        d.update(i, (k, c))
    } else {
        d.insert(i, (k, c))
    }
}

/// The canonical text of dictionary entries: each key as a byte string, then its value.
pub open spec fn flat(d: Seq<(Seq<u8>, Seq<u8>)>) -> Seq<u8>
    decreases d.len(),
{
    if d.len() == 0 {
        seq![]
    } else {
        flat(d.drop_last()) + bytes_enc(d.last().0) + d.last().1
    }
}


pub proof fn lemma_seq_lt_total(a: Seq<u8>, b: Seq<u8>)
    requires
        a != b,
    ensures
        seq_lt(a, b) || seq_lt(b, a),
    decreases a.len(),
{
    if a.len() > 0 && b.len() > 0 && a[0] == b[0] {
        if a.drop_first() == b.drop_first() {
            assert(a.drop_first().len() == a.len() - 1);
            assert(b.drop_first().len() == b.len() - 1);
            assert(a.len() == b.len());
            assert(a =~= b) by {
                assert forall|i: int| 0 <= i < a.len() implies a[i] == b[i] by {
                    if i > 0 {
                        assert(a[i] == a.drop_first()[i - 1]);
                        assert(b[i] == b.drop_first()[i - 1]);
                    }
                }
            }
        }
        lemma_seq_lt_total(a.drop_first(), b.drop_first());
        assert(seq_lt(a, b) == seq_lt(a.drop_first(), b.drop_first()));
        assert(seq_lt(b, a) == seq_lt(b.drop_first(), a.drop_first()));
    } else if a.len() == 0 && b.len() == 0 {
        assert(a =~= b);
    }
}

pub proof fn lemma_seq_lt_transitive(a: Seq<u8>, b: Seq<u8>, c: Seq<u8>)
    requires
        seq_lt(a, b),
        seq_lt(b, c),
    ensures
        seq_lt(a, c),
    decreases a.len(),
{
    if a.len() > 0 && b.len() > 0 && c.len() > 0 && a[0] == b[0] && b[0] == c[0] {
        lemma_seq_lt_transitive(a.drop_first(), b.drop_first(), c.drop_first());
    }
}

/// Keys of spec-level entries in strictly ascending order.
pub open spec fn ascending(d: Seq<(Seq<u8>, Seq<u8>)>) -> bool {
    forall|i: int, j: int| 0 <= i < j < d.len() ==> seq_lt(#[trigger] d[i].0, #[trigger] d[j].0)
}

pub proof fn lemma_lower_bound(d: Seq<(Seq<u8>, Seq<u8>)>, k: Seq<u8>)
    ensures
        lower_bound(d, k) <= d.len(),
        forall|j: int| 0 <= j < lower_bound(d, k) ==> seq_lt(#[trigger] d[j].0, k),
        lower_bound(d, k) < d.len() ==> !seq_lt(d[lower_bound(d, k) as int].0, k),
    decreases d.len(),
{
    if d.len() > 0 && seq_lt(d[0].0, k) {
        lemma_lower_bound(d.drop_first(), k);
        assert forall|j: int| 0 <= j < lower_bound(d, k) implies seq_lt(#[trigger] d[j].0, k) by {
            if j > 0 {
                assert(d[j] == d.drop_first()[j - 1]);
            }
        }
    }
}

/// Inserting into entries with ascending keys keeps them ascending.
pub proof fn lemma_dict_insert_ascending(d: Seq<(Seq<u8>, Seq<u8>)>, k: Seq<u8>, c: Seq<u8>)
    requires
        ascending(d),
    ensures
        ascending(dict_insert(d, k, c)),
{
    lemma_lower_bound(d, k);
    let i = lower_bound(d, k) as int;
    let r = dict_insert(d, k, c);
    if i < d.len() && d[i].0 == k {
        assert forall|a: int, b: int| 0 <= a < b < r.len() implies seq_lt(#[trigger] r[a].0, #[trigger] r[b].0) by {
            assert(r[a].0 == d[a].0 && r[b].0 == d[b].0);
        }
    } else {
        if i < d.len() {
            lemma_seq_lt_total(d[i].0, k);
        }
        assert forall|a: int, b: int| 0 <= a < b < r.len() implies seq_lt(#[trigger] r[a].0, #[trigger] r[b].0) by {
            if b < i {
                assert(r[a] == d[a] && r[b] == d[b]);
            } else if b == i {
                assert(r[a] == d[a]);
            } else if a < i {
                assert(r[a] == d[a] && r[b] == d[b - 1]);
                if b - 1 > i {
                    lemma_seq_lt_transitive(k, d[i].0, d[b - 1].0);
                }
                lemma_seq_lt_transitive(d[a].0, k, d[b - 1].0);
            } else if a == i {
                assert(r[b] == d[b - 1]);
                if b - 1 > i {
                    lemma_seq_lt_transitive(k, d[i].0, d[b - 1].0);
                }
            } else {
                assert(r[a] == d[a - 1] && r[b] == d[b - 1]);
            }
        }
    }
}
pub proof fn lemma_lower_bound_end(d: Seq<(Seq<u8>, Seq<u8>)>, k: Seq<u8>)
    requires
        forall|j: int| 0 <= j < d.len() ==> seq_lt(#[trigger] d[j].0, k),
    ensures
        lower_bound(d, k) == d.len(),
    decreases d.len(),
{
    if d.len() > 0 {
        assert(seq_lt(d[0].0, k));
        assert forall|j: int| 0 <= j < d.drop_first().len() implies seq_lt(#[trigger] d.drop_first()[j].0, k) by {
            assert(d.drop_first()[j] == d[j + 1]);
        }
        lemma_lower_bound_end(d.drop_first(), k);
    }
}


/// The grammar never reports bytes after a value: that error belongs to
/// whole-input decoding alone.
pub proof fn lemma_parse_value_no_trailing(s: Seq<u8>, depth: nat)
    ensures
        parse_value(s, depth) != Err::<(Seq<u8>, Seq<u8>), DecodeError>(DecodeError::TrailingBytes),
    decreases s.len(), 0nat,
{
    if s.len() > 0 && (s[0] == 108u8 || s[0] == 100u8) && depth < MAX_DEPTH {
        if s[0] == 108u8 {
            lemma_parse_list_no_trailing(s.drop_first(), depth + 1, seq![]);
        } else {
            lemma_parse_dict_no_trailing(s.drop_first(), depth + 1, seq![]);
        }
    }
}

proof fn lemma_parse_list_no_trailing(s: Seq<u8>, depth: nat, acc: Seq<u8>)
    ensures
        parse_list(s, depth, acc) != Err::<(Seq<u8>, Seq<u8>), DecodeError>(DecodeError::TrailingBytes),
    decreases s.len(), 1nat,
{
    if s.len() > 0 && s[0] != 101u8 {
        lemma_parse_value_no_trailing(s, depth);
        match parse_value(s, depth) {
            Ok((c, rest)) => {
                if rest.len() < s.len() {
                    lemma_parse_list_no_trailing(rest, depth, acc + c);
                }
            },
            Err(_) => {},
        }
    }
}

proof fn lemma_parse_dict_no_trailing(s: Seq<u8>, depth: nat, acc: Seq<(Seq<u8>, Seq<u8>)>)
    ensures
        parse_dict(s, depth, acc) != Err::<(Seq<(Seq<u8>, Seq<u8>)>, Seq<u8>), DecodeError>(DecodeError::TrailingBytes),
    decreases s.len(), 1nat,
{
    if s.len() > 0 && s[0] != 101u8 {
        if !is_digit(s[0]) {
            lemma_parse_value_no_trailing(s, depth);
        } else {
            match parse_bytes(s) {
                Ok((k, r1)) => {
                    if r1.len() > 0 {
                        lemma_parse_value_no_trailing(r1, depth);
                        match parse_value(r1, depth) {
                            Ok((c, r2)) => {
                                if r2.len() < s.len() {
                                    lemma_parse_dict_no_trailing(r2, depth, dict_insert(acc, k, c));
                                }
                            },
                            Err(_) => {},
                        }
                    }
                },
                Err(_) => {},
            }
        }
    }
}
} // verus!
