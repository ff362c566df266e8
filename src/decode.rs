use vstd::prelude::*;
use crate::value::{Value, enc, enc_items, enc_entries, sorted_entries, canonical, canonical_items, canonical_entries, keys_ascending};
use crate::grammar::{
    DecodeError, MAX_DEPTH, is_digit, digits_len, digits_value, seq_lt, lower_bound,
    dict_insert, flat, parse_bytes, parse_int, parse_value, parse_list, parse_dict,
    ascending, lemma_dict_insert_ascending, lemma_seq_lt_transitive, lemma_lower_bound_end,
    lemma_parse_value_no_trailing,
};

verus! {

broadcast use {vstd::std_specs::vec::group_vec_axioms, vstd::seq::group_seq_axioms};

/// What the decoder knows of dictionary entries: each key's bytes and the
/// canonical encoding of its value.
pub open spec fn entries_view(e: Seq<(Vec<u8>, Value)>) -> Seq<(Seq<u8>, Seq<u8>)> {
    Seq::new(e.len(), |i: int| (e[i].0@, enc(e[i].1)))
}

proof fn lemma_canonical_entries(e: Seq<(Vec<u8>, Value)>, levels: nat)
    requires
        forall|i: int| 0 <= i < e.len() ==> canonical(#[trigger] e[i].1, levels),
    ensures
        canonical_entries(e, levels),
    decreases e.len(),
{
    if e.len() > 0 {
        assert(canonical(e[e.len() - 1].1, levels));
        lemma_canonical_entries(e.drop_last(), levels);
    }
}


/// Entries whose keys already ascend are their own canonical order.
pub(crate) proof fn lemma_sorted_entries(e: Seq<(Vec<u8>, Value)>)
    requires
        keys_ascending(e),
    ensures
        sorted_entries(e) == entries_view(e),
    decreases e.len(),
{
    if e.len() > 0 {
        let p = e.drop_last();
        assert(keys_ascending(p));
        lemma_sorted_entries(p);
        let d = entries_view(p);
        let k = e.last().0@;
        assert forall|j: int| 0 <= j < d.len() implies seq_lt(#[trigger] d[j].0, k) by {
            assert(d[j].0 == e[j].0@);
        }
        lemma_lower_bound_end(d, k);
        assert(dict_insert(d, k, enc(e.last().1)) =~= entries_view(e));
    }
}

/// The encoding of a dictionary whose keys ascend lists its entries as held.
pub(crate) proof fn lemma_dict_enc(e: Vec<(Vec<u8>, Value)>)
    requires
        keys_ascending(e@),
    ensures
        enc(Value::Dictionary(e)) == crate::value::dict_enc(enc_entries(e@)),
        enc(Value::Dictionary(e)) == crate::value::dict_enc(flat(entries_view(e@))),
{
    lemma_sorted_entries(e@);
    lemma_flat_entries(e@);
}

pub(crate) proof fn lemma_flat_entries(e: Seq<(Vec<u8>, Value)>)
    ensures
        flat(entries_view(e)) == enc_entries(e),
    decreases e.len(),
{
    if e.len() > 0 {
        lemma_flat_entries(e.drop_last());
        assert(entries_view(e).drop_last() =~= entries_view(e.drop_last()));
    }
}

proof fn lemma_digits_value_prefix(ds: Seq<u8>, k: int)
    requires
        0 <= k <= ds.len(),
    ensures
        digits_value(ds.take(k)) <= digits_value(ds),
    decreases ds.len(),
{
    if k < ds.len() {
        lemma_digits_value_prefix(ds.drop_last(), k);
        assert(ds.drop_last().take(k) =~= ds.take(k));
    } else {
        assert(ds.take(k) =~= ds);
    }
}

/// `a` sorts strictly before `b`, byte by byte.
pub(crate) fn key_less(a: &Vec<u8>, b: &Vec<u8>) -> (r: bool)
    ensures
        r == seq_lt(a@, b@),
{
    let mut i: usize = 0;
    assert(a@.skip(0) =~= a@);
    assert(b@.skip(0) =~= b@);
    while i < a.len() && i < b.len()
        invariant
            0 <= i <= a.len(),
            i <= b.len(),
            seq_lt(a@, b@) == seq_lt(a@.skip(i as int), b@.skip(i as int)),
        decreases a.len() - i,
    {
        if a[i] != b[i] {
            return a[i] < b[i];
        }
        assert(a@.skip(i as int).drop_first() =~= a@.skip(i + 1));
        assert(b@.skip(i as int).drop_first() =~= b@.skip(i + 1));
        i = i + 1;
    }
    i == a.len() && i < b.len()
}

/// `a` and `b` hold the same bytes.
pub(crate) fn bytes_equal(a: &Vec<u8>, b: &Vec<u8>) -> (r: bool)
    ensures
        r == (a@ == b@),
{
    if a.len() != b.len() {
        return false;
    }
    let mut i: usize = 0;
    while i < a.len()
        invariant
            0 <= i <= a.len(),
            a.len() == b.len(),
            a@.take(i as int) == b@.take(i as int),
        decreases a.len() - i,
    {
        if a[i] != b[i] {
            return false;
        }
        i = i + 1;
        assert(a@.take(i as int) =~= a@.take(i - 1).push(a@[i - 1]));
        assert(b@.take(i as int) =~= b@.take(i - 1).push(b@[i - 1]));
    }
    assert(a@ =~= a@.take(i as int));
    assert(b@ =~= b@.take(i as int));
    true
}

/// Puts `(k, v)` into dictionary entries held in key order, replacing an
/// entry with key `k`. A key after all others is appended at once.
pub fn insert_entry(entries: &mut Vec<(Vec<u8>, Value)>, k: Vec<u8>, v: Value)
    requires
        keys_ascending(old(entries)@),
    ensures
        entries_view(final(entries)@) == dict_insert(entries_view(old(entries)@), k@, enc(v)),
        keys_ascending(final(entries)@),
        forall|i: int| 0 <= i < final(entries)@.len() ==> #[trigger] final(entries)@[i].1 == v
            || exists|j: int| 0 <= j < old(entries)@.len() && final(entries)@[i].1 == old(entries)@[j].1,
{
    let ghost d = entries_view(entries@);
    let ghost vv = v;
    let n = entries.len();
    if n == 0 || key_less(&entries[n - 1].0, &k) {
        proof {
            assert forall|j: int| 0 <= j < d.len() implies seq_lt(#[trigger] d[j].0, k@) by {
                if j < n - 1 {
                    assert(d[j].0 == entries@[j].0@ && d[n - 1].0 == entries@[n - 1].0@);
                    lemma_seq_lt_transitive(d[j].0, d[n - 1].0, k@);
                }
            }
            lemma_lower_bound_end(d, k@);
        }
        entries.push((k, v));
        proof {
            assert(entries_view(entries@) =~= dict_insert(d, k@, enc(vv)));
            assert forall|a: int, b: int| 0 <= a < b < entries@.len() implies seq_lt(#[trigger] entries@[a].0@, #[trigger] entries@[b].0@) by {
                if b == n {
                    assert(d[a].0 == entries@[a].0@);
                }
            }
            assert forall|a: int| 0 <= a < entries@.len() && a != n implies #[trigger] entries@[a] == old(entries)@[a] by {}
        }
        return;
    }
    let mut i: usize = 0;
    assert(d.skip(0) =~= d);
    while i < entries.len() && key_less(&entries[i].0, &k)
        invariant
            0 <= i <= entries.len(),
            d == entries_view(entries@),
            entries@ == old(entries)@,
            lower_bound(d, k@) == i + lower_bound(d.skip(i as int), k@),
        decreases entries.len() - i,
    {
        assert(d.skip(i as int).drop_first() =~= d.skip(i + 1));
        i = i + 1;
    }
    assert(lower_bound(d, k@) == i);
    if i < entries.len() && bytes_equal(&entries[i].0, &k) {
        entries.set(i, (k, v));
        assert(entries_view(entries@) =~= dict_insert(d, k@, enc(vv)));
        assert forall|a: int| 0 <= a < entries@.len() && a != i implies #[trigger] entries@[a] == old(entries)@[a] by {}
    } else {
        entries.insert(i, (k, v));
        assert(entries_view(entries@) =~= dict_insert(d, k@, enc(vv)));
        assert forall|a: int| 0 <= a < entries@.len() && a != i implies #[trigger] entries@[a]
            == old(entries)@[if a < i { a } else { a - 1 }] by {}
    }
    proof {
        let n = entries@;
        let o = old(entries)@;
        assert forall|a: int| 0 <= a < n.len() implies #[trigger] n[a].1 == vv
            || exists|j: int| 0 <= j < o.len() && n[a].1 == o[j].1 by {
            if a != i {
                let j = if n.len() == o.len() || a < i { a } else { a - 1 };
                assert(n[a] == o[j]);
            }
        }
        assert(ascending(d));
        lemma_dict_insert_ascending(d, k@, enc(vv));
        assert forall|a: int, b: int| 0 <= a < b < n.len() implies seq_lt(#[trigger] n[a].0@, #[trigger] n[b].0@) by {
            assert(entries_view(n)[a].0 == n[a].0@);
            assert(entries_view(n)[b].0 == n[b].0@);
        }
    }
}

/// The end of the run of ASCII digits that starts at `p`.
fn scan_digits(s: &[u8], p: usize) -> (q: usize)
    requires
        p <= s.len(),
    ensures
        p <= q <= s.len(),
        q - p == digits_len(s@.skip(p as int)),
{
    let mut i: usize = p;
    while i < s.len() && 48 <= s[i] && s[i] <= 57
        invariant
            p <= i <= s.len(),
            digits_len(s@.skip(p as int)) == (i - p) + digits_len(s@.skip(i as int)),
        decreases s.len() - i,
    {
        assert(s@.skip(i as int).drop_first() =~= s@.skip(i + 1));
        i = i + 1;
    }
    i
}

/// The number written by the digits `s[p..q]`, or `None` where it exceeds `limit`.
fn digits_upto(s: &[u8], p: usize, q: usize, limit: u128) -> (r: Option<u128>)
    requires
        p <= q <= s.len(),
        limit <= u64::MAX,
        forall|j: int| p <= j < q ==> is_digit(s@[j]),
    ensures
        match r {
            Some(x) => x == digits_value(s@.subrange(p as int, q as int)) && x <= limit,
            None => digits_value(s@.subrange(p as int, q as int)) > limit,
        },
{
    let mut acc: u128 = 0;
    let mut j: usize = p;
    assert(s@.subrange(p as int, p as int) =~= Seq::<u8>::empty());
    while j < q
        invariant
            p <= j <= q,
            q <= s.len(),
            limit <= u64::MAX,
            forall|i: int| p <= i < q ==> is_digit(s@[i]),
            acc == digits_value(s@.subrange(p as int, j as int)),
            acc <= limit,
        decreases q - j,
    {
        let d = (s[j] - 48) as u128;
        acc = acc * 10 + d;
        j = j + 1;
        assert(s@.subrange(p as int, j as int).drop_last() =~= s@.subrange(p as int, j - 1));
        if acc > limit {
            proof {
                assert(s@.subrange(p as int, q as int).take(j - p) =~= s@.subrange(p as int, j as int));
                lemma_digits_value_prefix(s@.subrange(p as int, q as int), j - p);
            }
            return None;
        }
    }
    Some(acc)
}

/// The byte string at `pos`, which starts with a digit, and where it ends.
fn decode_bytes(s: &[u8], pos: usize) -> (r: Result<(Vec<u8>, usize), DecodeError>)
    requires
        pos < s.len(),
        is_digit(s@[pos as int]),
    ensures
        match parse_bytes(s@.skip(pos as int)) {
            Ok((b, rest)) => r matches Ok((v, end)) && v@ == b && pos < end <= s.len()
                && rest == s@.skip(end as int),
            Err(e) => r == Err::<(Vec<u8>, usize), DecodeError>(e),
        },
{
    let ghost t = s@.skip(pos as int);
    let q = scan_digits(s, pos);
    if q >= s.len() {
        return Err(DecodeError::TruncatedInput);
    }
    assert(t[q - pos] == s@[q as int]);
    if s[q] != 58 || (s[pos] == 48 && q - pos > 1) {
        return Err(DecodeError::MalformedLength);
    }
    let start = q + 1;
    assert(t.take(q - pos) =~= s@.subrange(pos as int, q as int));
    proof {
        assert forall|j: int| pos <= j < q implies is_digit(s@[j]) by {
            lemma_digits_run(s@.skip(pos as int), j - pos);
            assert(s@.skip(pos as int)[j - pos] == s@[j]);
        }
    }
    match digits_upto(s, pos, q, (s.len() - start) as u128) {
        None => Err(DecodeError::TruncatedInput),
        Some(len) => {
            let len = len as usize;
            let mut b: Vec<u8> = Vec::new();
            let mut i: usize = start;
            while i < start + len
                invariant
                    start <= i <= start + len <= s.len(),
                    b@ == s@.subrange(start as int, i as int),
                decreases start + len - i,
            {
                b.push(s[i]);
                i = i + 1;
                assert(b@ =~= s@.subrange(start as int, i as int));
            }
            assert(t.subrange(q - pos + 1, q - pos + 1 + len) =~= b@);
            assert(t.skip(q - pos + 1 + len) =~= s@.skip((start + len) as int));
            Ok((b, start + len))
        },
    }
}

proof fn lemma_digits_run(s: Seq<u8>, j: int)
    requires
        0 <= j < digits_len(s),
    ensures
        j < s.len(),
        is_digit(s[j]),
    decreases s.len(),
{
    assert(s.len() > 0 && is_digit(s[0]));
    if j > 0 {
        lemma_digits_run(s.drop_first(), j - 1);
        assert(s.drop_first()[j - 1] == s[j]);
    }
}


/// The integer at `pos`, which holds an `i`, and where it ends.
fn decode_int(s: &[u8], pos: usize, nested: bool) -> (r: Result<(i64, usize), DecodeError>)
    requires
        pos < s.len(),
        s@[pos as int] == 105u8,
    ensures
        match parse_int(s@.skip(pos as int), nested) {
            Ok((n, rest)) => r matches Ok((x, end)) && x == n && pos < end <= s.len()
                && rest == s@.skip(end as int),
            Err(e) => r == Err::<(i64, usize), DecodeError>(e),
        },
{
    let ghost t = s@.skip(pos as int);
    let neg = pos + 1 < s.len() && s[pos + 1] == 45;
    let p = if neg { pos + 2 } else { pos + 1 };
    let q = scan_digits(s, p);
    assert(t.skip(p - pos) =~= s@.skip(p as int));
    if q >= s.len() {
        return if nested { Err(DecodeError::TruncatedInput) } else { Err(DecodeError::MalformedInteger) };
    }
    assert(t[q - pos] == s@[q as int]);
    if s[q] != 101 || q == p || (s[p] == 48 && (q - p > 1 || neg)) {
        return Err(DecodeError::MalformedInteger);
    }
    proof {
        assert forall|j: int| p <= j < q implies is_digit(s@[j]) by {
            lemma_digits_run(s@.skip(p as int), j - p);
            assert(s@.skip(p as int)[j - p] == s@[j]);
        }
    }
    assert(t.subrange(p - pos, q - pos) =~= s@.subrange(p as int, q as int));
    assert(t.skip(q - pos + 1) =~= s@.skip(q + 1));
    let limit: u128 = if neg { 0x8000_0000_0000_0000 } else { 0x7fff_ffff_ffff_ffff };
    match digits_upto(s, p, q, limit) {
        None => Err(DecodeError::MalformedInteger),
        Some(mag) => {
            let n: i64 = if neg { (0 - (mag as i128)) as i64 } else { mag as i64 };
            Ok((n, q + 1))
        },
    }
}

/// The value at `pos`, inside `depth` enclosing lists and dictionaries, and
/// where it ends.
fn decode_value(s: &[u8], pos: usize, depth: usize) -> (r: Result<(Value, usize), DecodeError>)
    requires
        pos <= s.len(),
        depth <= MAX_DEPTH,
    ensures
        match parse_value(s@.skip(pos as int), depth as nat) {
            Ok((c, rest)) => r matches Ok((v, end)) && enc(v) == c && pos < end <= s.len()
                && rest == s@.skip(end as int),
            Err(e) => r == Err::<(Value, usize), DecodeError>(e),
        },
        r matches Ok((v, _)) ==> canonical(v, (MAX_DEPTH - depth) as nat),
    decreases s.len() - pos,
{
    let ghost t = s@.skip(pos as int);
    if pos >= s.len() {
        return Err(DecodeError::UnrecognizedTag);
    }
    assert(t[0] == s@[pos as int]);
    let tag = s[pos];
    if tag == 105 {
        match decode_int(s, pos, depth > 0) {
            Ok((n, end)) => Ok((Value::Integer(n), end)),
            Err(e) => Err(e),
        }
    } else if 48 <= tag && tag <= 57 {
        match decode_bytes(s, pos) {
            Ok((b, end)) => Ok((Value::ByteString(b), end)),
            Err(e) => Err(e),
        }
    } else if tag == 108 || tag == 100 {
        if depth >= MAX_DEPTH {
            return Err(DecodeError::NestingTooDeep);
        }
        assert(t.drop_first() =~= s@.skip(pos + 1));
        let mut p: usize = pos + 1;
        if tag == 108 {
            let mut items: Vec<Value> = Vec::new();
            assert(enc_items(items@) =~= Seq::<u8>::empty());
            while p < s.len() && s[p] != 101
                invariant
                    pos < p <= s.len(),
                    depth < MAX_DEPTH,
                    s@.skip(pos as int)[0] == 108u8,
                    s@.skip(pos as int).drop_first() == s@.skip(pos + 1),
                    parse_list(s@.skip(pos + 1), (depth + 1) as nat, seq![])
                        == parse_list(s@.skip(p as int), (depth + 1) as nat, enc_items(items@)),
                    canonical_items(items@, (MAX_DEPTH - depth - 1) as nat),
                decreases s.len() - p,
            {
                assert(s@.skip(p as int)[0] == s@[p as int]);
                match decode_value(s, p, depth + 1) {
                    Ok((v, end)) => {
                        proof {
                            assert(items@.push(v).drop_last() =~= items@);
                        }
                        items.push(v);
                        p = end;
                    },
                    Err(e) => {
                        assert(parse_list(s@.skip(p as int), (depth + 1) as nat, enc_items(items@)) == Err::<(Seq<u8>, Seq<u8>), DecodeError>(e));
                        return Err(e);
                    },
                }
            }
            if p >= s.len() {
                return Err(DecodeError::TruncatedInput);
            }
            assert(s@.skip(p as int)[0] == s@[p as int]);
            assert(s@.skip(p as int).drop_first() =~= s@.skip(p + 1));
            Ok((Value::List(items), p + 1))
        } else {
            let mut entries: Vec<(Vec<u8>, Value)> = Vec::new();
            assert(entries_view(entries@) =~= Seq::<(Seq<u8>, Seq<u8>)>::empty());
            while p < s.len() && s[p] != 101
                invariant
                    pos < p <= s.len(),
                    depth < MAX_DEPTH,
                    s@.skip(pos as int)[0] == 100u8,
                    s@.skip(pos as int).drop_first() == s@.skip(pos + 1),
                    parse_dict(s@.skip(pos + 1), (depth + 1) as nat, seq![])
                        == parse_dict(s@.skip(p as int), (depth + 1) as nat, entries_view(entries@)),
                    keys_ascending(entries@),
                    forall|i: int| 0 <= i < entries@.len()
                        ==> canonical(#[trigger] entries@[i].1, (MAX_DEPTH - depth - 1) as nat),
                decreases s.len() - p,
            {
                assert(s@.skip(p as int)[0] == s@[p as int]);
                if !(48 <= s[p] && s[p] <= 57) {
                    match decode_value(s, p, depth + 1) {
                        Ok(_) => {
                            assert(parse_dict(s@.skip(p as int), (depth + 1) as nat, entries_view(entries@))
                                == Err::<(Seq<(Seq<u8>, Seq<u8>)>, Seq<u8>), DecodeError>(DecodeError::NonStringKey));
                            return Err(DecodeError::NonStringKey);
                        },
                        Err(e) => {
                            return Err(e);
                        },
                    }
                }
                match decode_bytes(s, p) {
                    Ok((k, kend)) => {
                        if kend >= s.len() {
                            assert(s@.skip(kend as int).len() == 0);
                            assert(parse_dict(s@.skip(p as int), (depth + 1) as nat, entries_view(entries@))
                                == Err::<(Seq<(Seq<u8>, Seq<u8>)>, Seq<u8>), DecodeError>(DecodeError::TruncatedInput));
                            return Err(DecodeError::TruncatedInput);
                        }
                        match decode_value(s, kend, depth + 1) {
                            Ok((v, end)) => {
                                insert_entry(&mut entries, k, v);
                                p = end;
                            },
                            Err(e) => {
                                return Err(e);
                            },
                        }
                    },
                    Err(e) => {
                        return Err(e);
                    },
                }
            }
            if p >= s.len() {
                return Err(DecodeError::TruncatedInput);
            }
            assert(s@.skip(p as int)[0] == s@[p as int]);
            assert(s@.skip(p as int).drop_first() =~= s@.skip(p + 1));
            proof {
                lemma_dict_enc(entries);
                lemma_canonical_entries(entries@, (MAX_DEPTH - depth - 1) as nat);
            }
            Ok((Value::Dictionary(entries), p + 1))
        }
    } else {
        Err(DecodeError::UnrecognizedTag)
    }
}


/// What decoding `bytes` owes: where the grammar reads a value at the front,
/// a canonical value whose encoding is the canonical text of what was read,
/// and the number of bytes read; else the error the grammar gives.
pub open spec fn decoded(bytes: Seq<u8>, r: Result<(Value, usize), DecodeError>) -> bool {
    match parse_value(bytes, 0) {
        Ok((c, rest)) => r matches Ok((v, n)) && enc(v) == c && canonical(v, MAX_DEPTH as nat)
            && 0 < n <= bytes.len() && n == bytes.len() - rest.len() && rest == bytes.skip(n as int),
        Err(e) => r == Err::<(Value, usize), DecodeError>(e),
    }
}

/// Decodes the value at the front of `bytes`: the value, whose canonical
/// encoding is what the grammar reads there, and the number of bytes it took.
pub fn decode(bytes: &[u8]) -> (r: Result<(Value, usize), DecodeError>)
    ensures
        decoded(bytes@, r),
        r != Err::<(Value, usize), DecodeError>(DecodeError::TrailingBytes),
{
    proof {
        lemma_parse_value_no_trailing(bytes@, 0);
    }
    assert(bytes@.skip(0) =~= bytes@);
    decode_value(bytes, 0, 0)
}

/// Decodes `bytes` as exactly one value, with nothing after it.
pub fn decode_exact(bytes: &[u8]) -> (r: Result<Value, DecodeError>)
    ensures
        match parse_value(bytes@, 0) {
            Ok((c, rest)) => if rest.len() == 0 {
                r matches Ok(v) && enc(v) == c && canonical(v, MAX_DEPTH as nat)
            } else {
                r == Err::<Value, DecodeError>(DecodeError::TrailingBytes)
            },
            Err(e) => r == Err::<Value, DecodeError>(e),
        },
{
    match decode(bytes) {
        Ok((v, n)) => {
            if n < bytes.len() {
                Err(DecodeError::TrailingBytes)
            } else {
                Ok(v)
            }
        },
        Err(e) => Err(e),
    }
}

/// Decodes the value at the front of `encoded` and removes the bytes it took;
/// on an error `encoded` is left as it was.
pub fn decode_bencoded_value(encoded: &mut Vec<u8>) -> (r: Result<Value, DecodeError>)
    ensures
        match parse_value(old(encoded)@, 0) {
            Ok((c, rest)) => r matches Ok(v) && enc(v) == c && canonical(v, MAX_DEPTH as nat)
                && final(encoded)@ == rest,
            Err(e) => r == Err::<Value, DecodeError>(e) && final(encoded)@ == old(encoded)@,
        },
        r != Err::<Value, DecodeError>(DecodeError::TrailingBytes),
{
    match decode(encoded.as_slice()) {
        Ok((v, n)) => {
            let mut tail: Vec<u8> = Vec::new();
            let mut i: usize = n;
            while i < encoded.len()
                invariant
                    n <= i <= encoded.len(),
                    tail@ == encoded@.subrange(n as int, i as int),
                decreases encoded.len() - i,
            {
                tail.push(encoded[i]);
                i = i + 1;
                assert(tail@ =~= encoded@.subrange(n as int, i as int));
            }
            assert(tail@ =~= encoded@.skip(n as int));
            *encoded = tail;
            Ok(v)
        },
        Err(e) => Err(e),
    }
}

} // verus!
