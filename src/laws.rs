use vstd::prelude::*;
use crate::value::{
    canonical, canonical_items, canonical_entries, keys_ascending, same_value, same_items,
    same_entries, sorted_entries, within_depth, within_depth_items, within_depth_entries, Value, enc, enc_items, enc_entries, nat_text, int_enc, bytes_enc, digit_char,
};
use crate::grammar::{
    MAX_DEPTH, is_digit, digits_len, digits_value, seq_lt, dict_insert, lemma_lower_bound_end,
    ascending, flat, lower_bound, lemma_dict_insert_ascending, lemma_lower_bound,
    parse_bytes, parse_int, parse_value, parse_list, parse_dict,
};
use crate::decode::{entries_view, lemma_dict_enc, decoded};
use crate::grammar::DecodeError;

verus! {

broadcast use {vstd::std_specs::vec::group_vec_axioms, vstd::seq::group_seq_axioms};

proof fn lemma_digits_len_append(s: Seq<u8>, r: Seq<u8>)
    requires
        forall|i: int| 0 <= i < s.len() ==> is_digit(#[trigger] s[i]),
    ensures
        digits_len(s + r) == s.len() + digits_len(r),
    decreases s.len(),
{
    if s.len() > 0 {
        assert((s + r).drop_first() =~= s.drop_first() + r);
        lemma_digits_len_append(s.drop_first(), r);
    } else {
        assert(s + r =~= r);
    }
}

proof fn lemma_nat_text(n: nat)
    ensures
        nat_text(n).len() > 0,
        forall|i: int| 0 <= i < nat_text(n).len() ==> is_digit(#[trigger] nat_text(n)[i]),
        digits_value(nat_text(n)) == n,
        nat_text(n)[0] == 48u8 ==> n == 0 && nat_text(n).len() == 1,
    decreases n,
{
    if n >= 10 {
        lemma_nat_text(n / 10);
        let t = nat_text(n / 10);
        assert(nat_text(n) == t.push(digit_char(n % 10)));
        assert(nat_text(n).drop_last() =~= t);
        assert(nat_text(n).last() == digit_char(n % 10));
        assert((digit_char(n % 10) - 48) as nat == n % 10);
        assert((n / 10) * 10 + n % 10 == n);
        assert(digits_value(nat_text(n)) == digits_value(t) * 10 + (nat_text(n).last() - 48) as nat);
        assert(n / 10 > 0);
    } else {
        assert(nat_text(n).drop_last() =~= Seq::<u8>::empty());
        assert(nat_text(n).last() == digit_char(n));
        assert((digit_char(n) - 48) as nat == n);
        assert(digits_value(nat_text(n)) == digits_value(nat_text(n).drop_last()) * 10 + (nat_text(n).last() - 48) as nat);
    }
}

/// The digits of `nat_text(n)`, followed by a non-digit, read back as `n`.
proof fn lemma_read_nat(n: nat, r: Seq<u8>)
    requires
        r.len() > 0,
        !is_digit(r[0]),
    ensures
        digits_len(nat_text(n) + r) == nat_text(n).len(),
        (nat_text(n) + r).take(nat_text(n).len() as int) == nat_text(n),
        (nat_text(n) + r)[nat_text(n).len() as int] == r[0],
{
    lemma_nat_text(n);
    lemma_digits_len_append(nat_text(n), r);
    assert(digits_len(r) == 0);
    assert((nat_text(n) + r).take(nat_text(n).len() as int) =~= nat_text(n));
}

proof fn lemma_int_round_trip(n: i64, rest: Seq<u8>, nested: bool)
    ensures
        parse_int(int_enc(n as int) + rest, nested) == Ok::<(int, Seq<u8>), DecodeError>((n as int, rest)),
{
    let mag: nat = if n < 0 { (-(n as int)) as nat } else { n as nat };
    let t = nat_text(mag);
    let m = t.len() as int;
    let tail = seq![101u8] + rest;
    lemma_nat_text(mag);
    lemma_read_nat(mag, tail);
    let s = int_enc(n as int) + rest;
    if n < 0 {
        assert(s =~= seq![105u8, 45u8] + (t + tail));
        assert(s.skip(2) =~= t + tail);
        assert(s.subrange(2, 2 + m) =~= t);
        assert(s.skip(2 + m + 1) =~= rest);
        assert(s[2 + m] == 101u8);
        assert(s[2] == t[0]);
    } else {
        assert(s =~= seq![105u8] + (t + tail));
        assert(s.skip(1) =~= t + tail);
        assert(s.subrange(1, 1 + m) =~= t);
        assert(s.skip(1 + m + 1) =~= rest);
        assert(s[1 + m] == 101u8);
        assert(s[1] == t[0]);
        assert(s[1] != 45u8);
    }
}

proof fn lemma_bytes_round_trip(b: Seq<u8>, rest: Seq<u8>)
    ensures
        parse_bytes(bytes_enc(b) + rest) == Ok::<(Seq<u8>, Seq<u8>), DecodeError>((b, rest)),
        is_digit((bytes_enc(b) + rest)[0]),
{
    let t = nat_text(b.len());
    let m = t.len() as int;
    let l = b.len() as int;
    let tail = seq![58u8] + b + rest;
    lemma_nat_text(b.len());
    lemma_read_nat(b.len(), tail);
    let s = bytes_enc(b) + rest;
    assert(s =~= t + tail);
    assert(s.subrange(m + 1, m + 1 + l) =~= b);
    assert(s.skip(m + 1 + l) =~= rest);
    assert(s[0] == t[0]);
}

proof fn lemma_enc_starts(v: Value)
    ensures
        enc(v).len() > 0,
        enc(v)[0] != 101u8,
{
    match v {
        Value::ByteString(b) => {
            lemma_nat_text(b@.len());
            assert(enc(v)[0] == nat_text(b@.len())[0]);
        },
        _ => {},
    }
}

proof fn lemma_enc_items_split(s: Seq<Value>, i: int)
    requires
        0 <= i < s.len(),
    ensures
        enc_items(s.skip(i)) == enc(s[i]) + enc_items(s.skip(i + 1)),
        enc_items(s.take(i + 1)) == enc_items(s.take(i)) + enc(s[i]),
        enc_items(s) == enc_items(s.take(i)) + enc_items(s.skip(i)),
    decreases s.len(),
{
    assert(s.take(i + 1).drop_last() =~= s.take(i));
    if i + 1 == s.len() {
        assert(s.skip(i + 1) =~= Seq::<Value>::empty());
        assert(s.skip(i).drop_last() =~= Seq::<Value>::empty());
        assert(s.take(i + 1) =~= s);
        assert(s.skip(i).last() == s[i]);
        assert(enc_items(s.skip(i).drop_last()) == Seq::<u8>::empty());
        assert(enc_items(s.skip(i)) =~= enc(s[i]));
    } else {
        lemma_enc_items_split(s.drop_last(), i);
        assert(s.drop_last().skip(i) =~= s.skip(i).drop_last());
        assert(s.drop_last().skip(i + 1) =~= s.skip(i + 1).drop_last());
        assert(s.drop_last().take(i) =~= s.take(i));
        assert(s.drop_last().take(i + 1) =~= s.take(i + 1));
        assert(enc_items(s.skip(i)) =~= enc_items(s.skip(i).drop_last()) + enc(s.last()));
    }
}


proof fn lemma_enc_entries_split(s: Seq<(Vec<u8>, Value)>, i: int)
    requires
        0 <= i < s.len(),
    ensures
        enc_entries(s.skip(i)) == bytes_enc(s[i].0@) + enc(s[i].1) + enc_entries(s.skip(i + 1)),
    decreases s.len(),
{
    if i + 1 == s.len() {
        assert(s.skip(i + 1) =~= Seq::<(Vec<u8>, Value)>::empty());
        assert(s.skip(i).drop_last() =~= Seq::<(Vec<u8>, Value)>::empty());
        assert(s.skip(i).last() == s[i]);
        assert(enc_entries(s.skip(i).drop_last()) == Seq::<u8>::empty());
        assert(enc_entries(s.skip(i)) =~= bytes_enc(s[i].0@) + enc(s[i].1) + enc_entries(s.skip(i + 1)));
    } else {
        lemma_enc_entries_split(s.drop_last(), i);
        assert(s.drop_last().skip(i) =~= s.skip(i).drop_last());
        assert(s.drop_last().skip(i + 1) =~= s.skip(i + 1).drop_last());
        assert(enc_entries(s.skip(i)) =~= enc_entries(s.skip(i).drop_last()) + bytes_enc(s.last().0@) + enc(s.last().1));
        assert(enc_entries(s.skip(i + 1)) =~= enc_entries(s.skip(i + 1).drop_last()) + bytes_enc(s.last().0@) + enc(s.last().1));
    }
}

proof fn lemma_canonical_item(s: Seq<Value>, levels: nat, i: int)
    requires
        canonical_items(s, levels),
        0 <= i < s.len(),
    ensures
        canonical(s[i], levels),
    decreases s.len(),
{
    if i + 1 < s.len() {
        lemma_canonical_item(s.drop_last(), levels, i);
    }
}

proof fn lemma_canonical_entry(s: Seq<(Vec<u8>, Value)>, levels: nat, i: int)
    requires
        canonical_entries(s, levels),
        0 <= i < s.len(),
    ensures
        canonical(s[i].1, levels),
    decreases s.len(),
{
    if i + 1 < s.len() {
        lemma_canonical_entry(s.drop_last(), levels, i);
    }
}

/// The encoding of a canonical value, followed by anything, parses back to
/// that encoding and leaves what follows.
proof fn lemma_value_round_trip(v: Value, rest: Seq<u8>, d: nat)
    requires
        d <= MAX_DEPTH,
        canonical(v, (MAX_DEPTH - d) as nat),
    ensures
        parse_value(enc(v) + rest, d) == Ok::<(Seq<u8>, Seq<u8>), DecodeError>((enc(v), rest)),
    decreases v, 0nat,
{
    let s = enc(v) + rest;
    match v {
        Value::Integer(n) => {
            lemma_int_round_trip(n, rest, d > 0);
        },
        Value::ByteString(b) => {
            lemma_bytes_round_trip(b@, rest);
            lemma_nat_text(b@.len());
        },
        Value::List(items) => {
            assert(decreases_to!(v => v->List_0));
            assert(decreases_to!(v => items@));
            assert(s.drop_first() =~= enc_items(items@.skip(0)) + seq![101u8] + rest) by {
                assert(items@.skip(0) =~= items@);
            }
            assert(items@.take(0) =~= Seq::<Value>::empty());
            lemma_items_round_trip(items@, 0, rest, d + 1);
        },
        Value::Dictionary(e) => {
            assert(decreases_to!(v => v->Dictionary_0));
            assert(decreases_to!(v => e@));
            lemma_dict_enc(e);
            assert(s.drop_first() =~= enc_entries(e@.skip(0)) + seq![101u8] + rest) by {
                assert(e@.skip(0) =~= e@);
            }
            assert(entries_view(e@.take(0)) =~= Seq::<(Seq<u8>, Seq<u8>)>::empty());
            lemma_entries_round_trip(e@, 0, rest, d + 1);
        },
    }
}

proof fn lemma_items_round_trip(s: Seq<Value>, i: int, rest: Seq<u8>, d: nat)
    requires
        0 <= i <= s.len(),
        d <= MAX_DEPTH,
        canonical_items(s, (MAX_DEPTH - d) as nat),
    ensures
        parse_list(enc_items(s.skip(i)) + seq![101u8] + rest, d, enc_items(s.take(i)))
            == Ok::<(Seq<u8>, Seq<u8>), DecodeError>((enc_items(s), rest)),
    decreases s, s.len() - i,
{
    let x = enc_items(s.skip(i)) + seq![101u8] + rest;
    if i == s.len() {
        assert(s.skip(i) =~= Seq::<Value>::empty());
        assert(s.take(i) =~= s);
        assert(x =~= seq![101u8] + rest);
        assert(x.drop_first() =~= rest);
    } else {
        lemma_enc_items_split(s, i);
        let y = enc_items(s.skip(i + 1)) + seq![101u8] + rest;
        assert(x =~= enc(s[i]) + y);
        lemma_enc_starts(s[i]);
        lemma_canonical_item(s, (MAX_DEPTH - d) as nat, i);
        assert(decreases_to!(s => s[i]));
        lemma_value_round_trip(s[i], y, d);
        lemma_items_round_trip(s, i + 1, rest, d);
    }
}

proof fn lemma_entries_round_trip(e: Seq<(Vec<u8>, Value)>, i: int, rest: Seq<u8>, d: nat)
    requires
        0 <= i <= e.len(),
        d <= MAX_DEPTH,
        keys_ascending(e),
        canonical_entries(e, (MAX_DEPTH - d) as nat),
    ensures
        parse_dict(enc_entries(e.skip(i)) + seq![101u8] + rest, d, entries_view(e.take(i)))
            == Ok::<(Seq<(Seq<u8>, Seq<u8>)>, Seq<u8>), DecodeError>((entries_view(e), rest)),
    decreases e, e.len() - i,
{
    let x = enc_entries(e.skip(i)) + seq![101u8] + rest;
    if i == e.len() {
        assert(e.skip(i) =~= Seq::<(Vec<u8>, Value)>::empty());
        assert(e.take(i) =~= e);
        assert(x =~= seq![101u8] + rest);
        assert(x.drop_first() =~= rest);
    } else {
        lemma_enc_entries_split(e, i);
        let k = e[i].0@;
        let val = e[i].1;
        let y = enc_entries(e.skip(i + 1)) + seq![101u8] + rest;
        let r1 = enc(val) + y;
        assert(x =~= bytes_enc(k) + r1);
        lemma_bytes_round_trip(k, r1);
        lemma_enc_starts(val);
        lemma_canonical_entry(e, (MAX_DEPTH - d) as nat, i);
        assert(decreases_to!(e => e[i]));
        assert(decreases_to!(e => e[i].1));
        lemma_value_round_trip(val, y, d);
        let acc = entries_view(e.take(i));
        assert forall|j: int| 0 <= j < acc.len() implies seq_lt(#[trigger] acc[j].0, k) by {
            assert(acc[j].0 == e[j].0@);
        }
        lemma_lower_bound_end(acc, k);
        assert(dict_insert(acc, k, enc(val)) =~= entries_view(e.take(i + 1)));
        lemma_entries_round_trip(e, i + 1, rest, d);
    }
}


proof fn lemma_same_items(x: Seq<Value>, y: Seq<Value>)
    requires
        x.len() == y.len(),
        forall|j: int| 0 <= j < x.len() ==> same_value(#[trigger] x[j], y[j]),
    ensures
        same_items(x, y),
    decreases x.len(),
{
    if x.len() > 0 {
        assert(same_value(x[x.len() - 1], y[y.len() - 1]));
        lemma_same_items(x.drop_last(), y.drop_last());
    }
}

proof fn lemma_same_entries(x: Seq<(Vec<u8>, Value)>, y: Seq<(Vec<u8>, Value)>)
    requires
        x.len() == y.len(),
        forall|j: int| 0 <= j < x.len() ==> #[trigger] x[j].0@ == y[j].0@ && same_value(x[j].1, y[j].1),
    ensures
        same_entries(x, y),
    decreases x.len(),
{
    if x.len() > 0 {
        assert(x[x.len() - 1].0@ == y[y.len() - 1].0@);
        lemma_same_entries(x.drop_last(), y.drop_last());
    }
}

proof fn lemma_enc_tag(v: Value)
    ensures
        enc(v).len() > 0,
        v is Integer <==> enc(v)[0] == 105u8,
        v is ByteString <==> is_digit(enc(v)[0]),
        v is List <==> enc(v)[0] == 108u8,
        v is Dictionary <==> enc(v)[0] == 100u8,
{
    lemma_enc_starts(v);
    match v {
        Value::ByteString(b) => {
            lemma_nat_text(b@.len());
            assert(enc(v)[0] == nat_text(b@.len())[0]);
        },
        _ => {},
    }
}

/// Canonical values with equal encodings are the same value.
#[verifier::spinoff_prover]
#[verifier::rlimit(50)]
proof fn lemma_enc_injective(a: Value, b: Value, d: nat)
    requires
        d <= MAX_DEPTH,
        canonical(a, (MAX_DEPTH - d) as nat),
        canonical(b, (MAX_DEPTH - d) as nat),
        enc(a) == enc(b),
    ensures
        same_value(a, b),
    decreases a, 0nat,
{
    let e = Seq::<u8>::empty();
    lemma_enc_tag(a);
    lemma_enc_tag(b);
    match a {
        Value::Integer(n) => {
            lemma_int_round_trip(n, e, d > 0);
            assert(int_enc(n as int) + e =~= int_enc(n as int));
            match b {
                Value::Integer(m) => {
                    lemma_int_round_trip(m, e, d > 0);
                    assert(int_enc(m as int) + e =~= int_enc(m as int));
                },
                Value::ByteString(y) => {
                    lemma_nat_text(y@.len());
                    assert(enc(b)[0] == nat_text(y@.len())[0]);
                },
                _ => {},
            }
        },
        Value::ByteString(x) => {
            lemma_nat_text(x@.len());
            assert(enc(a)[0] == nat_text(x@.len())[0]);
            lemma_bytes_round_trip(x@, e);
            match b {
                Value::ByteString(y) => {
                    lemma_bytes_round_trip(y@, e);
                    assert(bytes_enc(x@) + e =~= bytes_enc(x@));
                    assert(bytes_enc(y@) + e =~= bytes_enc(y@));
                },
                _ => {},
            }
        },
        Value::List(x) => {
            match b {
                Value::List(y) => {
                    assert(decreases_to!(a => a->List_0));
                    assert(decreases_to!(a => x@));
                    assert(enc_items(x@.skip(0)) + seq![101u8] =~= enc(a).drop_first()) by {
                        assert(x@.skip(0) =~= x@);
                    }
                    assert(enc_items(y@.skip(0)) + seq![101u8] =~= enc(b).drop_first()) by {
                        assert(y@.skip(0) =~= y@);
                    }
                    lemma_items_injective(x@, y@, 0, d + 1);
                    lemma_same_items(x@, y@);
                },
                Value::ByteString(y) => {
                    lemma_nat_text(y@.len());
                    assert(enc(b)[0] == nat_text(y@.len())[0]);
                },
                _ => {},
            }
        },
        Value::Dictionary(x) => {
            match b {
                Value::Dictionary(y) => {
                    assert(decreases_to!(a => a->Dictionary_0));
                    assert(decreases_to!(a => x@));
                    lemma_dict_enc(x);
                    lemma_dict_enc(y);
                    assert(enc_entries(x@.skip(0)) + seq![101u8] =~= enc(a).drop_first()) by {
                        assert(x@.skip(0) =~= x@);
                    }
                    assert(enc_entries(y@.skip(0)) + seq![101u8] =~= enc(b).drop_first()) by {
                        assert(y@.skip(0) =~= y@);
                    }
                    lemma_entries_injective(x@, y@, 0, d + 1);
                    assert forall|j: int| 0 <= j < x@.len() implies #[trigger] x@[j].0@ == y@[j].0@
                        && same_value(x@[j].1, y@[j].1) by {
                        assert(x@[j].0@ == y@[j].0@);
                    }
                    lemma_same_entries(x@, y@);
                },
                Value::ByteString(y) => {
                    lemma_nat_text(y@.len());
                    assert(enc(b)[0] == nat_text(y@.len())[0]);
                },
                _ => {},
            }
        },
    }
}

proof fn lemma_items_injective(x: Seq<Value>, y: Seq<Value>, i: int, d: nat)
    requires
        d <= MAX_DEPTH,
        canonical_items(x, (MAX_DEPTH - d) as nat),
        canonical_items(y, (MAX_DEPTH - d) as nat),
        0 <= i <= x.len(),
        i <= y.len(),
        enc_items(x.skip(i)) + seq![101u8] == enc_items(y.skip(i)) + seq![101u8],
    ensures
        x.len() == y.len(),
        forall|j: int| i <= j < x.len() ==> same_value(#[trigger] x[j], y[j]),
    decreases x, x.len() - i,
{
    let t = seq![101u8];
    if i < x.len() {
        lemma_enc_items_split(x, i);
        lemma_enc_starts(x[i]);
        lemma_canonical_item(x, (MAX_DEPTH - d) as nat, i);
        let xr = enc_items(x.skip(i + 1)) + t;
        assert(enc_items(x.skip(i)) + t =~= enc(x[i]) + xr);
        if i == y.len() {
            assert(y.skip(i) =~= Seq::<Value>::empty());
            assert((enc_items(y.skip(i)) + t)[0] == 101u8);
            assert((enc(x[i]) + xr)[0] == enc(x[i])[0]);
        } else {
            lemma_enc_items_split(y, i);
            lemma_enc_starts(y[i]);
            lemma_canonical_item(y, (MAX_DEPTH - d) as nat, i);
            let yr = enc_items(y.skip(i + 1)) + t;
            assert(enc_items(y.skip(i)) + t =~= enc(y[i]) + yr);
            lemma_value_round_trip(x[i], xr, d);
            lemma_value_round_trip(y[i], yr, d);
            assert(decreases_to!(x => x[i]));
            lemma_enc_injective(x[i], y[i], d);
            lemma_items_injective(x, y, i + 1, d);
        }
    } else if i < y.len() {
        lemma_enc_items_split(y, i);
        lemma_enc_starts(y[i]);
        assert(x.skip(i) =~= Seq::<Value>::empty());
        let yr = enc_items(y.skip(i + 1)) + t;
        assert(enc_items(y.skip(i)) + t =~= enc(y[i]) + yr);
        assert((enc_items(x.skip(i)) + t)[0] == 101u8);
        assert((enc(y[i]) + yr)[0] == enc(y[i])[0]);
    }
}

#[verifier::rlimit(100)]
#[verifier::spinoff_prover]
proof fn lemma_entries_injective(x: Seq<(Vec<u8>, Value)>, y: Seq<(Vec<u8>, Value)>, i: int, d: nat)
    requires
        d <= MAX_DEPTH,
        canonical_entries(x, (MAX_DEPTH - d) as nat),
        canonical_entries(y, (MAX_DEPTH - d) as nat),
        0 <= i <= x.len(),
        i <= y.len(),
        enc_entries(x.skip(i)) + seq![101u8] == enc_entries(y.skip(i)) + seq![101u8],
    ensures
        x.len() == y.len(),
        forall|j: int| i <= j < x.len() ==> #[trigger] x[j].0@ == y[j].0@ && same_value(x[j].1, y[j].1),
    decreases x, x.len() - i,
{
    let t = seq![101u8];
    if i < x.len() {
        lemma_enc_entries_split(x, i);
        lemma_canonical_entry(x, (MAX_DEPTH - d) as nat, i);
        let xr = enc_entries(x.skip(i + 1)) + t;
        let xv = enc(x[i].1) + xr;
        assert(enc_entries(x.skip(i)) + t =~= bytes_enc(x[i].0@) + xv);
        lemma_bytes_round_trip(x[i].0@, xv);
        if i == y.len() {
            assert(y.skip(i) =~= Seq::<(Vec<u8>, Value)>::empty());
            assert((enc_entries(y.skip(i)) + t)[0] == 101u8);
        } else {
            lemma_enc_entries_split(y, i);
            lemma_canonical_entry(y, (MAX_DEPTH - d) as nat, i);
            let yr = enc_entries(y.skip(i + 1)) + t;
            let yv = enc(y[i].1) + yr;
            assert(enc_entries(y.skip(i)) + t =~= bytes_enc(y[i].0@) + yv);
            lemma_bytes_round_trip(y[i].0@, yv);
            lemma_value_round_trip(x[i].1, xr, d);
            lemma_value_round_trip(y[i].1, yr, d);
            assert(decreases_to!(x => x[i]));
            assert(decreases_to!(x => x[i].1));
            lemma_enc_injective(x[i].1, y[i].1, d);
            lemma_entries_injective(x, y, i + 1, d);
        }
    } else if i < y.len() {
        lemma_enc_entries_split(y, i);
        assert(x.skip(i) =~= Seq::<(Vec<u8>, Value)>::empty());
        let yr = enc_entries(y.skip(i + 1)) + t;
        let yv = enc(y[i].1) + yr;
        assert(enc_entries(y.skip(i)) + t =~= bytes_enc(y[i].0@) + yv);
        lemma_bytes_round_trip(y[i].0@, yv);
        assert((enc_entries(x.skip(i)) + t)[0] == 101u8);
    }
}

/// Decoding the canonical encoding of a canonical value consumes all of it,
/// and the decoded value has that same encoding.
pub proof fn law_round_trip(v: Value)
    requires
        canonical(v, MAX_DEPTH as nat),
    ensures
        parse_value(enc(v), 0) == Ok::<(Seq<u8>, Seq<u8>), DecodeError>((enc(v), Seq::<u8>::empty())),
{
    lemma_value_round_trip(v, Seq::<u8>::empty(), 0);
    assert(enc(v) + Seq::<u8>::empty() =~= enc(v));
}


/// Decoding the encoding of a canonical value succeeds, consumes all of it,
/// and gives back the same value.
pub proof fn law_decode_encode(v: Value, r: Result<(Value, usize), DecodeError>)
    requires
        canonical(v, MAX_DEPTH as nat),
        decoded(enc(v), r),
    ensures
        r matches Ok((w, n)) && same_value(w, v) && n == enc(v).len(),
{
    law_round_trip(v);
    let w = r->Ok_0.0;
    lemma_enc_injective(w, v, 0);
}

/// Re-encoding what was decoded from an encoding reproduces that encoding
/// byte for byte.
pub proof fn law_encode_idempotent(v: Value, r: Result<(Value, usize), DecodeError>)
    requires
        canonical(v, MAX_DEPTH as nat),
        decoded(enc(v), r),
    ensures
        r matches Ok((w, _)) && enc(w) == enc(v),
{
    law_round_trip(v);
}

/// Decoding is a function of the bytes: two decodes of the same bytes agree
/// on success, on the value, on the bytes consumed, and on the error.
pub proof fn law_decode_deterministic(
    bytes: Seq<u8>,
    r1: Result<(Value, usize), DecodeError>,
    r2: Result<(Value, usize), DecodeError>,
)
    requires
        decoded(bytes, r1),
        decoded(bytes, r2),
    ensures
        r1 is Ok <==> r2 is Ok,
        r1 matches Ok((a, n)) ==> r2 matches Ok((b, m)) && n == m && same_value(a, b),
        r1 is Err ==> r1 == r2,
{
    if r1 is Ok {
        lemma_enc_injective(r1->Ok_0.0, r2->Ok_0.0, 0);
    }
}


proof fn lemma_int_prefix(n: i64, k: int)
    requires
        0 < k < int_enc(n as int).len(),
    ensures
        parse_int(int_enc(n as int).take(k), true) == Err::<(int, Seq<u8>), DecodeError>(DecodeError::TruncatedInput),
{
    let mag: nat = if n < 0 { (-(n as int)) as nat } else { n as nat };
    let t = nat_text(mag);
    lemma_nat_text(mag);
    let s = int_enc(n as int).take(k);
    let p: int = if n < 0 && k > 1 { 2 } else { 1 };
    if k > 1 {
        assert(s[1] == int_enc(n as int)[1]);
        if n >= 0 {
            assert(s[1] == t[0]);
        }
    }
    let ds = s.skip(p);
    assert(forall|i: int| 0 <= i < ds.len() ==> ds[i] == t[i + p - (if n < 0 { 2int } else { 1int })]);
    assert forall|i: int| 0 <= i < ds.len() implies is_digit(#[trigger] ds[i]) by {
        assert(ds[i] == t[i + p - (if n < 0 { 2int } else { 1int })]);
    }
    lemma_digits_len_append(ds, Seq::<u8>::empty());
    assert(ds + Seq::<u8>::empty() =~= ds);
}

proof fn lemma_bytes_prefix(b: Seq<u8>, k: int)
    requires
        0 < k < bytes_enc(b).len(),
    ensures
        parse_bytes(bytes_enc(b).take(k)) == Err::<(Seq<u8>, Seq<u8>), DecodeError>(DecodeError::TruncatedInput),
        is_digit(bytes_enc(b).take(k)[0]),
{
    let t = nat_text(b.len());
    let m = t.len() as int;
    lemma_nat_text(b.len());
    let s = bytes_enc(b).take(k);
    assert(s[0] == t[0]);
    if k <= m {
        assert(s =~= t.take(k));
        assert forall|i: int| 0 <= i < s.len() implies is_digit(#[trigger] s[i]) by {
            assert(s[i] == t[i]);
        }
        lemma_digits_len_append(s, Seq::<u8>::empty());
        assert(s + Seq::<u8>::empty() =~= s);
    } else {
        let r = seq![58u8] + b.take(k - m - 1);
        assert(s =~= t + r);
        lemma_read_nat(b.len(), r);
    }
}

/// A non-empty proper prefix of the encoding of a canonical value is
/// rejected as truncated.
proof fn lemma_value_prefix(v: Value, k: int, d: nat)
    requires
        d <= MAX_DEPTH,
        d > 0 || !(v is Integer),
        canonical(v, (MAX_DEPTH - d) as nat),
        0 < k < enc(v).len(),
    ensures
        parse_value(enc(v).take(k), d) == Err::<(Seq<u8>, Seq<u8>), DecodeError>(DecodeError::TruncatedInput),
    decreases v, 0nat,
{
    let s = enc(v).take(k);
    match v {
        Value::Integer(n) => {
            lemma_int_prefix(n, k);
        },
        Value::ByteString(b) => {
            lemma_bytes_prefix(b@, k);
        },
        Value::List(items) => {
            assert(decreases_to!(v => v->List_0));
            assert(decreases_to!(v => items@));
            let x = enc_items(items@.skip(0)) + seq![101u8];
            assert(items@.skip(0) =~= items@);
            assert(s.drop_first() =~= x.take(k - 1));
            assert(items@.take(0) =~= Seq::<Value>::empty());
            lemma_items_prefix(items@, 0, k - 1, d + 1);
        },
        Value::Dictionary(e) => {
            assert(decreases_to!(v => v->Dictionary_0));
            assert(decreases_to!(v => e@));
            lemma_dict_enc(e);
            let x = enc_entries(e@.skip(0)) + seq![101u8];
            assert(e@.skip(0) =~= e@);
            assert(s.drop_first() =~= x.take(k - 1));
            assert(entries_view(e@.take(0)) =~= Seq::<(Seq<u8>, Seq<u8>)>::empty());
            lemma_entries_prefix(e@, 0, k - 1, d + 1);
        },
    }
}

proof fn lemma_items_prefix(s: Seq<Value>, i: int, k: int, d: nat)
    requires
        0 <= i <= s.len(),
        0 < d <= MAX_DEPTH,
        canonical_items(s, (MAX_DEPTH - d) as nat),
        0 <= k < (enc_items(s.skip(i)) + seq![101u8]).len(),
    ensures
        parse_list((enc_items(s.skip(i)) + seq![101u8]).take(k), d, enc_items(s.take(i)))
            == Err::<(Seq<u8>, Seq<u8>), DecodeError>(DecodeError::TruncatedInput),
    decreases s, s.len() - i,
{
    let x = enc_items(s.skip(i)) + seq![101u8];
    let p = x.take(k);
    if k > 0 {
        lemma_enc_items_split(s, i);
        let ev = enc(s[i]);
        let y = enc_items(s.skip(i + 1)) + seq![101u8];
        assert(x =~= ev + y);
        lemma_enc_starts(s[i]);
        lemma_canonical_item(s, (MAX_DEPTH - d) as nat, i);
        assert(decreases_to!(s => s[i]));
        assert(p[0] == ev[0]);
        if k < ev.len() {
            assert(p =~= ev.take(k));
            lemma_value_prefix(s[i], k, d);
        } else {
            let yk = y.take(k - ev.len());
            assert(p =~= ev + yk);
            lemma_value_round_trip(s[i], yk, d);
            lemma_items_prefix(s, i + 1, k - ev.len(), d);
        }
    }
}

#[verifier::rlimit(50)]
#[verifier::spinoff_prover]
proof fn lemma_entries_prefix(e: Seq<(Vec<u8>, Value)>, i: int, k: int, d: nat)
    requires
        0 <= i <= e.len(),
        0 < d <= MAX_DEPTH,
        keys_ascending(e),
        canonical_entries(e, (MAX_DEPTH - d) as nat),
        0 <= k < (enc_entries(e.skip(i)) + seq![101u8]).len(),
    ensures
        parse_dict((enc_entries(e.skip(i)) + seq![101u8]).take(k), d, entries_view(e.take(i)))
            == Err::<(Seq<(Seq<u8>, Seq<u8>)>, Seq<u8>), DecodeError>(DecodeError::TruncatedInput),
    decreases e, e.len() - i,
{
    let x = enc_entries(e.skip(i)) + seq![101u8];
    let p = x.take(k);
    if k > 0 {
        lemma_enc_entries_split(e, i);
        let key = e[i].0@;
        let val = e[i].1;
        let bk = bytes_enc(key);
        let ev = enc(val);
        let y = enc_entries(e.skip(i + 1)) + seq![101u8];
        assert(x =~= bk + ev + y);
        lemma_enc_starts(val);
        lemma_canonical_entry(e, (MAX_DEPTH - d) as nat, i);
        assert(decreases_to!(e => e[i]));
        assert(decreases_to!(e => e[i].1));
        if k < bk.len() {
            assert(p =~= bk.take(k));
            lemma_bytes_prefix(key, k);
        } else {
            let r1 = (ev + y).take(k - bk.len());
            assert(p =~= bk + r1);
            lemma_bytes_round_trip(key, r1);
            if k == bk.len() {
                assert(r1.len() == 0);
            } else if k < bk.len() + ev.len() {
                assert(r1 =~= ev.take(k - bk.len()));
                lemma_value_prefix(val, k - bk.len(), d);
            } else {
                let yk = y.take(k - bk.len() - ev.len());
                assert(r1 =~= ev + yk);
                lemma_value_round_trip(val, yk, d);
                let acc = entries_view(e.take(i));
                assert forall|j: int| 0 <= j < acc.len() implies seq_lt(#[trigger] acc[j].0, key) by {
                    assert(acc[j].0 == e[j].0@);
                }
                lemma_lower_bound_end(acc, key);
                assert(dict_insert(acc, key, ev) =~= entries_view(e.take(i + 1)));
                lemma_entries_prefix(e, i + 1, k - bk.len() - ev.len(), d);
            }
        }
    }
}

/// Every non-empty proper prefix of the encoding of a canonical list,
/// dictionary or byte string fails to decode with `TruncatedInput`: no
/// partial value is ever produced.
pub proof fn law_truncation_rejected(v: Value, k: int, r: Result<(Value, usize), DecodeError>)
    requires
        canonical(v, MAX_DEPTH as nat),
        !(v is Integer),
        0 < k < enc(v).len(),
        decoded(enc(v).take(k), r),
    ensures
        r == Err::<(Value, usize), DecodeError>(DecodeError::TruncatedInput),
{
    lemma_value_prefix(v, k, 0);
}


proof fn lemma_within_item(s: Seq<Value>, levels: nat, i: int)
    requires
        within_depth_items(s, levels),
        0 <= i < s.len(),
    ensures
        within_depth(s[i], levels),
    decreases s.len(),
{
    if i + 1 < s.len() {
        lemma_within_item(s.drop_last(), levels, i);
    }
}

proof fn lemma_within_entry(s: Seq<(Vec<u8>, Value)>, levels: nat, i: int)
    requires
        within_depth_entries(s, levels),
        0 <= i < s.len(),
    ensures
        within_depth(s[i].1, levels),
    decreases s.len(),
{
    if i + 1 < s.len() {
        lemma_within_entry(s.drop_last(), levels, i);
    }
}

/// The canonical order of entries ascends, and each of its parts comes from
/// an entry held.
proof fn lemma_sorted_entries_parts(e: Seq<(Vec<u8>, Value)>)
    ensures
        ascending(sorted_entries(e)),
        forall|j: int| 0 <= j < sorted_entries(e).len() ==> exists|i: int| 0 <= i < e.len()
            && #[trigger] sorted_entries(e)[j] == (e[i].0@, enc(e[i].1)),
    decreases e.len(),
{
    if e.len() > 0 {
        let p = e.drop_last();
        lemma_sorted_entries_parts(p);
        let d = sorted_entries(p);
        let k = e.last().0@;
        let c = enc(e.last().1);
        lemma_dict_insert_ascending(d, k, c);
        let r = sorted_entries(e);
        assert(r == dict_insert(d, k, c));
        lemma_lower_bound(d, k);
        let b = lower_bound(d, k) as int;
        assert forall|j: int| 0 <= j < r.len() implies exists|i: int| 0 <= i < e.len()
            && #[trigger] r[j] == (e[i].0@, enc(e[i].1)) by {
            if r[j] == (k, c) {
                assert(r[j] == (e[e.len() - 1].0@, enc(e[e.len() - 1].1)));
            } else {
                let jj = if b < d.len() && d[b].0 == k { j } else if j < b { j } else { j - 1 };
                if b < d.len() && d[b].0 == k {
                    assert(r == d.update(b, (k, c)));
                    assert(j != b);
                } else {
                    assert(r == d.insert(b, (k, c)));
                    assert(j != b);
                }
                assert(0 <= jj < d.len());
                assert(r[j] == d[jj]);
                let i = choose|i: int| 0 <= i < p.len() && #[trigger] d[jj] == (p[i].0@, enc(p[i].1));
                assert(p[i] == e[i]);
                assert(r[j] == (e[i].0@, enc(e[i].1)));
            }
        }
    }
}

proof fn lemma_flat_split(s: Seq<(Seq<u8>, Seq<u8>)>, i: int)
    requires
        0 <= i < s.len(),
    ensures
        flat(s.skip(i)) == bytes_enc(s[i].0) + s[i].1 + flat(s.skip(i + 1)),
    decreases s.len(),
{
    if i + 1 == s.len() {
        assert(s.skip(i + 1) =~= Seq::<(Seq<u8>, Seq<u8>)>::empty());
        assert(s.skip(i).drop_last() =~= Seq::<(Seq<u8>, Seq<u8>)>::empty());
        assert(s.skip(i).last() == s[i]);
        assert(flat(s.skip(i).drop_last()) == Seq::<u8>::empty());
        assert(flat(s.skip(i)) =~= bytes_enc(s[i].0) + s[i].1 + flat(s.skip(i + 1)));
    } else {
        lemma_flat_split(s.drop_last(), i);
        assert(s.drop_last().skip(i) =~= s.skip(i).drop_last());
        assert(s.drop_last().skip(i + 1) =~= s.skip(i + 1).drop_last());
        assert(flat(s.skip(i)) =~= flat(s.skip(i).drop_last()) + bytes_enc(s.last().0) + s.last().1);
        assert(flat(s.skip(i + 1)) =~= flat(s.skip(i + 1).drop_last()) + bytes_enc(s.last().0) + s.last().1);
    }
}

/// Whatever follows it, `c` parses back as itself at depth `d`.
pub open spec fn reads_back(c: Seq<u8>, d: nat) -> bool {
    c.len() > 0 && c[0] != 101u8
        && forall|r: Seq<u8>| #[trigger] parse_value(c + r, d) == Ok::<(Seq<u8>, Seq<u8>), DecodeError>((c, r))
}

proof fn lemma_parts_round_trip(s: Seq<(Seq<u8>, Seq<u8>)>, i: int, rest: Seq<u8>, d: nat)
    requires
        0 <= i <= s.len(),
        ascending(s),
        forall|j: int| 0 <= j < s.len() ==> reads_back(#[trigger] s[j].1, d),
    ensures
        parse_dict(flat(s.skip(i)) + seq![101u8] + rest, d, s.take(i))
            == Ok::<(Seq<(Seq<u8>, Seq<u8>)>, Seq<u8>), DecodeError>((s, rest)),
    decreases s.len() - i,
{
    let x = flat(s.skip(i)) + seq![101u8] + rest;
    if i == s.len() {
        assert(s.skip(i) =~= Seq::<(Seq<u8>, Seq<u8>)>::empty());
        assert(s.take(i) =~= s);
        assert(x =~= seq![101u8] + rest);
        assert(x.drop_first() =~= rest);
    } else {
        lemma_flat_split(s, i);
        let k = s[i].0;
        let c = s[i].1;
        assert(reads_back(c, d));
        let y = flat(s.skip(i + 1)) + seq![101u8] + rest;
        let r1 = c + y;
        assert(x =~= bytes_enc(k) + r1);
        lemma_bytes_round_trip(k, r1);
        assert(parse_value(c + y, d) == Ok::<(Seq<u8>, Seq<u8>), DecodeError>((c, y)));
        let acc = s.take(i);
        assert forall|j: int| 0 <= j < acc.len() implies seq_lt(#[trigger] acc[j].0, k) by {
            assert(acc[j] == s[j]);
        }
        lemma_lower_bound_end(acc, k);
        assert(dict_insert(acc, k, c) =~= s.take(i + 1));
        lemma_parts_round_trip(s, i + 1, rest, d);
    }
}

/// The encoding of any value within the depth bound, followed by anything,
/// parses back to that encoding and leaves what follows.
proof fn lemma_any_round_trip(v: Value, rest: Seq<u8>, d: nat)
    requires
        d <= MAX_DEPTH,
        within_depth(v, (MAX_DEPTH - d) as nat),
    ensures
        parse_value(enc(v) + rest, d) == Ok::<(Seq<u8>, Seq<u8>), DecodeError>((enc(v), rest)),
    decreases v, 0nat,
{
    let s = enc(v) + rest;
    match v {
        Value::Integer(n) => {
            lemma_int_round_trip(n, rest, d > 0);
        },
        Value::ByteString(b) => {
            lemma_bytes_round_trip(b@, rest);
            lemma_nat_text(b@.len());
        },
        Value::List(items) => {
            assert(decreases_to!(v => v->List_0));
            assert(decreases_to!(v => items@));
            assert(s.drop_first() =~= enc_items(items@.skip(0)) + seq![101u8] + rest) by {
                assert(items@.skip(0) =~= items@);
            }
            assert(items@.take(0) =~= Seq::<Value>::empty());
            lemma_any_items_round_trip(items@, 0, rest, d + 1);
        },
        Value::Dictionary(e) => {
            assert(decreases_to!(v => v->Dictionary_0));
            assert(decreases_to!(v => e@));
            let sp = sorted_entries(e@);
            lemma_sorted_entries_parts(e@);
            assert forall|j: int| 0 <= j < sp.len() implies reads_back(#[trigger] sp[j].1, d + 1) by {
                let i = choose|i: int| 0 <= i < e@.len() && #[trigger] sp[j] == (e@[i].0@, enc(e@[i].1));
                lemma_within_entry(e@, (MAX_DEPTH - d - 1) as nat, i);
                assert(decreases_to!(e@ => e@[i]));
                assert(decreases_to!(e@ => e@[i].1));
                lemma_enc_starts(e@[i].1);
                assert forall|r: Seq<u8>| #[trigger] parse_value(sp[j].1 + r, (d + 1) as nat)
                    == Ok::<(Seq<u8>, Seq<u8>), DecodeError>((sp[j].1, r)) by {
                    lemma_any_round_trip(e@[i].1, r, d + 1);
                }
            }
            assert(s.drop_first() =~= flat(sp.skip(0)) + seq![101u8] + rest) by {
                assert(sp.skip(0) =~= sp);
            }
            assert(sp.take(0) =~= Seq::<(Seq<u8>, Seq<u8>)>::empty());
            lemma_parts_round_trip(sp, 0, rest, d + 1);
        },
    }
}

proof fn lemma_any_items_round_trip(s: Seq<Value>, i: int, rest: Seq<u8>, d: nat)
    requires
        0 <= i <= s.len(),
        d <= MAX_DEPTH,
        within_depth_items(s, (MAX_DEPTH - d) as nat),
    ensures
        parse_list(enc_items(s.skip(i)) + seq![101u8] + rest, d, enc_items(s.take(i)))
            == Ok::<(Seq<u8>, Seq<u8>), DecodeError>((enc_items(s), rest)),
    decreases s, s.len() - i,
{
    let x = enc_items(s.skip(i)) + seq![101u8] + rest;
    if i == s.len() {
        assert(s.skip(i) =~= Seq::<Value>::empty());
        assert(s.take(i) =~= s);
        assert(x =~= seq![101u8] + rest);
        assert(x.drop_first() =~= rest);
    } else {
        lemma_enc_items_split(s, i);
        let y = enc_items(s.skip(i + 1)) + seq![101u8] + rest;
        assert(x =~= enc(s[i]) + y);
        lemma_enc_starts(s[i]);
        lemma_within_item(s, (MAX_DEPTH - d) as nat, i);
        assert(decreases_to!(s => s[i]));
        lemma_any_round_trip(s[i], y, d);
        lemma_any_items_round_trip(s, i + 1, rest, d);
    }
}

/// Decoding the encoding of any value within the depth bound, its
/// dictionaries held in any key order, succeeds and consumes all of it, and
/// re-encoding what was decoded reproduces that encoding byte for byte.
pub proof fn law_reencode_any(v: Value, r: Result<(Value, usize), DecodeError>)
    requires
        within_depth(v, MAX_DEPTH as nat),
        decoded(enc(v), r),
    ensures
        r matches Ok((w, n)) && enc(w) == enc(v) && n == enc(v).len(),
{
    lemma_any_round_trip(v, Seq::<u8>::empty(), 0);
    assert(enc(v) + Seq::<u8>::empty() =~= enc(v));
}

} // verus!
