use vstd::prelude::*;
use crate::grammar::{seq_lt, dict_insert, flat};

verus! {

broadcast use {vstd::std_specs::vec::group_vec_axioms, vstd::seq::group_seq_axioms};

/// A decoded bencode value.
///
/// A dictionary holds its entries as `(key, value)` pairs; a well-formed
/// dictionary keeps its keys in strictly ascending byte-lexicographic order,
/// which makes the keys unique and the encoding canonical.
#[derive(Debug, PartialEq, Eq)]
pub enum Value {
    Integer(i64),
    ByteString(Vec<u8>),
    List(Vec<Value>),
    Dictionary(Vec<(Vec<u8>, Value)>),
}

/// The ASCII digit for `d < 10`.
pub open spec fn digit_char(d: nat) -> u8 {
    (d + 48) as u8
}

/// Minimal decimal text of a natural number.
pub open spec fn nat_text(n: nat) -> Seq<u8>
    decreases n,
{
    if n < 10 {
        seq![digit_char(n)]
    } else {
        nat_text(n / 10).push(digit_char(n % 10))
    }
}

/// Minimal decimal text of an integer: a `-` only before a non-zero magnitude.
pub open spec fn int_text(n: int) -> Seq<u8> {
    if n < 0 {
        seq![45u8] + nat_text((-n) as nat)
    } else {
        nat_text(n as nat)
    }
}

/// `i<decimal>e`
pub open spec fn int_enc(n: int) -> Seq<u8> {
    seq![105u8] + int_text(n) + seq![101u8]
}

/// `<length>:<bytes>`
pub open spec fn bytes_enc(b: Seq<u8>) -> Seq<u8> {
    nat_text(b.len()) + seq![58u8] + b
}

/// `l<items>e`
pub open spec fn list_enc(items: Seq<u8>) -> Seq<u8> {
    seq![108u8] + items + seq![101u8]
}

/// `d<entries>e`
pub open spec fn dict_enc(entries: Seq<u8>) -> Seq<u8> {
    seq![100u8] + entries + seq![101u8]
}

/// The canonical encoding of a value: dictionary entries in ascending key
/// order, whatever order they are held in.
pub open spec fn enc(v: Value) -> Seq<u8>
    decreases v,
{
    match v {
        Value::Integer(n) => int_enc(n as int),
        Value::ByteString(b) => bytes_enc(b@),
        Value::List(items) => list_enc(enc_items(items@)),
        Value::Dictionary(entries) => dict_enc(flat(sorted_entries(entries@))),
    }
}

/// Dictionary entries as their canonical encoding orders them: each key with
/// the encoding of its value, inserted in turn so that keys ascend and a later
/// equal key replaces an earlier one.
pub open spec fn sorted_entries(s: Seq<(Vec<u8>, Value)>) -> Seq<(Seq<u8>, Seq<u8>)>
    decreases s,
{
    if s.len() == 0 {
        seq![]
    } else {
        dict_insert(sorted_entries(s.drop_last()), s.last().0@, enc(s.last().1))
    }
}

/// The concatenated encodings of a sequence of values.
pub open spec fn enc_items(s: Seq<Value>) -> Seq<u8>
    decreases s,
{
    if s.len() == 0 {
        seq![]
    } else {
        enc_items(s.drop_last()) + enc(s.last())
    }
}

/// The concatenated encodings of dictionary entries in the order they are
/// held, each key as a byte string.
pub open spec fn enc_entries(s: Seq<(Vec<u8>, Value)>) -> Seq<u8>
    decreases s,
{
    if s.len() == 0 {
        seq![]
    } else {
        enc_entries(s.drop_last()) + bytes_enc(s.last().0@) + enc(s.last().1)
    }
}

/// `v` keeps every dictionary's keys in strictly ascending order, and its
/// lists and dictionaries nest at most `levels` deep.
pub open spec fn canonical(v: Value, levels: nat) -> bool
    decreases v,
{
    match v {
        Value::Integer(_) => true,
        Value::ByteString(_) => true,
        Value::List(items) => levels > 0 && canonical_items(items@, (levels - 1) as nat),
        Value::Dictionary(e) => levels > 0 && keys_ascending(e@) && canonical_entries(e@, (levels - 1) as nat),
    }
}

pub open spec fn canonical_items(s: Seq<Value>, levels: nat) -> bool
    decreases s,
{
    if s.len() == 0 {
        true
    } else {
        canonical_items(s.drop_last(), levels) && canonical(s.last(), levels)
    }
}

pub open spec fn canonical_entries(s: Seq<(Vec<u8>, Value)>, levels: nat) -> bool
    decreases s,
{
    if s.len() == 0 {
        true
    } else {
        canonical_entries(s.drop_last(), levels) && canonical(s.last().1, levels)
    }
}

pub open spec fn keys_ascending(e: Seq<(Vec<u8>, Value)>) -> bool {
    forall|i: int, j: int| 0 <= i < j < e.len() ==> seq_lt(#[trigger] e[i].0@, #[trigger] e[j].0@)
}


/// `a` and `b` are the same value: equal integers, equal bytes, and lists
/// and dictionaries whose entries are the same, key for key, in order.
pub open spec fn same_value(a: Value, b: Value) -> bool
    decreases a,
{
    match a {
        Value::Integer(x) => b is Integer && b->Integer_0 == x,
        Value::ByteString(x) => b is ByteString && b->ByteString_0@ == x@,
        Value::List(x) => b is List && same_items(x@, b->List_0@),
        Value::Dictionary(x) => b is Dictionary && same_entries(x@, b->Dictionary_0@),
    }
}

pub open spec fn same_items(x: Seq<Value>, y: Seq<Value>) -> bool
    decreases x,
{
    x.len() == y.len() && (x.len() == 0 || (same_items(x.drop_last(), y.drop_last())
        && same_value(x.last(), y.last())))
}

pub open spec fn same_entries(x: Seq<(Vec<u8>, Value)>, y: Seq<(Vec<u8>, Value)>) -> bool
    decreases x,
{
    x.len() == y.len() && (x.len() == 0 || (same_entries(x.drop_last(), y.drop_last())
        && x.last().0@ == y.last().0@ && same_value(x.last().1, y.last().1)))
}

/// Lists and dictionaries in `v` nest at most `levels` deep; dictionary keys
/// may be held in any order.
pub open spec fn within_depth(v: Value, levels: nat) -> bool
    decreases v,
{
    match v {
        Value::Integer(_) => true,
        Value::ByteString(_) => true,
        Value::List(items) => levels > 0 && within_depth_items(items@, (levels - 1) as nat),
        Value::Dictionary(e) => levels > 0 && within_depth_entries(e@, (levels - 1) as nat),
    }
}

pub open spec fn within_depth_items(s: Seq<Value>, levels: nat) -> bool
    decreases s,
{
    if s.len() == 0 {
        true
    } else {
        within_depth_items(s.drop_last(), levels) && within_depth(s.last(), levels)
    }
}

pub open spec fn within_depth_entries(s: Seq<(Vec<u8>, Value)>, levels: nat) -> bool
    decreases s,
{
    if s.len() == 0 {
        true
    } else {
        within_depth_entries(s.drop_last(), levels) && within_depth(s.last().1, levels)
    }
}
} // verus!
