use vstd::prelude::*;
use crate::value::{Value, enc, enc_items, sorted_entries, nat_text, digit_char};
use crate::grammar::{seq_lt, lower_bound, dict_insert, flat, ascending, lemma_dict_insert_ascending, lemma_seq_lt_transitive, lemma_lower_bound_end};
use crate::decode::{key_less, bytes_equal};

verus! {

broadcast use {vstd::std_specs::vec::group_vec_axioms, vstd::seq::group_seq_axioms};

/// Appends the minimal decimal text of `n`.
fn push_nat(out: &mut Vec<u8>, n: u64)
    ensures
        final(out)@ == old(out)@ + nat_text(n as nat),
    decreases n,
{
    if n >= 10 {
        push_nat(out, n / 10);
    }
    out.push((48 + n % 10) as u8);
    proof {
        assert(old(out)@ + nat_text(n as nat) =~= final(out)@) by {
            if n >= 10 {
                assert(nat_text(n as nat) == nat_text((n / 10) as nat).push(digit_char((n % 10) as nat)));
            }
        }
    }
}

/// Appends the bytes of `b`.
fn push_bytes(out: &mut Vec<u8>, b: &Vec<u8>)
    ensures
        final(out)@ == old(out)@ + b@,
{
    let mut i: usize = 0;
    while i < b.len()
        invariant
            0 <= i <= b.len(),
            out@ == old(out)@ + b@.take(i as int),
        decreases b.len() - i,
    {
        out.push(b[i]);
        i = i + 1;
        assert(out@ =~= old(out)@ + b@.take(i as int));
    }
    assert(b@.take(i as int) =~= b@);
}

fn copy_bytes(b: &Vec<u8>) -> (r: Vec<u8>)
    ensures
        r@ == b@,
{
    let mut r: Vec<u8> = Vec::new();
    push_bytes(&mut r, b);
    assert(r@ =~= b@);
    r
}

/// Each key's bytes with the encoding of its value.
pub open spec fn parts_view(p: Seq<(Vec<u8>, Vec<u8>)>) -> Seq<(Seq<u8>, Seq<u8>)> {
    Seq::new(p.len(), |i: int| (p[i].0@, p[i].1@))
}

/// Puts `(k, c)` into parts held in ascending key order, replacing a part
/// with key `k`.
fn insert_part(parts: &mut Vec<(Vec<u8>, Vec<u8>)>, k: Vec<u8>, c: Vec<u8>)
    requires
        ascending(parts_view(old(parts)@)),
    ensures
        parts_view(final(parts)@) == dict_insert(parts_view(old(parts)@), k@, c@),
        ascending(parts_view(final(parts)@)),
{
    let ghost d = parts_view(parts@);
    let ghost kk = k@;
    let ghost cc = c@;
    let n = parts.len();
    if n == 0 || key_less(&parts[n - 1].0, &k) {
        proof {
            assert forall|j: int| 0 <= j < d.len() implies seq_lt(#[trigger] d[j].0, kk) by {
                if j < n - 1 {
                    lemma_seq_lt_transitive(d[j].0, d[n - 1].0, kk);
                }
            }
            lemma_lower_bound_end(d, kk);
            lemma_dict_insert_ascending(d, kk, cc);
        }
        parts.push((k, c));
        assert(parts_view(parts@) =~= dict_insert(d, kk, cc));
        return;
    }
    let mut i: usize = 0;
    assert(d.skip(0) =~= d);
    while i < parts.len() && key_less(&parts[i].0, &k)
        invariant
            0 <= i <= parts.len(),
            d == parts_view(parts@),
            parts@ == old(parts)@,
            k@ == kk,
            lower_bound(d, kk) == i + lower_bound(d.skip(i as int), kk),
        decreases parts.len() - i,
    {
        assert(d.skip(i as int).drop_first() =~= d.skip(i + 1));
        i = i + 1;
    }
    assert(lower_bound(d, kk) == i);
    proof {
        lemma_dict_insert_ascending(d, kk, cc);
    }
    if i < parts.len() && bytes_equal(&parts[i].0, &k) {
        parts.set(i, (k, c));
    } else {
        parts.insert(i, (k, c));
    }
    assert(parts_view(parts@) =~= dict_insert(d, kk, cc));
}

/// Appends the encoding of `v`.
fn encode_into(v: &Value, out: &mut Vec<u8>)
    ensures
        final(out)@ == old(out)@ + enc(*v),
    decreases v,
{
    match v {
        Value::Integer(n) => {
            out.push(105u8);
            if *n < 0 {
                out.push(45u8);
                let m: u64 = (0 - (*n as i128)) as u64;
                push_nat(out, m);
            } else {
                push_nat(out, *n as u64);
            }
            out.push(101u8);
            assert(final(out)@ =~= old(out)@ + enc(*v));
        },
        Value::ByteString(b) => {
            push_nat(out, b.len() as u64);
            out.push(58u8);
            let mut i: usize = 0;
            while i < b.len()
                invariant
                    0 <= i <= b.len(),
                    out@ == old(out)@ + nat_text(b.len() as nat) + seq![58u8] + b@.take(i as int),
                decreases b.len() - i,
            {
                out.push(b[i]);
                i = i + 1;
                assert(out@ =~= old(out)@ + nat_text(b.len() as nat) + seq![58u8] + b@.take(i as int));
            }
            assert(b@.take(i as int) =~= b@);
            assert(final(out)@ =~= old(out)@ + enc(*v));
        },
        Value::List(items) => {
            out.push(108u8);
            let mut i: usize = 0;
            while i < items.len()
                invariant
                    0 <= i <= items.len(),
                    out@ == old(out)@ + seq![108u8] + enc_items(items@.take(i as int)),
                    *v == Value::List(*items),
                decreases items.len() - i,
            {
                proof {
                    assert(decreases_to!(*items => items@[i as int]));
                    assert(decreases_to!(*v => (*v)->List_0));
                    assert(decreases_to!(*v => items@[i as int]));
                }
                encode_into(&items[i], out);
                proof {
                    let t = items@.take(i + 1);
                    assert(t.drop_last() =~= items@.take(i as int));
                    assert(t.last() == items@[i as int]);
                }
                i = i + 1;
                assert(out@ =~= old(out)@ + seq![108u8] + enc_items(items@.take(i as int)));
            }
            out.push(101u8);
            assert(items@.take(i as int) =~= items@);
            assert(final(out)@ =~= old(out)@ + enc(*v));
        },
        Value::Dictionary(entries) => {
            let mut parts: Vec<(Vec<u8>, Vec<u8>)> = Vec::new();
            let mut i: usize = 0;
            while i < entries.len()
                invariant
                    0 <= i <= entries.len(),
                    *v == Value::Dictionary(*entries),
                    parts_view(parts@) == sorted_entries(entries@.take(i as int)),
                    ascending(parts_view(parts@)),
                decreases entries.len() - i,
            {
                proof {
                    assert(decreases_to!(*v => (*v)->Dictionary_0));
                    assert(decreases_to!(*entries => entries@[i as int]));
                    assert(decreases_to!(*entries => entries@[i as int].1));
                    assert(decreases_to!(*v => entries@[i as int].1));
                }
                let mut ev: Vec<u8> = Vec::new();
                encode_into(&entries[i].1, &mut ev);
                let key = copy_bytes(&entries[i].0);
                proof {
                    let t = entries@.take(i + 1);
                    assert(t.drop_last() =~= entries@.take(i as int));
                    assert(t.last() == entries@[i as int]);
                    assert(ev@ =~= enc(entries@[i as int].1));
                }
                insert_part(&mut parts, key, ev);
                i = i + 1;
            }
            assert(entries@.take(i as int) =~= entries@);
            out.push(100u8);
            let ghost start = out@;
            let mut j: usize = 0;
            while j < parts.len()
                invariant
                    0 <= j <= parts.len(),
                    out@ == start + flat(parts_view(parts@).take(j as int)),
                decreases parts.len() - j,
            {
                push_nat(out, parts[j].0.len() as u64);
                out.push(58u8);
                push_bytes(out, &parts[j].0);
                push_bytes(out, &parts[j].1);
                proof {
                    let t = parts_view(parts@).take(j + 1);
                    assert(t.drop_last() =~= parts_view(parts@).take(j as int));
                }
                j = j + 1;
                assert(out@ =~= start + flat(parts_view(parts@).take(j as int)));
            }
            out.push(101u8);
            assert(parts_view(parts@).take(j as int) =~= parts_view(parts@));
            assert(final(out)@ =~= old(out)@ + enc(*v));
        },
    }
}

/// The canonical encoding of `v`: dictionary entries in ascending key order,
/// whatever order they are held in (a later equal key replaces an earlier one).
pub fn encode(v: &Value) -> (r: Vec<u8>)
    ensures
        r@ == enc(*v),
{
    let mut out: Vec<u8> = Vec::new();
    encode_into(v, &mut out);
    assert(out@ =~= enc(*v));
    out
}

} // verus!
