//! The document model: tagged values, documents, and their compact binary
//! form.
use crate::bytes::{
    enc_str, le32, le64, lemma_le32_injective, lemma_le64_injective, lemma_str_prefix_free,
    lemma_u32_at_le32, lemma_u64_at_le64, push_bytes, push_str, push_u32, push_u64, read_str,
    read_u32, read_u64, str_fits, u32_at, u64_at,
};
use crate::error::AuraError;
use crate::text::{concat, decimal, i64_text, signed_decimal, u64_text};
use vstd::prelude::*;

verus! {

/// A value stored under a column. Floats are held as their IEEE-754 bits.
#[derive(Debug, PartialEq)]
pub enum DataValue {
    Null,
    Boolean(bool),
    Integer(i64),
    Float(u64),
    Text(String),
    Binary(Vec<u8>),
    /// An opaque ciphertext, kept as it is.
    Encrypted(Vec<u8>),
    Array(Vec<DataValue>),
    /// Named values; each name at most once.
    Object(Vec<(String, DataValue)>),
}

/// Each field name occurs once.
pub open spec fn names_unique(data: Seq<(String, DataValue)>) -> bool {
    forall|a: int, b: int| 0 <= a < b < data.len() ==> #[trigger] data[a].0@ != #[trigger] data[b].0@
}

/// A row or document: its primary key, a version counter, and its columns.
#[derive(Debug, PartialEq)]
pub struct AuraDocument {
    pub id: String,
    pub version: u64,
    pub data: Vec<(String, DataValue)>,
}

/// The bytes of a value: a tag byte (0 null, 1 boolean, 2 integer, 3 float,
/// 4 text, 5 binary, 6 encrypted, 7 array, 8 object), then its content.
pub open spec fn enc_value(v: DataValue) -> Seq<u8>
    decreases v,
{
    match v {
        DataValue::Null => seq![0u8],
        DataValue::Boolean(b) => seq![1u8, if b { 1u8 } else { 0u8 }],
        DataValue::Integer(i) => seq![2u8] + le64(i as u64),
        DataValue::Float(bits) => seq![3u8] + le64(bits),
        DataValue::Text(s) => seq![4u8] + enc_str(s@),
        DataValue::Binary(b) => seq![5u8] + le32(b@.len() as u32) + b@,
        DataValue::Encrypted(b) => seq![6u8] + le32(b@.len() as u32) + b@,
        DataValue::Array(items) => seq![7u8] + le32(items@.len() as u32) + enc_values(items@),
        DataValue::Object(fields) => seq![8u8] + le32(fields@.len() as u32) + enc_fields(fields@),
    }
}

/// The values of `s`, one after another.
pub open spec fn enc_values(s: Seq<DataValue>) -> Seq<u8>
    decreases s,
{
    if s.len() == 0 {
        Seq::empty()
    } else {
        enc_value(s[0]) + enc_values(s.subrange(1, s.len() as int))
    }
}

/// The fields of `s`, each its name then its value.
pub open spec fn enc_fields(s: Seq<(String, DataValue)>) -> Seq<u8>
    decreases s,
{
    if s.len() == 0 {
        Seq::empty()
    } else {
        enc_str(s[0].0@) + enc_value(s[0].1) + enc_fields(s.subrange(1, s.len() as int))
    }
}

/// The bytes of a document: its id, its version, the field count, the fields.
pub open spec fn enc_doc(d: AuraDocument) -> Seq<u8> {
    enc_str(d.id@) + le64(d.version) + le32(d.data@.len() as u32) + enc_fields(d.data@)
}

} // verus!

verus! {

/// Every length in the value fits its 32-bit prefix.
pub open spec fn value_fits(v: DataValue) -> bool
    decreases v,
{
    match v {
        DataValue::Text(s) => str_fits(s@),
        DataValue::Binary(b) => b@.len() <= u32::MAX,
        DataValue::Encrypted(b) => b@.len() <= u32::MAX,
        DataValue::Array(items) => items@.len() <= u32::MAX && forall|i: int|
            0 <= i < items@.len() ==> value_fits(#[trigger] items@[i]),
        DataValue::Object(fields) => fields@.len() <= u32::MAX && forall|i: int|
            0 <= i < fields@.len() ==> field_fits(#[trigger] fields@[i]),
        _ => true,
    }
}

/// The name and the value of a field fit their length prefixes.
pub open spec fn field_fits(f: (String, DataValue)) -> bool
    decreases f,
{
    str_fits(f.0@) && value_fits(f.1)
}

/// Every length in the document fits its 32-bit prefix.
pub open spec fn doc_fits(d: AuraDocument) -> bool {
    &&& str_fits(d.id@)
    &&& d.data@.len() <= u32::MAX
    &&& forall|i: int| 0 <= i < d.data@.len() ==> field_fits(#[trigger] d.data@[i])
}

proof fn lemma_enc_values_step(s: Seq<DataValue>, n: nat)
    requires
        n < s.len(),
    ensures
        enc_values(s.subrange(0, n + 1 as int)) == enc_values(s.subrange(0, n as int)) + enc_value(s[n as int]),
{
    assert(s.subrange(0, n + 1 as int) =~= s.subrange(0, n as int).push(s[n as int]));
    lemma_values_snoc(s.subrange(0, n as int), s[n as int]);
}

proof fn lemma_values_snoc(s: Seq<DataValue>, x: DataValue)
    ensures
        enc_values(s.push(x)) == enc_values(s) + enc_value(x),
    decreases s.len(),
{
    if s.len() == 0 {
        assert(s.push(x).subrange(1, 1) =~= Seq::<DataValue>::empty());
        assert(enc_values(s.push(x).subrange(1, 1)) == Seq::<u8>::empty());
        assert(enc_values(s) == Seq::<u8>::empty());
        assert(enc_values(s.push(x)) =~= enc_value(x));
    } else {
        let t = s.subrange(1, s.len() as int);
        assert(s.push(x).subrange(1, s.len() + 1 as int) =~= t.push(x));
        lemma_values_snoc(t, x);
        assert(enc_values(s.push(x)) =~= enc_values(s) + enc_value(x));
    }
}

proof fn lemma_enc_fields_step(s: Seq<(String, DataValue)>, n: nat)
    requires
        n < s.len(),
    ensures
        enc_fields(s.subrange(0, n + 1 as int)) == enc_fields(s.subrange(0, n as int)) + enc_str(s[n as int].0@)
            + enc_value(s[n as int].1),
{
    assert(s.subrange(0, n + 1 as int) =~= s.subrange(0, n as int).push(s[n as int]));
    lemma_fields_snoc(s.subrange(0, n as int), s[n as int]);
}

proof fn lemma_fields_snoc(s: Seq<(String, DataValue)>, x: (String, DataValue))
    ensures
        enc_fields(s.push(x)) == enc_fields(s) + enc_str(x.0@) + enc_value(x.1),
    decreases s.len(),
{
    if s.len() == 0 {
        assert(s.push(x).subrange(1, 1) =~= Seq::<(String, DataValue)>::empty());
        assert(enc_fields(s.push(x).subrange(1, 1)) == Seq::<u8>::empty());
        assert(enc_fields(s) == Seq::<u8>::empty());
        assert(enc_fields(s.push(x)) =~= enc_str(x.0@) + enc_value(x.1));
    } else {
        let t = s.subrange(1, s.len() as int);
        assert(s.push(x).subrange(1, s.len() + 1 as int) =~= t.push(x));
        lemma_fields_snoc(t, x);
        assert(enc_fields(s.push(x)) =~= enc_fields(s) + enc_str(x.0@) + enc_value(x.1));
    }
}

/// Appends the bytes of `v`; `false` where a length does not fit.
fn push_value(out: &mut Vec<u8>, v: &DataValue) -> (ok: bool)
    ensures
        ok ==> final(out)@ == old(out)@ + enc_value(*v),
        ok <==> value_fits(*v),
    decreases v,
{
    match v {
        DataValue::Null => {
            out.push(0u8);
        },
        DataValue::Boolean(b) => {
            out.push(1u8);
            out.push(if *b { 1u8 } else { 0u8 });
        },
        DataValue::Integer(i) => {
            out.push(2u8);
            push_u64(out, #[verifier::truncate] (*i as u64));
        },
        DataValue::Float(bits) => {
            out.push(3u8);
            push_u64(out, *bits);
        },
        DataValue::Text(s) => {
            if s.as_str().as_bytes().len() > u32::MAX as usize {
                return false;
            }
            out.push(4u8);
            push_str(out, s.as_str());
        },
        DataValue::Binary(b) => {
            if b.len() > u32::MAX as usize {
                return false;
            }
            out.push(5u8);
            push_u32(out, b.len() as u32);
            push_bytes(out, b.as_slice());
        },
        DataValue::Encrypted(b) => {
            if b.len() > u32::MAX as usize {
                return false;
            }
            out.push(6u8);
            push_u32(out, b.len() as u32);
            push_bytes(out, b.as_slice());
        },
        DataValue::Array(items) => {
            if items.len() > u32::MAX as usize {
                return false;
            }
            out.push(7u8);
            push_u32(out, items.len() as u32);
            let ghost head = out@;
            let mut i: usize = 0;
            while i < items.len()
                invariant
                    i <= items@.len(),
                    out@ == head + enc_values(items@.subrange(0, i as int)),
                    *v == DataValue::Array(*items),
                    value_fits(*v) ==> forall|j: int| 0 <= j < items@.len() ==> value_fits(#[trigger] items@[j]),
                    forall|j: int| 0 <= j < i ==> value_fits(#[trigger] items@[j]),
                    items@.len() <= u32::MAX,
                decreases items@.len() - i,
            {
                proof {
                    lemma_enc_values_step(items@, i as nat);
                    vstd::std_specs::vec::axiom_vec_index_decreases(*items, i as int);
                    assert(decreases_to!(*v => items[i as int]));
                }
                if !push_value(out, &items[i]) {
                    return false;
                }
                i = i + 1;
            }
            assert(items@.subrange(0, i as int) =~= items@);
        },
        DataValue::Object(fields) => {
            if fields.len() > u32::MAX as usize {
                return false;
            }
            out.push(8u8);
            push_u32(out, fields.len() as u32);
            let ghost head = out@;
            let mut i: usize = 0;
            while i < fields.len()
                invariant
                    i <= fields@.len(),
                    out@ == head + enc_fields(fields@.subrange(0, i as int)),
                    *v == DataValue::Object(*fields),
                    value_fits(*v) ==> forall|j: int| 0 <= j < fields@.len() ==> field_fits(#[trigger] fields@[j]),
                    forall|j: int| 0 <= j < i ==> field_fits(#[trigger] fields@[j]),
                    fields@.len() <= u32::MAX,
                decreases fields@.len() - i,
            {
                proof {
                    lemma_enc_fields_step(fields@, i as nat);
                    vstd::std_specs::vec::axiom_vec_index_decreases(*fields, i as int);
                }
                let (name, value) = &fields[i];
                proof {
                    assert(decreases_to!(fields[i as int] => fields[i as int].1));
                    assert(decreases_to!(*v => fields[i as int].1));
                }
                if name.as_str().as_bytes().len() > u32::MAX as usize {
                    return false;
                }
                push_str(out, name.as_str());
                if !push_value(out, value) {
                    return false;
                }
                i = i + 1;
            }
            assert(fields@.subrange(0, i as int) =~= fields@);
        },
    }
    assert(final(out)@ =~= old(out)@ + enc_value(*v));
    true
}

} // verus!

verus! {

/// Reads a length-prefixed byte run at `at`.
fn read_blob(b: &[u8], at: usize) -> (r: Option<(Vec<u8>, usize)>)
    requires
        at <= b@.len(),
    ensures
        r matches Some(p) ==> at <= p.1 <= b@.len() && b@.subrange(at as int, p.1 as int) == le32(
            p.0@.len() as u32,
        ) + p.0@ && p.0@.len() <= u32::MAX,
        forall|x: Seq<u8>|
            #![trigger le32(x.len() as u32) + x]
            x.len() <= u32::MAX && at + 4 + x.len() <= b@.len() && b@.subrange(
                at as int,
                at + 4 + x.len(),
            ) == le32(x.len() as u32) + x ==> r is Some,
{
    if b.len() - at < 4 {
        return None;
    }
    let n = read_u32(b, at) as usize;
    proof {
        lemma_u32_at_le32(b@, at as int);
        assert forall|x: Seq<u8>|
            #![trigger le32(x.len() as u32) + x]
            x.len() <= u32::MAX && at + 4 + x.len() <= b@.len() && b@.subrange(
                at as int,
                at + 4 + x.len(),
            ) == le32(x.len() as u32) + x implies n == x.len() by {
            let w = b@.subrange(at as int, at + 4 + x.len());
            assert(w.subrange(0, 4) =~= le32(x.len() as u32));
            assert(b@.subrange(at as int, at + 4) =~= w.subrange(0, 4));
            lemma_le32_injective(u32_at(b@, at as int), x.len() as u32);
        }
    }
    if b.len() - at - 4 < n {
        return None;
    }
    let v = crate::bytes::copy_range(b, at + 4, at + 4 + n);
    proof {
        assert(b@.subrange(at as int, (at + 4 + n) as int) =~= b@.subrange(at as int, at + 4) + v@);
    }
    Some((v, at + 4 + n))
}

/// The bytes of `b` from `at` on start with the encoding of `v`, a value
/// whose lengths fit.
pub open spec fn holds_value(b: Seq<u8>, at: int, v: DataValue) -> bool {
    &&& value_fits(v)
    &&& 0 <= at
    &&& at + enc_value(v).len() <= b.len()
    &&& b.subrange(at, at + enc_value(v).len()) == enc_value(v)
}

proof fn lemma_values_unfold(xs: Seq<DataValue>, i: int)
    requires
        0 <= i < xs.len(),
    ensures
        enc_values(xs.subrange(i, xs.len() as int)) == enc_value(xs[i]) + enc_values(
            xs.subrange(i + 1, xs.len() as int),
        ),
{
    let r = xs.subrange(i, xs.len() as int);
    assert(r[0] == xs[i]);
    assert(r.subrange(1, r.len() as int) =~= xs.subrange(i + 1, xs.len() as int));
}

proof fn lemma_fields_unfold(xs: Seq<(String, DataValue)>, i: int)
    requires
        0 <= i < xs.len(),
    ensures
        enc_fields(xs.subrange(i, xs.len() as int)) == enc_str(xs[i].0@) + enc_value(xs[i].1)
            + enc_fields(xs.subrange(i + 1, xs.len() as int)),
{
    let r = xs.subrange(i, xs.len() as int);
    assert(r[0] == xs[i]);
    assert(r.subrange(1, r.len() as int) =~= xs.subrange(i + 1, xs.len() as int));
}

/// Where the bytes at `pos` hold `v` and a value `item` was read there
/// ending at `next`, the read ended where `v`'s bytes end.
proof fn lemma_read_ends_with(b: Seq<u8>, pos: int, next: int, item: DataValue, v: DataValue)
    requires
        holds_value(b, pos, v),
        value_fits(item),
        pos <= next <= b.len(),
        b.subrange(pos, next) == enc_value(item),
    ensures
        next == pos + enc_value(v).len(),
        same_value(item, v),
{
    let e = enc_value(v);
    assert(enc_value(item) + b.subrange(next, b.len() as int) =~= b.subrange(pos, b.len() as int));
    assert(e + b.subrange(pos + e.len(), b.len() as int) =~= b.subrange(pos, b.len() as int));
    lemma_value_prefix_free(item, v, b.subrange(next, b.len() as int), b.subrange(pos + e.len(), b.len() as int));
}

/// Reads one value at `at`, nested at most `depth` deep: the value and the
/// position after it, where the bytes there encode one. Where they hold
/// the encoding of `expect` (no longer than `depth`), the read succeeds.
#[verifier::rlimit(100)]
fn read_value(b: &[u8], at: usize, depth: usize, Ghost(expect): Ghost<Option<DataValue>>) -> (r: Option<(DataValue, usize)>)
    requires
        at <= b@.len(),
    ensures
        r matches Some(p) ==> at <= p.1 <= b@.len() && b@.subrange(at as int, p.1 as int)
            == enc_value(p.0) && value_fits(p.0),
        expect matches Some(v) && holds_value(b@, at as int, v) && depth >= enc_value(v).len() ==> r is Some,
    decreases depth, 2nat,
{
    let ghost ok = expect matches Some(v) && holds_value(b@, at as int, v) && depth >= enc_value(v).len();
    let ghost v = expect->Some_0;
    let ghost e = enc_value(v);
    let len = b.len();
    if at >= len {
        return None;
    }
    let tag = b[at];
    let at1 = at + 1;
    proof {
        if ok {
            assert(b@[at as int] == b@.subrange(at as int, at + e.len())[0]);
            assert(tag == e[0]);
        }
    }
    if tag == 0 {
        assert(b@.subrange(at as int, at1 as int) =~= seq![0u8]);
        Some((DataValue::Null, at1))
    } else if tag == 1 {
        if at1 >= len {
            return None;
        }
        let flag = b[at1];
        proof {
            if ok {
                assert(flag == b@.subrange(at as int, at + e.len())[1]);
            }
        }
        if flag > 1 {
            return None;
        }
        let value = DataValue::Boolean(flag == 1);
        assert(b@.subrange(at as int, at1 + 1) =~= enc_value(value));
        Some((value, at1 + 1))
    } else if tag == 2 || tag == 3 {
        if len - at1 < 8 {
            return None;
        }
        let x = read_u64(b, at1);
        proof { lemma_u64_at_le64(b@, at1 as int); }
        let value = if tag == 2 {
            let i = #[verifier::truncate] (x as i64);
            assert((#[verifier::truncate] (i as u64)) == x) by (bit_vector)
                requires i == #[verifier::truncate] (x as i64);
            DataValue::Integer(i)
        } else {
            DataValue::Float(x)
        };
        assert(b@.subrange(at as int, at1 + 8) =~= seq![tag] + b@.subrange(at1 as int, at1 + 8));
        Some((value, at1 + 8))
    } else if tag == 4 {
        proof {
            if ok {
                let k = v->Text_0@;
                assert(e.subrange(1, e.len() as int) =~= enc_str(k));
                assert(b@.subrange(at1 as int, at1 + enc_str(k).len()) =~= b@.subrange(at as int, at + e.len()).subrange(1, e.len() as int));
                assert(str_fits(k));
            }
        }
        match read_str(b, at1) {
            None => None,
            Some((text, next)) => {
                let value = DataValue::Text(text);
                assert(b@.subrange(at as int, next as int) =~= seq![4u8] + b@.subrange(at1 as int, next as int));
                Some((value, next))
            },
        }
    } else if tag == 5 || tag == 6 {
        proof {
            if ok {
                let x = if tag == 5 { v->Binary_0@ } else { v->Encrypted_0@ };
                assert(e.subrange(1, e.len() as int) =~= le32(x.len() as u32) + x);
                assert(b@.subrange(at1 as int, at1 + 4 + x.len()) =~= b@.subrange(at as int, at + e.len()).subrange(1, e.len() as int));
                assert(x.len() <= u32::MAX);
            }
        }
        match read_blob(b, at1) {
            None => None,
            Some((bytes, next)) => {
                let value = if tag == 5 {
                    DataValue::Binary(bytes)
                } else {
                    DataValue::Encrypted(bytes)
                };
                assert(b@.subrange(at as int, next as int) =~= seq![tag] + b@.subrange(at1 as int, next as int));
                Some((value, next))
            },
        }
    } else if tag == 7 || tag == 8 {
        read_compound(b, at, depth, Ghost(expect))
    } else {
        None
    }
}

/// Reads an array or object (tag 7 or 8) at `at`; see `read_value`.
#[verifier::rlimit(100)]
fn read_compound(b: &[u8], at: usize, depth: usize, Ghost(expect): Ghost<Option<DataValue>>) -> (r: Option<(DataValue, usize)>)
    requires
        at < b@.len(),
        b@[at as int] == 7 || b@[at as int] == 8,
    ensures
        r matches Some(p) ==> at <= p.1 <= b@.len() && b@.subrange(at as int, p.1 as int)
            == enc_value(p.0) && value_fits(p.0),
        expect matches Some(v) && holds_value(b@, at as int, v) && depth >= enc_value(v).len() ==> r is Some,
    decreases depth, 1nat,
{
    let ghost ok = expect matches Some(v) && holds_value(b@, at as int, v) && depth >= enc_value(v).len();
    let ghost v = expect->Some_0;
    let ghost e = enc_value(v);
    let len = b.len();
    let tag = b[at];
    let at1 = at + 1;
    proof {
        if ok {
            assert(b@[at as int] == b@.subrange(at as int, at + e.len())[0]);
            assert(tag == e[0]);
        }
    }
    proof {
        if ok {
            match v {
                DataValue::Array(items) => {
                    assert(e.len() >= 5);
                },
                DataValue::Object(fields) => {
                    assert(e.len() >= 5);
                },
                _ => {
                    assert(e[0] != 7 && e[0] != 8);
                },
            }
        }
    }
        if depth == 0 || len - at1 < 4 {
            return None;
        }
        let n = read_u32(b, at1);
        proof { lemma_u32_at_le32(b@, at1 as int); }
        let pos: usize = at1 + 4;
        assert(b@.subrange(at as int, pos as int) =~= seq![tag] + le32(n));
        if tag == 7 {
            let ghost xs: Seq<DataValue> = v->Array_0@;
            proof {
                if ok {
                    assert(v is Array);
                    let w = b@.subrange(at as int, at + e.len());
                    assert(w.subrange(1, 5) =~= le32(xs.len() as u32));
                    assert(b@.subrange(at1 as int, at1 + 4) =~= w.subrange(1, 5));
                    lemma_le32_injective(u32_at(b@, at1 as int), xs.len() as u32);
                    assert(e.subrange(5, e.len() as int) =~= enc_values(xs));
                    assert(b@.subrange(pos as int, pos + enc_values(xs).len()) =~= w.subrange(5, e.len() as int));
                    assert(n == xs.len());
                    assert(values_fit(xs)) by {
                        assert forall|k: int| 0 <= k < xs.len() implies value_fits(#[trigger] xs[k]) by {}
                    }
                    assert(depth - 1 >= enc_values(xs).len());
                }
            }
            match read_items(b, pos, n, depth - 1, Ghost(if ok { Some(xs) } else { None })) {
                None => None,
                Some((items, next)) => {
                    let value = DataValue::Array(items);
                    assert(b@.subrange(at as int, next as int) =~= b@.subrange(at as int, pos as int) + b@.subrange(pos as int, next as int));
                    Some((value, next))
                },
            }
        } else {
            let ghost xs: Seq<(String, DataValue)> = v->Object_0@;
            proof {
                if ok {
                    assert(v is Object);
                    let w = b@.subrange(at as int, at + e.len());
                    assert(w.subrange(1, 5) =~= le32(xs.len() as u32));
                    assert(b@.subrange(at1 as int, at1 + 4) =~= w.subrange(1, 5));
                    lemma_le32_injective(u32_at(b@, at1 as int), xs.len() as u32);
                    assert(e.subrange(5, e.len() as int) =~= enc_fields(xs));
                    assert(b@.subrange(pos as int, pos + enc_fields(xs).len()) =~= w.subrange(5, e.len() as int));
                    assert(n == xs.len());
                    assert(fields_fit(xs)) by {
                        assert forall|k: int| 0 <= k < xs.len() implies field_fits(#[trigger] xs[k]) by {}
                    }
                    assert(depth - 1 >= enc_fields(xs).len());
                }
            }
            match read_fields(b, pos, n, depth - 1, Ghost(if ok { Some(xs) } else { None })) {
                None => None,
                Some((fields, next)) => {
                    let value = DataValue::Object(fields);
                    assert(b@.subrange(at as int, next as int) =~= b@.subrange(at as int, pos as int) + b@.subrange(pos as int, next as int));
                    Some((value, next))
                },
            }
        }
}

/// Reads `n` values one after another from `at`. Where the bytes there hold
/// the encoding of the `n` values `expect` (no longer than `depth`), the
/// read succeeds.
#[verifier::rlimit(40)]
fn read_items(b: &[u8], at: usize, n: u32, depth: usize, Ghost(expect): Ghost<Option<Seq<DataValue>>>) -> (r: Option<(Vec<DataValue>, usize)>)
    requires
        at <= b@.len(),
    ensures
        r matches Some(p) ==> at <= p.1 <= b@.len() && b@.subrange(at as int, p.1 as int)
            == enc_values(p.0@) && values_fit(p.0@) && p.0@.len() == n,
        expect matches Some(xs) && xs.len() == n && values_fit(xs) && at + enc_values(xs).len() <= b@.len()
            && b@.subrange(at as int, at + enc_values(xs).len()) == enc_values(xs) && depth >= enc_values(xs).len() ==> r is Some,
    decreases depth, 3nat,
{
    let ghost xs = expect->Some_0;
    let ghost ok = expect is Some && xs.len() == n && values_fit(xs) && at + enc_values(xs).len() <= b@.len()
        && b@.subrange(at as int, at + enc_values(xs).len()) == enc_values(xs) && depth >= enc_values(xs).len();
    let ghost end = at + enc_values(xs).len();
    let len = b.len();
    proof {
        assert(b@.subrange(at as int, at as int) =~= enc_values(Seq::<DataValue>::empty()));
        if ok {
            assert(xs.subrange(0, xs.len() as int) =~= xs);
        }
    }
    let mut items: Vec<DataValue> = Vec::new();
    let mut pos: usize = at;
    let mut i: u32 = 0;
    while i < n
        invariant
            at <= pos <= len == b@.len(),
            i <= n,
            items@.len() == i,
            b@.subrange(at as int, pos as int) == enc_values(items@),
            values_fit(items@),
            ok == (expect is Some && xs.len() == n && values_fit(xs) && at + enc_values(xs).len() <= b@.len()
                && b@.subrange(at as int, at + enc_values(xs).len()) == enc_values(xs) && depth >= enc_values(xs).len()),
            xs == expect->Some_0,
            end == at + enc_values(xs).len(),
            ok ==> xs.len() == n && values_fit(xs),
            ok ==> end <= len && depth >= end - at && pos + enc_values(xs.subrange(i as int, n as int)).len() == end
                && b@.subrange(pos as int, end) == enc_values(xs.subrange(i as int, n as int)),
        decreases n - i,
    {
        let ghost want = xs[i as int];
        proof {
            if ok {
                lemma_values_unfold(xs, i as int);
                let ew = enc_value(want);
                let more = enc_values(xs.subrange(i + 1, n as int));
                assert((ew + more).subrange(0, ew.len() as int) =~= ew);
                assert(b@.subrange(pos as int, pos + ew.len()) =~= b@.subrange(pos as int, end).subrange(0, ew.len() as int));
                assert(value_fits(want));
                assert(holds_value(b@, pos as int, want));
                assert(depth >= ew.len());
            }
        }
        let (item, next) = match read_value(b, pos, depth, Ghost(if ok { Some(want) } else { None })) {
            Some(p) => p,
            None => {
                return None;
            },
        };
        proof {
            if ok {
                lemma_read_ends_with(b@, pos as int, next as int, item, want);
                let ew = enc_value(want);
                let more = enc_values(xs.subrange(i + 1, n as int));
                assert(b@.subrange(next as int, end) =~= b@.subrange(pos as int, end).subrange(ew.len() as int, end - pos));
                assert((ew + more).subrange(ew.len() as int, (ew + more).len() as int) =~= more);
            }
        }
        let ghost before = items@;
        let ghost item_v = item;
        let ghost old_pos = pos;
        items.push(item);
        proof {
            lemma_values_snoc(before, item_v);
            assert(b@.subrange(at as int, next as int) =~= b@.subrange(at as int, old_pos as int)
                + b@.subrange(old_pos as int, next as int));
            assert(values_fit(items@)) by {
                assert forall|j: int| 0 <= j < items@.len() implies value_fits(#[trigger] items@[j]) by {
                    if j < before.len() {
                        assert(items@[j] == before[j]);
                    }
                }
            }
        }
        pos = next;
        i = i + 1;
    }
    Some((items, pos))
}

/// Reads `n` named values one after another from `at`. Where the bytes
/// there hold the encoding of the `n` fields `expect` (no longer than
/// `depth`), the read succeeds.
#[verifier::rlimit(40)]
fn read_fields(b: &[u8], at: usize, n: u32, depth: usize, Ghost(expect): Ghost<Option<Seq<(String, DataValue)>>>) -> (r: Option<(Vec<(String, DataValue)>, usize)>)
    requires
        at <= b@.len(),
    ensures
        r matches Some(p) ==> at <= p.1 <= b@.len() && b@.subrange(at as int, p.1 as int)
            == enc_fields(p.0@) && fields_fit(p.0@) && p.0@.len() == n,
        expect matches Some(xs) && xs.len() == n && fields_fit(xs) && at + enc_fields(xs).len() <= b@.len()
            && b@.subrange(at as int, at + enc_fields(xs).len()) == enc_fields(xs) && depth >= enc_fields(xs).len() ==> r is Some,
    decreases depth, 3nat,
{
    let ghost xs = expect->Some_0;
    let ghost ok = expect is Some && xs.len() == n && fields_fit(xs) && at + enc_fields(xs).len() <= b@.len()
        && b@.subrange(at as int, at + enc_fields(xs).len()) == enc_fields(xs) && depth >= enc_fields(xs).len();
    let ghost end = at + enc_fields(xs).len();
    let len = b.len();
    proof {
        assert(b@.subrange(at as int, at as int) =~= enc_fields(Seq::<(String, DataValue)>::empty()));
        if ok {
            assert(xs.subrange(0, xs.len() as int) =~= xs);
        }
    }
    let mut fields: Vec<(String, DataValue)> = Vec::new();
    let mut pos: usize = at;
    let mut i: u32 = 0;
    while i < n
        invariant
            at <= pos <= len == b@.len(),
            i <= n,
            fields@.len() == i,
            b@.subrange(at as int, pos as int) == enc_fields(fields@),
            fields_fit(fields@),
            ok == (expect is Some && xs.len() == n && fields_fit(xs) && at + enc_fields(xs).len() <= b@.len()
                && b@.subrange(at as int, at + enc_fields(xs).len()) == enc_fields(xs) && depth >= enc_fields(xs).len()),
            xs == expect->Some_0,
            end == at + enc_fields(xs).len(),
            ok ==> xs.len() == n && fields_fit(xs),
            ok ==> end <= len && depth >= end - at && pos + enc_fields(xs.subrange(i as int, n as int)).len() == end
                && b@.subrange(pos as int, end) == enc_fields(xs.subrange(i as int, n as int)),
        decreases n - i,
    {
        let ghost want = xs[i as int];
        proof {
            if ok {
                lemma_fields_unfold(xs, i as int);
                let es = enc_str(want.0@);
                let ew = enc_value(want.1);
                let more = enc_fields(xs.subrange(i + 1, n as int));
                assert((es + ew + more).subrange(0, es.len() as int) =~= es);
                assert(b@.subrange(pos as int, pos + es.len()) =~= b@.subrange(pos as int, end).subrange(0, es.len() as int));
                assert(field_fits(want));
                assert(str_fits(want.0@));
                assert(pos + es.len() <= b@.len());
            }
        }
        let (name, mid) = match read_str(b, pos) {
            Some(p) => p,
            None => {
                return None;
            },
        };
        proof {
            if ok {
                let es = enc_str(want.0@);
                let ew = enc_value(want.1);
                let more = enc_fields(xs.subrange(i + 1, n as int));
                let t1 = b@.subrange(mid as int, len as int);
                let t2 = b@.subrange(pos + es.len(), len as int);
                assert(enc_str(name@) + t1 =~= b@.subrange(pos as int, len as int));
                assert(es + t2 =~= b@.subrange(pos as int, len as int));
                lemma_str_prefix_free(name@, want.0@, t1, t2);
                assert((es + ew + more).subrange(es.len() as int, es.len() + ew.len() as int) =~= ew);
                assert(b@.subrange(mid as int, mid + ew.len()) =~= b@.subrange(pos as int, end).subrange(es.len() as int, es.len() + ew.len() as int));
                assert(holds_value(b@, mid as int, want.1));
                assert(depth >= ew.len());
            }
        }
        let (value, next) = match read_value(b, mid, depth, Ghost(if ok { Some(want.1) } else { None })) {
            Some(p) => p,
            None => {
                return None;
            },
        };
        proof {
            if ok {
                lemma_read_ends_with(b@, mid as int, next as int, value, want.1);
                let es = enc_str(want.0@);
                let ew = enc_value(want.1);
                let more = enc_fields(xs.subrange(i + 1, n as int));
                assert(b@.subrange(next as int, end) =~= b@.subrange(pos as int, end).subrange(next - pos, end - pos));
                assert((es + ew + more).subrange(es.len() + ew.len() as int, (es + ew + more).len() as int) =~= more);
            }
        }
        let ghost before = fields@;
        let ghost pair_v = (name, value);
        let ghost old_pos = pos;
        fields.push((name, value));
        proof {
            lemma_fields_snoc(before, pair_v);
            assert(b@.subrange(at as int, next as int) =~= b@.subrange(at as int, old_pos as int)
                + b@.subrange(old_pos as int, mid as int) + b@.subrange(mid as int, next as int));
            assert(fields_fit(fields@)) by {
                assert forall|j: int| 0 <= j < fields@.len() implies field_fits(#[trigger] fields@[j]) by {
                    if j < before.len() {
                        assert(fields@[j] == before[j]);
                    }
                }
            }
        }
        pos = next;
        i = i + 1;
    }
    Some((fields, pos))
}

} // verus!

verus! {

impl AuraDocument {
    /// A document with the given id, version 1 and no columns.
    pub fn new(id: &str) -> (r: AuraDocument)
        ensures
            r.id@ == id@,
            r.version == 1,
            r.data@.len() == 0,
    {
        AuraDocument { id: id.to_owned(), version: 1, data: Vec::new() }
    }

    /// The value of column `name`, if it has one.
    pub fn get(&self, name: &str) -> (r: Option<&DataValue>)
        ensures
            r matches Some(v) ==> exists|i: int|
                0 <= i < self.data@.len() && self.data@[i].0@ == name@ && self.data@[i].1 == *v,
            r is None ==> forall|i: int| 0 <= i < self.data@.len() ==> self.data@[i].0@ != name@,
    {
        let mut i: usize = 0;
        while i < self.data.len()
            invariant
                i <= self.data@.len(),
                forall|j: int| 0 <= j < i ==> self.data@[j].0@ != name@,
            decreases self.data@.len() - i,
        {
            if crate::order::compare_keys(self.data[i].0.as_str(), name) == 0 {
                return Some(&self.data[i].1);
            }
            i = i + 1;
        }
        None
    }

    /// Sets column `name` to `value`, replacing its earlier value, or adds it
    /// at the end.
    pub fn set(&mut self, name: String, value: DataValue)
        ensures
            final(self).id == old(self).id,
            final(self).version == old(self).version,
            exists|i: int|
                0 <= i < final(self).data@.len() && final(self).data@[i].0@ == name@
                    && final(self).data@[i].1 == value,
            forall|i: int|
                0 <= i < old(self).data@.len() && old(self).data@[i].0@ != name@
                    ==> #[trigger] final(self).data@[i] == old(self).data@[i],
            final(self).data@.len() == if exists|i: int|
                0 <= i < old(self).data@.len() && #[trigger] old(self).data@[i].0@ == name@ {
                old(self).data@.len()
            } else {
                old(self).data@.len() + 1
            },
            forall|i: int|
                0 <= i < final(self).data@.len() ==> (i < old(self).data@.len() && #[trigger] final(
                    self).data@[i] == old(self).data@[i]) || (final(self).data@[i].0@ == name@
                    && final(self).data@[i].1 == value),
            names_unique(old(self).data@) ==> names_unique(final(self).data@),
    {
        let mut i: usize = 0;
        while i < self.data.len()
            invariant
                i <= self.data@.len(),
                self.data == old(self).data,
                self.id == old(self).id,
                self.version == old(self).version,
                forall|j: int| 0 <= j < i ==> self.data@[j].0@ != name@,
            decreases self.data@.len() - i,
        {
            if crate::order::compare_keys(self.data[i].0.as_str(), name.as_str()) == 0 {
                let ghost k = name@;
                self.data.set(i, (name, value));
                assert(self.data@[i as int].0@ == k);
                proof {
                    if names_unique(old(self).data@) {
                        assert forall|a: int, b: int| 0 <= a < b < self.data@.len() implies #[trigger] self.data@[a].0@
                            != #[trigger] self.data@[b].0@ by {
                            if a == i as int {
                                assert(old(self).data@[a].0@ != old(self).data@[b].0@);
                            } else if b == i as int {
                                assert(old(self).data@[a].0@ != old(self).data@[b].0@);
                            }
                        }
                    }
                }
                return;
            }
            i = i + 1;
        }
        let ghost k = name@;
        self.data.push((name, value));
        assert(self.data@[self.data@.len() - 1].0@ == k);
        proof {
            if names_unique(old(self).data@) {
                assert forall|a: int, b: int| 0 <= a < b < self.data@.len() implies #[trigger] self.data@[a].0@
                    != #[trigger] self.data@[b].0@ by {
                    if b == self.data@.len() - 1 {
                        assert(old(self).data@[a].0@ != k);
                    } else {
                        assert(old(self).data@[a].0@ != old(self).data@[b].0@);
                    }
                }
            }
        }
    }

    /// The document's bytes (see `enc_doc`). Fails with a serialisation error
    /// only where a length does not fit its 32-bit prefix.
    pub fn to_bytes(&self) -> (r: Result<Vec<u8>, AuraError>)
        ensures
            r matches Ok(b) ==> b@ == enc_doc(*self),
            r is Ok <==> doc_fits(*self),
            r matches Err(e) ==> e is Serialization,
    {
        if self.id.as_str().as_bytes().len() > u32::MAX as usize || self.data.len() > u32::MAX as usize {
            return Err(AuraError::Serialization("a length does not fit 32 bits".to_owned()));
        }
        let mut out: Vec<u8> = Vec::new();
        push_str(&mut out, self.id.as_str());
        push_u64(&mut out, self.version);
        push_u32(&mut out, self.data.len() as u32);
        let ghost head = out@;
        let mut i: usize = 0;
        while i < self.data.len()
            invariant
                i <= self.data@.len() <= u32::MAX,
                out@ == head + enc_fields(self.data@.subrange(0, i as int)),
                head == enc_str(self.id@) + le64(self.version) + le32(self.data@.len() as u32),
                str_fits(self.id@),
                forall|j: int| 0 <= j < i ==> field_fits(#[trigger] self.data@[j]),
            decreases self.data@.len() - i,
        {
            proof {
                lemma_enc_fields_step(self.data@, i as nat);
                if doc_fits(*self) {
                    assert(field_fits(self.data@[i as int]));
                }
            }
            let (name, value) = &self.data[i];
            if name.as_str().as_bytes().len() > u32::MAX as usize {
                return Err(AuraError::Serialization("a length does not fit 32 bits".to_owned()));
            }
            push_str(&mut out, name.as_str());
            if !push_value(&mut out, value) {
                return Err(AuraError::Serialization("a length does not fit 32 bits".to_owned()));
            }
            i = i + 1;
        }
        assert(self.data@.subrange(0, i as int) =~= self.data@);
        Ok(out)
    }

    /// The document that `enc_doc` bytes describe. Fails with a serialisation
    /// error exactly on bytes that are not the encoding of a document whose
    /// lengths fit their prefixes.
    #[verifier::rlimit(100)]
    pub fn from_bytes(bytes: &[u8]) -> (r: Result<AuraDocument, AuraError>)
        ensures
            r matches Ok(d) ==> enc_doc(d) == bytes@ && doc_fits(d),
            r matches Err(e) ==> e is Serialization,
            (exists|d: AuraDocument| enc_doc(d) == bytes@ && doc_fits(d)) ==> r is Ok,
    {
        let ghost ok = exists|d: AuraDocument| enc_doc(d) == bytes@ && doc_fits(d);
        let ghost want = choose|d: AuraDocument| enc_doc(d) == bytes@ && doc_fits(d);
        let ghost xs = want.data@;
        let len = bytes.len();
        proof {
            if ok {
                let es = enc_str(want.id@);
                assert(bytes@.subrange(0, es.len() as int) =~= es);
            }
        }
        let (id, at) = match read_str(bytes, 0) {
            Some(p) => p,
            None => {
                return Err(AuraError::Serialization("Document Corrupt".to_owned()));
            },
        };
        proof {
            if ok {
                let es = enc_str(want.id@);
                let t1 = bytes@.subrange(at as int, len as int);
                let t2 = bytes@.subrange(es.len() as int, len as int);
                assert(enc_str(id@) + t1 =~= bytes@);
                assert(es + t2 =~= bytes@);
                lemma_str_prefix_free(id@, want.id@, t1, t2);
            }
        }
        if len - at < 12 {
            return Err(AuraError::Serialization("Document Corrupt".to_owned()));
        }
        let version = read_u64(bytes, at);
        let n = read_u32(bytes, at + 8);
        proof {
            lemma_u64_at_le64(bytes@, at as int);
            lemma_u32_at_le32(bytes@, at + 8);
            if ok {
                assert(bytes@.subrange(at as int, at + 8) =~= le64(want.version));
                assert(bytes@.subrange(at + 8, at + 12) =~= le32(xs.len() as u32));
                lemma_le64_injective(u64_at(bytes@, at as int), want.version);
                lemma_le32_injective(u32_at(bytes@, at + 8), xs.len() as u32);
                assert(bytes@.subrange(at + 12, len as int) =~= enc_fields(xs));
                assert(xs.subrange(0, xs.len() as int) =~= xs);
                assert(fields_fit(xs)) by {
                    assert forall|k: int| 0 <= k < xs.len() implies field_fits(#[trigger] xs[k]) by {}
                }
            }
        }
        let pos: usize = at + 12;
        let ghost head = bytes@.subrange(0, pos as int);
        assert(head =~= enc_str(id@) + le64(version) + le32(n));
        proof {
            if ok {
                assert(bytes@.subrange(pos as int, pos + enc_fields(xs).len()) =~= bytes@.subrange(at + 12, len as int));
            }
        }
        let (data, pos) = match read_fields(bytes, pos, n, len, Ghost(if ok { Some(xs) } else { None })) {
            Some(p) => p,
            None => {
                return Err(AuraError::Serialization("Document Corrupt".to_owned()));
            },
        };
        assert(bytes@.subrange(0, pos as int) =~= head + bytes@.subrange(at + 12, pos as int));
        proof {
            if ok {
                let tail = bytes@.subrange(pos as int, len as int);
                assert(enc_fields(data@) + tail =~= bytes@.subrange(at + 12, len as int));
                assert(enc_fields(xs) + Seq::<u8>::empty() =~= bytes@.subrange(at + 12, len as int));
                lemma_fields_prefix_free(data@, xs, tail, Seq::<u8>::empty());
            }
        }
        if pos != len {
            return Err(AuraError::Serialization("Document Corrupt".to_owned()));
        }
        let d = AuraDocument { id, version, data };
        assert(bytes@.subrange(0, pos as int) =~= bytes@);
        assert(enc_doc(d) =~= bytes@);
        Ok(d)
    }
}

} // verus!

verus! {

/// The two values hold the same data, all the way down.
pub open spec fn same_value(a: DataValue, b: DataValue) -> bool
    decreases a,
{
    match a {
        DataValue::Null => b is Null,
        DataValue::Boolean(x) => b == DataValue::Boolean(x),
        DataValue::Integer(x) => b == DataValue::Integer(x),
        DataValue::Float(x) => b == DataValue::Float(x),
        DataValue::Text(x) => b matches DataValue::Text(y) && x@ == y@,
        DataValue::Binary(x) => b matches DataValue::Binary(y) && x@ == y@,
        DataValue::Encrypted(x) => b matches DataValue::Encrypted(y) && x@ == y@,
        DataValue::Array(xs) => b matches DataValue::Array(ys) && same_values(xs@, ys@),
        DataValue::Object(xs) => b matches DataValue::Object(ys) && same_fields(xs@, ys@),
    }
}

/// Pairwise the same values.
pub open spec fn same_values(xs: Seq<DataValue>, ys: Seq<DataValue>) -> bool
    decreases xs,
{
    if xs.len() == 0 {
        ys.len() == 0
    } else {
        ys.len() > 0 && same_value(xs[0], ys[0]) && same_values(
            xs.subrange(1, xs.len() as int),
            ys.subrange(1, ys.len() as int),
        )
    }
}

/// Pairwise the same names and values.
pub open spec fn same_fields(xs: Seq<(String, DataValue)>, ys: Seq<(String, DataValue)>) -> bool
    decreases xs,
{
    if xs.len() == 0 {
        ys.len() == 0
    } else {
        ys.len() > 0 && xs[0].0@ == ys[0].0@ && same_value(xs[0].1, ys[0].1) && same_fields(
            xs.subrange(1, xs.len() as int),
            ys.subrange(1, ys.len() as int),
        )
    }
}

/// The two documents hold the same id, version and fields.
pub open spec fn same_doc(a: AuraDocument, b: AuraDocument) -> bool {
    a.id@ == b.id@ && a.version == b.version && same_fields(a.data@, b.data@)
}

pub open spec fn values_fit(xs: Seq<DataValue>) -> bool {
    forall|i: int| 0 <= i < xs.len() ==> value_fits(#[trigger] xs[i])
}

pub open spec fn fields_fit(xs: Seq<(String, DataValue)>) -> bool {
    forall|i: int| 0 <= i < xs.len() ==> field_fits(#[trigger] xs[i])
}

/// A value's bytes are read back unambiguously from the front of any byte
/// sequence that starts with them.
pub proof fn lemma_value_prefix_free(a: DataValue, b: DataValue, t1: Seq<u8>, t2: Seq<u8>)
    requires
        value_fits(a),
        value_fits(b),
        enc_value(a) + t1 == enc_value(b) + t2,
    ensures
        same_value(a, b),
        t1 == t2,
    decreases a,
{
    let s = enc_value(a) + t1;
    let u = enc_value(b) + t2;
    assert(s[0] == u[0]);
    match a {
        DataValue::Null => {
            assert(t1 =~= s.subrange(1, s.len() as int));
            assert(t2 =~= u.subrange(1, u.len() as int));
        },
        DataValue::Boolean(x) => {
            assert(t1 =~= s.subrange(2, s.len() as int));
            assert(t2 =~= u.subrange(2, u.len() as int));
            assert(s[1] == u[1]);
        },
        DataValue::Integer(x) => {
            let y = b->Integer_0;
            assert(s.subrange(1, 9) =~= le64(x as u64));
            assert(u.subrange(1, 9) =~= le64(y as u64));
            lemma_le64_injective(x as u64, y as u64);
            assert(x == y) by (bit_vector)
                requires
                    x as u64 == y as u64,
            ;
            assert(t1 =~= s.subrange(9, s.len() as int));
            assert(t2 =~= u.subrange(9, u.len() as int));
        },
        DataValue::Float(x) => {
            let y = b->Float_0;
            assert(s.subrange(1, 9) =~= le64(x));
            assert(u.subrange(1, 9) =~= le64(y));
            lemma_le64_injective(x, y);
            assert(t1 =~= s.subrange(9, s.len() as int));
            assert(t2 =~= u.subrange(9, u.len() as int));
        },
        DataValue::Text(x) => {
            let y = b->Text_0;
            assert(s.subrange(1, s.len() as int) =~= enc_str(x@) + t1);
            assert(u.subrange(1, u.len() as int) =~= enc_str(y@) + t2);
            lemma_str_prefix_free(x@, y@, t1, t2);
        },
        DataValue::Binary(x) => {
            let y = b->Binary_0;
            lemma_blob_prefix_free(x@, y@, s, u, t1, t2);
        },
        DataValue::Encrypted(x) => {
            let y = b->Encrypted_0;
            lemma_blob_prefix_free(x@, y@, s, u, t1, t2);
        },
        DataValue::Array(xs) => {
            let ys = b->Array_0;
            assert(s.subrange(1, 5) =~= le32(xs@.len() as u32));
            assert(u.subrange(1, 5) =~= le32(ys@.len() as u32));
            lemma_le32_injective(xs@.len() as u32, ys@.len() as u32);
            assert(s.subrange(5, s.len() as int) =~= enc_values(xs@) + t1);
            assert(u.subrange(5, u.len() as int) =~= enc_values(ys@) + t2);
            assert(decreases_to!(a => xs@)) by {
                vstd::std_specs::vec::axiom_vec_decreases_to_view(xs);
            }
            lemma_values_prefix_free(xs@, ys@, t1, t2);
        },
        DataValue::Object(xs) => {
            let ys = b->Object_0;
            assert(s.subrange(1, 5) =~= le32(xs@.len() as u32));
            assert(u.subrange(1, 5) =~= le32(ys@.len() as u32));
            lemma_le32_injective(xs@.len() as u32, ys@.len() as u32);
            assert(s.subrange(5, s.len() as int) =~= enc_fields(xs@) + t1);
            assert(u.subrange(5, u.len() as int) =~= enc_fields(ys@) + t2);
            assert(decreases_to!(a => xs@)) by {
                vstd::std_specs::vec::axiom_vec_decreases_to_view(xs);
            }
            lemma_fields_prefix_free(xs@, ys@, t1, t2);
        },
    }
}

proof fn lemma_blob_prefix_free(x: Seq<u8>, y: Seq<u8>, s: Seq<u8>, u: Seq<u8>, t1: Seq<u8>, t2: Seq<u8>)
    requires
        x.len() <= u32::MAX,
        y.len() <= u32::MAX,
        s == u,
        s.len() >= 5,
        s[0] == u[0],
        s == seq![s[0]] + le32(x.len() as u32) + x + t1,
        u == seq![u[0]] + le32(y.len() as u32) + y + t2,
    ensures
        x == y,
        t1 == t2,
{
    assert(s.subrange(1, 5) =~= le32(x.len() as u32));
    assert(u.subrange(1, 5) =~= le32(y.len() as u32));
    lemma_le32_injective(x.len() as u32, y.len() as u32);
    assert(s.subrange(5, 5 + x.len() as int) =~= x);
    assert(u.subrange(5, 5 + y.len() as int) =~= y);
    assert(t1 =~= s.subrange(5 + x.len() as int, s.len() as int));
    assert(t2 =~= u.subrange(5 + y.len() as int, u.len() as int));
}

/// Lists of equally many values read back unambiguously.
pub proof fn lemma_values_prefix_free(xs: Seq<DataValue>, ys: Seq<DataValue>, t1: Seq<u8>, t2: Seq<u8>)
    requires
        xs.len() == ys.len(),
        values_fit(xs),
        values_fit(ys),
        enc_values(xs) + t1 == enc_values(ys) + t2,
    ensures
        same_values(xs, ys),
        t1 == t2,
    decreases xs,
{
    if xs.len() > 0 {
        let xr = xs.subrange(1, xs.len() as int);
        let yr = ys.subrange(1, ys.len() as int);
        assert(enc_value(xs[0]) + (enc_values(xr) + t1) =~= enc_values(xs) + t1);
        assert(enc_value(ys[0]) + (enc_values(yr) + t2) =~= enc_values(ys) + t2);
        assert(value_fits(xs[0]) && value_fits(ys[0]));
        assert(decreases_to!(xs => xs[0])) by {
            vstd::seq::axiom_seq_index_decreases(xs, 0);
        }
        lemma_value_prefix_free(xs[0], ys[0], enc_values(xr) + t1, enc_values(yr) + t2);
        assert(values_fit(xr)) by {
            assert forall|i: int| 0 <= i < xr.len() implies value_fits(#[trigger] xr[i]) by {
                assert(xr[i] == xs[i + 1]);
            }
        }
        assert(values_fit(yr)) by {
            assert forall|i: int| 0 <= i < yr.len() implies value_fits(#[trigger] yr[i]) by {
                assert(yr[i] == ys[i + 1]);
            }
        }
        assert(decreases_to!(xs => xr)) by {
            vstd::seq::axiom_seq_subrange_decreases(xs, 1, xs.len() as int);
        }
        lemma_values_prefix_free(xr, yr, t1, t2);
    } else {
        assert(t1 =~= enc_values(xs) + t1);
        assert(t2 =~= enc_values(ys) + t2);
    }
}

/// Lists of equally many fields read back unambiguously.
pub proof fn lemma_fields_prefix_free(
    xs: Seq<(String, DataValue)>,
    ys: Seq<(String, DataValue)>,
    t1: Seq<u8>,
    t2: Seq<u8>,
)
    requires
        xs.len() == ys.len(),
        fields_fit(xs),
        fields_fit(ys),
        enc_fields(xs) + t1 == enc_fields(ys) + t2,
    ensures
        same_fields(xs, ys),
        t1 == t2,
    decreases xs,
{
    if xs.len() > 0 {
        let xr = xs.subrange(1, xs.len() as int);
        let yr = ys.subrange(1, ys.len() as int);
        assert(field_fits(xs[0]) && field_fits(ys[0]));
        let rest1 = enc_value(xs[0].1) + (enc_fields(xr) + t1);
        let rest2 = enc_value(ys[0].1) + (enc_fields(yr) + t2);
        assert(enc_str(xs[0].0@) + rest1 =~= enc_fields(xs) + t1);
        assert(enc_str(ys[0].0@) + rest2 =~= enc_fields(ys) + t2);
        lemma_str_prefix_free(xs[0].0@, ys[0].0@, rest1, rest2);
        assert(decreases_to!(xs => xs[0].1)) by {
            vstd::seq::axiom_seq_index_decreases(xs, 0);
        }
        lemma_value_prefix_free(xs[0].1, ys[0].1, enc_fields(xr) + t1, enc_fields(yr) + t2);
        assert(fields_fit(xr)) by {
            assert forall|i: int| 0 <= i < xr.len() implies field_fits(#[trigger] xr[i]) by {
                assert(xr[i] == xs[i + 1]);
            }
        }
        assert(fields_fit(yr)) by {
            assert forall|i: int| 0 <= i < yr.len() implies field_fits(#[trigger] yr[i]) by {
                assert(yr[i] == ys[i + 1]);
            }
        }
        assert(decreases_to!(xs => xr)) by {
            vstd::seq::axiom_seq_subrange_decreases(xs, 1, xs.len() as int);
        }
        lemma_fields_prefix_free(xr, yr, t1, t2);
    } else {
        assert(t1 =~= enc_fields(xs) + t1);
        assert(t2 =~= enc_fields(ys) + t2);
    }
}

} // verus!

verus! {

/// Encoding then decoding gives the value back: a value whose bytes are
/// those of `v` holds the same data as `v`, empty containers included.
pub proof fn lemma_value_round_trip(v: DataValue, back: DataValue)
    requires
        value_fits(v),
        value_fits(back),
        enc_value(back) == enc_value(v),
    ensures
        same_value(back, v),
{
    assert(enc_value(back) + Seq::<u8>::empty() =~= enc_value(v) + Seq::<u8>::empty());
    lemma_value_prefix_free(back, v, Seq::<u8>::empty(), Seq::<u8>::empty());
}

/// `from_bytes(to_bytes(d))` is `d`: `to_bytes` gives `enc_doc(d)`,
/// `from_bytes` succeeds on it with a document whose encoding it is, and
/// any such document holds the same id, version and fields as `d`.
pub proof fn lemma_document_round_trip(d: AuraDocument, back: AuraDocument)
    requires
        doc_fits(d),
        doc_fits(back),
        enc_doc(back) == enc_doc(d),
    ensures
        same_doc(back, d),
{
    let rest_b = le64(back.version) + le32(back.data@.len() as u32) + enc_fields(back.data@);
    let rest_d = le64(d.version) + le32(d.data@.len() as u32) + enc_fields(d.data@);
    assert(enc_str(back.id@) + rest_b =~= enc_doc(back));
    assert(enc_str(d.id@) + rest_d =~= enc_doc(d));
    lemma_str_prefix_free(back.id@, d.id@, rest_b, rest_d);
    assert(rest_b.subrange(0, 8) =~= le64(back.version));
    assert(rest_d.subrange(0, 8) =~= le64(d.version));
    lemma_le64_injective(back.version, d.version);
    assert(rest_b.subrange(8, 12) =~= le32(back.data@.len() as u32));
    assert(rest_d.subrange(8, 12) =~= le32(d.data@.len() as u32));
    lemma_le32_injective(back.data@.len() as u32, d.data@.len() as u32);
    assert(rest_b.subrange(12, rest_b.len() as int) =~= enc_fields(back.data@) + Seq::<u8>::empty());
    assert(rest_d.subrange(12, rest_d.len() as int) =~= enc_fields(d.data@) + Seq::<u8>::empty());
    assert(fields_fit(back.data@)) by {
        assert forall|k: int| 0 <= k < back.data@.len() implies field_fits(#[trigger] back.data@[k]) by {}
    }
    assert(fields_fit(d.data@)) by {
        assert forall|k: int| 0 <= k < d.data@.len() implies field_fits(#[trigger] d.data@[k]) by {}
    }
    lemma_fields_prefix_free(back.data@, d.data@, Seq::<u8>::empty(), Seq::<u8>::empty());
}

} // verus!

verus! {

/// The text form of a value: its kind and its content; binary content by
/// its length.
pub open spec fn value_text(v: DataValue) -> Seq<char>
    decreases v,
{
    match v {
        DataValue::Null => "Null"@,
        DataValue::Boolean(b) => if b {
            "Boolean(true)"@
        } else {
            "Boolean(false)"@
        },
        DataValue::Integer(i) => "Integer("@ + signed_decimal(i as int) + ")"@,
        DataValue::Float(bits) => "Float(bits "@ + decimal(bits as nat) + ")"@,
        DataValue::Text(s) => "Text(\""@ + s@ + "\")"@,
        DataValue::Binary(b) => "Binary("@ + decimal(b@.len()) + " bytes)"@,
        DataValue::Encrypted(b) => "Encrypted("@ + decimal(b@.len()) + " bytes)"@,
        DataValue::Array(items) => "["@ + values_text(items@) + "]"@,
        DataValue::Object(fields) => "{"@ + fields_text(fields@) + "}"@,
    }
}

/// The values' text forms, each after a comma but the first.
pub open spec fn values_text(s: Seq<DataValue>) -> Seq<char>
    decreases s,
{
    if s.len() == 0 {
        Seq::empty()
    } else {
        values_text(s.subrange(0, s.len() - 1)) + (if s.len() > 1 {
            ", "@
        } else {
            Seq::empty()
        }) + value_text(s[s.len() - 1])
    }
}

/// The fields as `"name": value`, each after a comma but the first.
pub open spec fn fields_text(s: Seq<(String, DataValue)>) -> Seq<char>
    decreases s,
{
    if s.len() == 0 {
        Seq::empty()
    } else {
        fields_text(s.subrange(0, s.len() - 1)) + (if s.len() > 1 {
            ", "@
        } else {
            Seq::empty()
        }) + "\""@ + s[s.len() - 1].0@ + "\": "@ + value_text(s[s.len() - 1].1)
    }
}

/// The text form of a document.
pub open spec fn doc_text(d: AuraDocument) -> Seq<char> {
    "AuraDocument { id: \""@ + d.id@ + "\", version: "@ + decimal(d.version as nat) + ", data: {"@
        + fields_text(d.data@) + "} }"@
}

/// Appends `b` to `a`.
fn append(a: String, b: &str) -> (r: String)
    ensures
        r@ == a@ + b@,
{
    concat(a.as_str(), b)
}

impl DataValue {
    /// The value's text form (see `value_text`).
    pub fn describe(&self) -> (r: String)
        ensures
            r@ == value_text(*self),
        decreases self,
    {
        let r = match self {
            DataValue::Null => "Null".to_owned(),
            DataValue::Boolean(b) => if *b {
                "Boolean(true)".to_owned()
            } else {
                "Boolean(false)".to_owned()
            },
            DataValue::Integer(i) => {
                let t = i64_text(*i);
                append(concat("Integer(", t.as_str()), ")")
            },
            DataValue::Float(bits) => {
                let t = u64_text(*bits);
                append(concat("Float(bits ", t.as_str()), ")")
            },
            DataValue::Text(s) => append(concat("Text(\"", s.as_str()), "\")"),
            DataValue::Binary(b) => {
                let t = u64_text(b.len() as u64);
                append(concat("Binary(", t.as_str()), " bytes)")
            },
            DataValue::Encrypted(b) => {
                let t = u64_text(b.len() as u64);
                append(concat("Encrypted(", t.as_str()), " bytes)")
            },
            DataValue::Array(items) => {
                let out = values_describe(items);
                append(concat("[", out.as_str()), "]")
            },
            DataValue::Object(fields) => {
                let out = fields_describe(fields);
                append(concat("{", out.as_str()), "}")
            },
        };
        proof {
            reveal_strlit("Null");
            reveal_strlit("Boolean(true)");
            reveal_strlit("Boolean(false)");
        }
        r
    }
}

/// The text form of a list of values (see `values_text`).
fn values_describe(items: &Vec<DataValue>) -> (r: String)
    ensures
        r@ == values_text(items@),
    decreases items,
{
    let mut out = String::new();
    let mut i: usize = 0;
    while i < items.len()
        invariant
            i <= items@.len(),
            out@ == values_text(items@.subrange(0, i as int)),
        decreases items@.len() - i,
    {
        proof {
            vstd::std_specs::vec::axiom_vec_index_decreases(*items, i as int);
            let s2 = items@.subrange(0, i + 1);
            assert(s2.subrange(0, s2.len() - 1) =~= items@.subrange(0, i as int));
            assert(s2[s2.len() - 1] == items@[i as int]);
        }
        if i > 0 {
            out = append(out, ", ");
        }
        let t = items[i].describe();
        out = append(out, t.as_str());
        i = i + 1;
    }
    assert(items@.subrange(0, i as int) =~= items@);
    out
}

/// The text form of a list of fields (see `fields_text`).
fn fields_describe(fields: &Vec<(String, DataValue)>) -> (r: String)
    ensures
        r@ == fields_text(fields@),
    decreases fields,
{
    let mut out = String::new();
    let mut i: usize = 0;
    while i < fields.len()
        invariant
            i <= fields@.len(),
            out@ == fields_text(fields@.subrange(0, i as int)),
        decreases fields@.len() - i,
    {
        proof {
            vstd::std_specs::vec::axiom_vec_index_decreases(*fields, i as int);
            assert(decreases_to!(*fields => fields[i as int].1));
            let s2 = fields@.subrange(0, i + 1);
            assert(s2.subrange(0, s2.len() - 1) =~= fields@.subrange(0, i as int));
            assert(s2[s2.len() - 1] == fields@[i as int]);
        }
        if i > 0 {
            out = append(out, ", ");
        }
        out = append(out, "\"");
        out = append(out, fields[i].0.as_str());
        out = append(out, "\": ");
        let t = fields[i].1.describe();
        out = append(out, t.as_str());
        i = i + 1;
    }
    assert(fields@.subrange(0, i as int) =~= fields@);
    out
}

impl AuraDocument {
    /// The document's text form (see `doc_text`).
    pub fn describe(&self) -> (r: String)
        ensures
            r@ == doc_text(*self),
    {
        let mut out = concat("AuraDocument { id: \"", self.id.as_str());
        out = append(out, "\", version: ");
        let v = u64_text(self.version);
        out = append(out, v.as_str());
        out = append(out, ", data: {");
        let f = fields_describe(&self.data);
        out = append(out, f.as_str());
        append(out, "} }")
    }
}

} // verus!
