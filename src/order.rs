//! The order of keys: byte-wise lexicographic order of their UTF-8 encoding,
//! which is the order of `str`'s comparison operators.
use vstd::prelude::*;

verus! {

broadcast use vstd::utf8::encode_utf8_decode_utf8;

/// `a` sorts strictly before `b`.
pub open spec fn lex_lt(a: Seq<u8>, b: Seq<u8>) -> bool
    decreases a.len(),
{
    if a.len() == 0 {
        b.len() > 0
    } else if b.len() == 0 {
        false
    } else if a[0] != b[0] {
        a[0] < b[0]
    } else {
        lex_lt(a.drop_first(), b.drop_first())
    }
}

/// The bytes of a key.
pub open spec fn key_bytes(k: Seq<char>) -> Seq<u8> {
    vstd::utf8::encode_utf8(k)
}

/// Key `a` sorts strictly before key `b`.
pub open spec fn key_lt(a: Seq<char>, b: Seq<char>) -> bool {
    lex_lt(key_bytes(a), key_bytes(b))
}

pub proof fn lemma_lex_irreflexive(a: Seq<u8>)
    ensures
        !lex_lt(a, a),
    decreases a.len(),
{
    if a.len() > 0 {
        lemma_lex_irreflexive(a.drop_first());
    }
}

pub proof fn lemma_lex_transitive(a: Seq<u8>, b: Seq<u8>, c: Seq<u8>)
    requires
        lex_lt(a, b),
        lex_lt(b, c),
    ensures
        lex_lt(a, c),
    decreases a.len(),
{
    if a.len() > 0 && b.len() > 0 && c.len() > 0 && a[0] == b[0] && b[0] == c[0] {
        lemma_lex_transitive(a.drop_first(), b.drop_first(), c.drop_first());
    }
}

pub proof fn lemma_lex_total(a: Seq<u8>, b: Seq<u8>)
    ensures
        a == b || lex_lt(a, b) || lex_lt(b, a),
    decreases a.len(),
{
    if a.len() > 0 && b.len() > 0 && a[0] == b[0] {
        lemma_lex_total(a.drop_first(), b.drop_first());
        if a.drop_first() == b.drop_first() {
            assert(a =~= seq![a[0]] + a.drop_first());
            assert(b =~= seq![b[0]] + b.drop_first());
        }
    } else if a.len() == 0 && b.len() == 0 {
        assert(a =~= b);
    }
}

pub proof fn lemma_lex_asymmetric(a: Seq<u8>, b: Seq<u8>)
    requires
        lex_lt(a, b),
    ensures
        !lex_lt(b, a),
{
    if lex_lt(b, a) {
        lemma_lex_transitive(a, b, a);
        lemma_lex_irreflexive(a);
    }
}

pub proof fn lemma_key_irreflexive(a: Seq<char>)
    ensures
        !key_lt(a, a),
{
    lemma_lex_irreflexive(key_bytes(a));
}

pub proof fn lemma_key_transitive(a: Seq<char>, b: Seq<char>, c: Seq<char>)
    requires
        key_lt(a, b),
        key_lt(b, c),
    ensures
        key_lt(a, c),
{
    lemma_lex_transitive(key_bytes(a), key_bytes(b), key_bytes(c));
}

pub proof fn lemma_key_total(a: Seq<char>, b: Seq<char>)
    ensures
        a == b || key_lt(a, b) || key_lt(b, a),
{
    lemma_lex_total(key_bytes(a), key_bytes(b));
    if key_bytes(a) == key_bytes(b) {
        assert(vstd::utf8::decode_utf8(key_bytes(a)) == a);
        assert(vstd::utf8::decode_utf8(key_bytes(b)) == b);
    }
}

pub proof fn lemma_key_asymmetric(a: Seq<char>, b: Seq<char>)
    requires
        key_lt(a, b),
    ensures
        !key_lt(b, a),
{
    lemma_lex_asymmetric(key_bytes(a), key_bytes(b));
}

/// The order of two byte strings: -1, 0 or 1.
pub fn compare_bytes(a: &[u8], b: &[u8]) -> (r: i8)
    ensures
        r == 0 <==> a@ == b@,
        r < 0 <==> lex_lt(a@, b@),
        r > 0 <==> lex_lt(b@, a@),
{
    let mut i: usize = 0;
    assert(a@.subrange(0, a@.len() as int) =~= a@);
    assert(b@.subrange(0, b@.len() as int) =~= b@);
    while i < a.len() && i < b.len() && a[i] == b[i]
        invariant
            i <= a@.len(),
            i <= b@.len(),
            a@.subrange(0, i as int) == b@.subrange(0, i as int),
            lex_lt(a@, b@) == lex_lt(a@.subrange(i as int, a@.len() as int), b@.subrange(i as int, b@.len() as int)),
            lex_lt(b@, a@) == lex_lt(b@.subrange(i as int, b@.len() as int), a@.subrange(i as int, a@.len() as int)),
        decreases a@.len() - i,
    {
        let ghost sa = a@.subrange(i as int, a@.len() as int);
        let ghost sb = b@.subrange(i as int, b@.len() as int);
        assert(sa.drop_first() =~= a@.subrange(i + 1, a@.len() as int));
        assert(sb.drop_first() =~= b@.subrange(i + 1, b@.len() as int));
        i = i + 1;
        assert(a@.subrange(0, i as int) =~= a@.subrange(0, i - 1) + seq![a@[i - 1]]);
        assert(b@.subrange(0, i as int) =~= b@.subrange(0, i - 1) + seq![b@[i - 1]]);
    }
    let ghost sa = a@.subrange(i as int, a@.len() as int);
    let ghost sb = b@.subrange(i as int, b@.len() as int);
    if i == a.len() && i == b.len() {
        assert(a@ =~= a@.subrange(0, i as int));
        assert(b@ =~= b@.subrange(0, i as int));
        proof { lemma_lex_irreflexive(a@); }
        0
    } else if i == a.len() {
        assert(a@ =~= a@.subrange(0, i as int));
        assert(a@.len() != b@.len());
        -1
    } else if i == b.len() {
        assert(b@ =~= b@.subrange(0, i as int));
        assert(a@.len() != b@.len());
        1
    } else if a[i] < b[i] {
        assert(a@[i as int] != b@[i as int]);
        -1
    } else {
        assert(a@[i as int] != b@[i as int]);
        1
    }
}

/// The order of two keys: -1, 0 or 1.
pub fn compare_keys(a: &str, b: &str) -> (r: i8)
    ensures
        r == 0 <==> a@ == b@,
        r < 0 <==> key_lt(a@, b@),
        r > 0 <==> key_lt(b@, a@),
{
    let r = compare_bytes(a.as_bytes(), b.as_bytes());
    proof {
        if key_bytes(a@) == key_bytes(b@) {
            assert(vstd::utf8::decode_utf8(key_bytes(a@)) == a@);
            assert(vstd::utf8::decode_utf8(key_bytes(b@)) == b@);
        }
    }
    r
}

} // verus!

verus! {

/// The keys of a vector of strings, as character sequences.
pub open spec fn key_seq(v: Seq<String>) -> Seq<Seq<char>> {
    v.map_values(|s: String| s@)
}

/// Keys strictly increasing.
pub open spec fn sorted(keys: Seq<Seq<char>>) -> bool {
    forall|i: int, j: int| 0 <= i < j < keys.len() ==> key_lt(keys[i], keys[j])
}

/// The first position whose key is not before `key`: every key before it
/// sorts before `key`, none from it on does.
pub fn lower_bound(keys: &Vec<String>, key: &str) -> (r: usize)
    requires
        sorted(key_seq(keys@)),
    ensures
        r <= keys@.len(),
        forall|i: int| 0 <= i < r ==> key_lt(#[trigger] keys@[i]@, key@),
        forall|i: int| r <= i < keys@.len() ==> !key_lt(#[trigger] keys@[i]@, key@),
{
    let mut i: usize = 0;
    while i < keys.len()
        invariant
            i <= keys@.len(),
            sorted(key_seq(keys@)),
            forall|j: int| 0 <= j < i ==> key_lt(#[trigger] keys@[j]@, key@),
        decreases keys@.len() - i,
    {
        if compare_keys(keys[i].as_str(), key) >= 0 {
            assert forall|j: int| i <= j < keys@.len() implies !key_lt(#[trigger] keys@[j]@, key@) by {
                if j > i {
                    assert(key_lt(key_seq(keys@)[i as int], key_seq(keys@)[j]));
                    if key_lt(keys@[j]@, key@) {
                        if keys@[i as int]@ == key@ {
                            lemma_key_asymmetric(keys@[j]@, key@);
                        } else {
                            lemma_key_transitive(keys@[i as int]@, keys@[j]@, key@);
                            lemma_key_asymmetric(keys@[i as int]@, key@);
                        }
                    }
                } else if keys@[j]@ == key@ {
                    lemma_key_irreflexive(key@);
                } else {
                    lemma_key_asymmetric(key@, keys@[j]@);
                }
            }
            return i;
        }
        i = i + 1;
    }
    i
}

/// The first position whose key sorts after `key`: no key before it sorts
/// after `key`, every key from it on does.
pub fn upper_bound(keys: &Vec<String>, key: &str) -> (r: usize)
    requires
        sorted(key_seq(keys@)),
    ensures
        r <= keys@.len(),
        forall|i: int| 0 <= i < r ==> !key_lt(key@, #[trigger] keys@[i]@),
        forall|i: int| r <= i < keys@.len() ==> key_lt(key@, #[trigger] keys@[i]@),
{
    let mut i: usize = 0;
    while i < keys.len()
        invariant
            i <= keys@.len(),
            sorted(key_seq(keys@)),
            forall|j: int| 0 <= j < i ==> !key_lt(key@, #[trigger] keys@[j]@),
        decreases keys@.len() - i,
    {
        if compare_keys(key, keys[i].as_str()) < 0 {
            assert forall|j: int| i <= j < keys@.len() implies key_lt(key@, #[trigger] keys@[j]@) by {
                if j > i {
                    assert(key_lt(key_seq(keys@)[i as int], key_seq(keys@)[j]));
                    lemma_key_transitive(key@, keys@[i as int]@, keys@[j]@);
                }
            }
            return i;
        }
        i = i + 1;
    }
    i
}

} // verus!
