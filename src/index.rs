//! The primary index: an ordered map from primary key to the page that holds
//! the document, persisted into page 0.
use crate::bytes::{
    enc_str, le32, lemma_le32_injective, lemma_str_prefix_free, lemma_u32_at_le32, push_str, push_u32,
    read_str, read_u32, str_fits,
};
use crate::error::StoreError;
use crate::order::{
    compare_keys, key_lt, key_seq, lemma_key_asymmetric, lemma_key_irreflexive,
    lemma_key_total, lemma_key_transitive, lower_bound, sorted,
};
use vstd::prelude::*;

verus! {

/// Entries `0..n` of an index, each as its length-prefixed key and its page
/// id.
pub open spec fn enc_entries(keys: Seq<Seq<char>>, pages: Seq<u32>, n: nat) -> Seq<u8>
    decreases n,
{
    if n == 0 {
        Seq::empty()
    } else {
        enc_entries(keys, pages, (n - 1) as nat) + enc_str(keys[n - 1]) + le32(pages[n - 1])
    }
}

/// The encoding of entries `0..n` looks only at those entries.
pub proof fn lemma_enc_entries_prefix(
    keys: Seq<Seq<char>>,
    pages: Seq<u32>,
    keys0: Seq<Seq<char>>,
    pages0: Seq<u32>,
    n: nat,
)
    requires
        n <= keys.len(),
        n <= pages.len(),
        n <= keys0.len(),
        n <= pages0.len(),
        keys.subrange(0, n as int) == keys0.subrange(0, n as int),
        pages.subrange(0, n as int) == pages0.subrange(0, n as int),
    ensures
        enc_entries(keys, pages, n) == enc_entries(keys0, pages0, n),
    decreases n,
{
    if n > 0 {
        assert(keys[n - 1] == keys.subrange(0, n as int)[n - 1]);
        assert(keys0[n - 1] == keys0.subrange(0, n as int)[n - 1]);
        assert(pages[n - 1] == pages.subrange(0, n as int)[n - 1]);
        assert(pages0[n - 1] == pages0.subrange(0, n as int)[n - 1]);
        assert(keys.subrange(0, n - 1) =~= keys.subrange(0, n as int).subrange(0, n - 1));
        assert(keys0.subrange(0, n - 1) =~= keys0.subrange(0, n as int).subrange(0, n - 1));
        assert(pages.subrange(0, n - 1) =~= pages.subrange(0, n as int).subrange(0, n - 1));
        assert(pages0.subrange(0, n - 1) =~= pages0.subrange(0, n as int).subrange(0, n - 1));
        lemma_enc_entries_prefix(keys, pages, keys0, pages0, (n - 1) as nat);
    }
}

/// The bytes of an index: the entry count, then the entries in key order.
pub open spec fn enc_index(keys: Seq<Seq<char>>, pages: Seq<u32>) -> Seq<u8> {
    le32(keys.len() as u32) + enc_entries(keys, pages, keys.len())
}

/// The key count and every key fit their 32-bit length prefixes.
pub open spec fn index_fits(keys: Seq<Seq<char>>) -> bool {
    keys.len() <= u32::MAX && forall|i: int| 0 <= i < keys.len() ==> str_fits(#[trigger] keys[i])
}

/// The entries `0..i` are encoded at the front of the entries `0..n`.
proof fn lemma_entries_front(keys: Seq<Seq<char>>, pages: Seq<u32>, i: nat, n: nat)
    requires
        i <= n,
    ensures
        enc_entries(keys, pages, i).len() <= enc_entries(keys, pages, n).len(),
        enc_entries(keys, pages, n).subrange(0, enc_entries(keys, pages, i).len() as int)
            == enc_entries(keys, pages, i),
    decreases n,
{
    if i < n {
        lemma_entries_front(keys, pages, i, (n - 1) as nat);
        let e = enc_entries(keys, pages, (n - 1) as nat);
        assert(enc_entries(keys, pages, n).subrange(0, e.len() as int) =~= e);
        assert(enc_entries(keys, pages, n).subrange(0, enc_entries(keys, pages, i).len() as int)
            =~= e.subrange(0, enc_entries(keys, pages, i).len() as int));
    } else {
        assert(enc_entries(keys, pages, n).subrange(0, enc_entries(keys, pages, n).len() as int)
            =~= enc_entries(keys, pages, n));
    }
}

/// Two lists of `n` entries with the same bytes agree on their first `i`
/// entries.
proof fn lemma_entries_injective(
    ka: Seq<Seq<char>>,
    pa: Seq<u32>,
    kb: Seq<Seq<char>>,
    pb: Seq<u32>,
    n: nat,
    i: nat,
)
    requires
        i <= n,
        n <= ka.len(),
        n <= kb.len(),
        n <= pa.len(),
        n <= pb.len(),
        forall|j: int| 0 <= j < n ==> str_fits(#[trigger] ka[j]),
        forall|j: int| 0 <= j < n ==> str_fits(#[trigger] kb[j]),
        enc_entries(ka, pa, n) == enc_entries(kb, pb, n),
    ensures
        forall|j: int| 0 <= j < i ==> ka[j] == kb[j] && pa[j] == pb[j],
        enc_entries(ka, pa, i).len() == enc_entries(kb, pb, i).len(),
    decreases i,
{
    if i > 0 {
        let h = (i - 1) as nat;
        lemma_entries_injective(ka, pa, kb, pb, n, h);
        lemma_entries_front(ka, pa, i, n);
        lemma_entries_front(kb, pb, i, n);
        let s = enc_entries(ka, pa, n);
        let l = enc_entries(ka, pa, h).len() as int;
        let ea = enc_entries(ka, pa, i);
        let eb = enc_entries(kb, pb, i);
        let ra = s.subrange(ea.len() as int, s.len() as int);
        let rb = s.subrange(eb.len() as int, s.len() as int);
        assert(s =~= ea + ra);
        assert(s =~= eb + rb);
        assert(s.subrange(l, s.len() as int) =~= enc_str(ka[h as int]) + (le32(pa[h as int]) + ra));
        assert(s.subrange(l, s.len() as int) =~= enc_str(kb[h as int]) + (le32(pb[h as int]) + rb));
        lemma_str_prefix_free(ka[h as int], kb[h as int], le32(pa[h as int]) + ra, le32(pb[h as int]) + rb);
        assert((le32(pa[h as int]) + ra).subrange(0, 4) =~= le32(pa[h as int]));
        assert((le32(pb[h as int]) + rb).subrange(0, 4) =~= le32(pb[h as int]));
        lemma_le32_injective(pa[h as int], pb[h as int]);
    }
}

/// Two well-formed indexes whose keys and pages agree map the same keys to
/// the same pages.
pub proof fn lemma_same_entries_same_map(a: PrimaryIndex, b: PrimaryIndex)
    requires
        a.wf(),
        b.wf(),
        key_seq(a.keys@) == key_seq(b.keys@),
        a.pages@ == b.pages@,
    ensures
        a@ == b@,
{
    assert(a.keys@.len() == key_seq(a.keys@).len());
    assert forall|k: Seq<char>| a@.contains_key(k) <==> b@.contains_key(k) by {
        if a.has_key(k) {
            let j = a.slot_of(k);
            assert(key_seq(a.keys@)[j] == key_seq(b.keys@)[j]);
            assert(b.keys@[j]@ == k);
        }
        if b.has_key(k) {
            let j = b.slot_of(k);
            assert(key_seq(a.keys@)[j] == key_seq(b.keys@)[j]);
            assert(a.keys@[j]@ == k);
        }
    }
    assert forall|k: Seq<char>| #[trigger] a@.contains_key(k) implies a@[k] == b@[k] by {
        let j = a.slot_of(k);
        a.lemma_entry(j);
        assert(key_seq(a.keys@)[j] == key_seq(b.keys@)[j]);
        b.lemma_entry(j);
    }
    assert(a@ =~= b@);
}

/// Two well-formed indexes with the same bytes map the same keys to the
/// same pages.
pub proof fn lemma_index_injective(a: PrimaryIndex, b: PrimaryIndex)
    requires
        a.wf(),
        b.wf(),
        index_fits(key_seq(a.keys@)),
        index_fits(key_seq(b.keys@)),
        enc_index(key_seq(a.keys@), a.pages@) == enc_index(key_seq(b.keys@), b.pages@),
    ensures
        key_seq(a.keys@) == key_seq(b.keys@),
        a.pages@ == b.pages@,
        a@ == b@,
{
    let ka = key_seq(a.keys@);
    let kb = key_seq(b.keys@);
    let s = enc_index(ka, a.pages@);
    assert(s.subrange(0, 4) =~= le32(ka.len() as u32));
    assert(enc_index(kb, b.pages@).subrange(0, 4) =~= le32(kb.len() as u32));
    lemma_le32_injective(ka.len() as u32, kb.len() as u32);
    assert(s.subrange(4, s.len() as int) =~= enc_entries(ka, a.pages@, ka.len()));
    assert(enc_index(kb, b.pages@).subrange(4, s.len() as int) =~= enc_entries(kb, b.pages@, kb.len()));
    lemma_entries_injective(ka, a.pages@, kb, b.pages@, ka.len(), ka.len());
    assert(ka =~= kb);
    assert(a.pages@ =~= b.pages@);
    lemma_same_entries_same_map(a, b);
}

/// Writing an index and reading it back gives the same map, clean.
pub proof fn lemma_index_round_trip(ix: PrimaryIndex, back: PrimaryIndex)
    requires
        ix.wf(),
        back.wf(),
        index_fits(key_seq(ix.keys@)),
        index_fits(key_seq(back.keys@)),
        enc_index(key_seq(back.keys@), back.pages@) == enc_index(key_seq(ix.keys@), ix.pages@),
    ensures
        back@ == ix@,
{
    lemma_index_injective(back, ix);
}

/// Maps primary key to page id. Keys are kept sorted, each once, with the
/// page of key `keys[i]` at `pages[i]`.
pub struct PrimaryIndex {
    pub keys: Vec<String>,
    pub pages: Vec<u32>,
    /// Changed since it was last written to page 0.
    pub dirty: bool,
}

impl View for PrimaryIndex {
    type V = Map<Seq<char>, u32>;

    open spec fn view(&self) -> Map<Seq<char>, u32> {
        Map::new(|k: Seq<char>| self.has_key(k), |k: Seq<char>| self.pages@[self.slot_of(k)])
    }
}

impl PrimaryIndex {
    pub open spec fn has_key(&self, k: Seq<char>) -> bool {
        exists|i: int| 0 <= i < self.keys@.len() && self.keys@[i]@ == k
    }

    /// The position that holds `k`.
    pub open spec fn slot_of(&self, k: Seq<char>) -> int {
        choose|i: int| 0 <= i < self.keys@.len() && self.keys@[i]@ == k
    }

    pub open spec fn wf(&self) -> bool {
        &&& self.keys@.len() == self.pages@.len()
        &&& sorted(key_seq(self.keys@))
    }

    pub proof fn lemma_entry(&self, i: int)
        requires
            self.wf(),
            0 <= i < self.keys@.len(),
        ensures
            self@.contains_key(self.keys@[i]@),
            self@[self.keys@[i]@] == self.pages@[i],
    {
        let k = self.keys@[i]@;
        assert(self@.contains_key(k));
        let j = self.slot_of(k);
        if j != i {
            if j < i {
                assert(key_lt(key_seq(self.keys@)[j], key_seq(self.keys@)[i]));
            } else {
                assert(key_lt(key_seq(self.keys@)[i], key_seq(self.keys@)[j]));
            }
            lemma_key_irreflexive(k);
        }
        assert(self@[k] == self.pages@[j]);
    }

    /// An empty, clean index.
    pub fn new() -> (r: PrimaryIndex)
        ensures
            r.wf(),
            r@ == Map::<Seq<char>, u32>::empty(),
            r.keys@.len() == 0,
            !r.dirty,
    {
        let r = PrimaryIndex { keys: Vec::new(), pages: Vec::new(), dirty: false };
        assert(r@ =~= Map::<Seq<char>, u32>::empty());
        r
    }

    /// Sets the page of `key`, replacing an earlier one, and marks the index
    /// dirty.
    pub fn insert(&mut self, key: String, page_id: u32)
        requires
            old(self).wf(),
        ensures
            final(self).wf(),
            final(self)@ == old(self)@.insert(key@, page_id),
            final(self).dirty,
    {
        let ghost k = key@;
        let p = lower_bound(&self.keys, key.as_str());
        if p < self.keys.len() && compare_keys(self.keys[p].as_str(), key.as_str()) == 0 {
            self.pages.set(p, page_id);
            self.dirty = true;
            proof {
                assert forall|q: Seq<char>| #![auto] final(self)@.contains_key(q) <==> old(self)@.insert(k, page_id).contains_key(q) by {
                    if old(self)@.insert(k, page_id).contains_key(q) && q != k {
                        let j = choose|j: int| 0 <= j < old(self).keys@.len() && old(self).keys@[j]@ == q;
                        assert(final(self).keys@[j]@ == q);
                    }
                }
                assert forall|q: Seq<char>| #![auto] final(self)@.contains_key(q) implies final(self)@[q] == old(self)@.insert(k, page_id)[q] by {
                    let j = choose|j: int| 0 <= j < final(self).keys@.len() && final(self).keys@[j]@ == q;
                    self.lemma_entry(j);
                    old(self).lemma_entry(j);
                    if q == k && j != p {
                        if j < p {
                            assert(key_lt(key_seq(old(self).keys@)[j], key_seq(old(self).keys@)[p as int]));
                        } else {
                            assert(key_lt(key_seq(old(self).keys@)[p as int], key_seq(old(self).keys@)[j]));
                        }
                        lemma_key_irreflexive(k);
                    }
                }
                assert(final(self)@ =~= old(self)@.insert(k, page_id));
            }
        } else {
            proof {
                if p < self.keys@.len() {
                    lemma_key_total(self.keys@[p as int]@, k);
                }
            }
            self.keys.insert(p, key);
            self.pages.insert(p, page_id);
            self.dirty = true;
            proof {
                let ok = key_seq(old(self).keys@);
                let nk = key_seq(final(self).keys@);
                assert forall|i: int| 0 <= i < nk.len() implies #[trigger] nk[i] == if i < p {
                    ok[i]
                } else if i == p {
                    k
                } else {
                    ok[i - 1]
                } by {}
                assert forall|i: int, j: int| 0 <= i < j < nk.len() implies key_lt(nk[i], nk[j]) by {
                    if j == p {
                    } else if i == p {
                        if j > p + 1 {
                            assert(key_lt(ok[p as int], ok[j - 1]));
                            lemma_key_transitive(k, ok[p as int], ok[j - 1]);
                        }
                    } else if i < p && j > p {
                        if p < ok.len() {
                            assert(key_lt(k, ok[j - 1]) || k == ok[j - 1]) by {
                                if j - 1 > p {
                                    assert(key_lt(ok[p as int], ok[j - 1]));
                                    lemma_key_transitive(k, ok[p as int], ok[j - 1]);
                                }
                            }
                        }
                        if k == ok[j - 1] {
                        } else {
                            lemma_key_transitive(ok[i], k, ok[j - 1]);
                        }
                    } else if i < p {
                        assert(key_lt(ok[i], ok[j]));
                    } else {
                        assert(key_lt(ok[i - 1], ok[j - 1]));
                    }
                }
                assert forall|q: Seq<char>| #![auto] final(self)@.contains_key(q) <==> old(self)@.insert(k, page_id).contains_key(q) by {
                    if final(self)@.contains_key(q) {
                        let j = choose|j: int| 0 <= j < final(self).keys@.len() && final(self).keys@[j]@ == q;
                        assert(nk[j] == q);
                        if j < p {
                            assert(old(self).keys@[j]@ == q);
                        } else if j > p {
                            assert(old(self).keys@[j - 1]@ == q);
                        }
                    }
                    if old(self)@.insert(k, page_id).contains_key(q) && q != k {
                        let j = choose|j: int| 0 <= j < old(self).keys@.len() && old(self).keys@[j]@ == q;
                        if j < p {
                            assert(nk[j] == q);
                        } else {
                            assert(nk[j + 1] == q);
                        }
                    }
                    if q == k {
                        assert(nk[p as int] == q);
                    }
                }
                assert forall|q: Seq<char>| #![auto] final(self)@.contains_key(q) implies final(self)@[q] == old(self)@.insert(k, page_id)[q] by {
                    let j = choose|j: int| 0 <= j < final(self).keys@.len() && final(self).keys@[j]@ == q;
                    assert(nk[j] == q);
                    self.lemma_entry(j);
                    if j < p {
                        old(self).lemma_entry(j);
                        assert(q != k) by { lemma_key_irreflexive(k); }
                    } else if j > p {
                        old(self).lemma_entry(j - 1);
                        assert(q != k) by {
                            assert(key_lt(nk[p as int], nk[j]));
                            lemma_key_irreflexive(k);
                        }
                    }
                }
                assert(final(self)@ =~= old(self)@.insert(k, page_id));
            }
        }
    }

    /// The bytes of the index (see `enc_index`). Fails with a serialisation
    /// error when a key or the entry count does not fit a 32-bit length.
    pub fn to_bytes(&self) -> (r: Result<Vec<u8>, StoreError>)
        requires
            self.wf(),
        ensures
            r is Ok <==> self.keys@.len() <= u32::MAX && forall|i: int|
                0 <= i < self.keys@.len() ==> str_fits(#[trigger] self.keys@[i]@),
            r matches Ok(b) ==> b@ == enc_index(key_seq(self.keys@), self.pages@),
            r matches Err(e) ==> e is Serialization,
    {
        if self.keys.len() > u32::MAX as usize {
            return Err(StoreError::Serialization("Index serialization failed".to_owned()));
        }
        let ghost ks = key_seq(self.keys@);
        let mut out: Vec<u8> = Vec::new();
        push_u32(&mut out, self.keys.len() as u32);
        let mut i: usize = 0;
        while i < self.keys.len()
            invariant
                i <= self.keys@.len() <= u32::MAX,
                self.wf(),
                ks == key_seq(self.keys@),
                out@ == le32(self.keys@.len() as u32) + enc_entries(ks, self.pages@, i as nat),
                forall|j: int| 0 <= j < i ==> str_fits(#[trigger] self.keys@[j]@),
            decreases self.keys@.len() - i,
        {
            if self.keys[i].as_str().as_bytes().len() > u32::MAX as usize {
                return Err(StoreError::Serialization("Index serialization failed".to_owned()));
            }
            push_str(&mut out, self.keys[i].as_str());
            push_u32(&mut out, self.pages[i]);
            i = i + 1;
            assert(out@ =~= le32(self.keys@.len() as u32) + enc_entries(ks, self.pages@, i as nat));
        }
        Ok(out)
    }

    /// The index that `enc_index` bytes describe, clean. Fails with a
    /// serialisation error exactly on bytes that are not the encoding of a
    /// well-formed index whose lengths fit; on the encoding of `ix` it gives
    /// `ix`'s map.
    #[verifier::rlimit(60)]
    pub fn from_bytes(bytes: &[u8]) -> (r: Result<PrimaryIndex, StoreError>)
        ensures
            r matches Ok(ix) ==> ix.wf() && !ix.dirty && index_fits(key_seq(ix.keys@)) && enc_index(
                key_seq(ix.keys@),
                ix.pages@,
            ) == bytes@,
            r matches Err(e) ==> e is Serialization,
            forall|ix: PrimaryIndex|
                ix.wf() && index_fits(key_seq(ix.keys@)) && enc_index(key_seq(ix.keys@), ix.pages@)
                    == bytes@ ==> (r matches Ok(q) && q@ == ix@),
    {
        let ghost ok = exists|ix: PrimaryIndex|
            ix.wf() && index_fits(key_seq(ix.keys@)) && enc_index(key_seq(ix.keys@), ix.pages@) == bytes@;
        let ghost want = choose|ix: PrimaryIndex|
            ix.wf() && index_fits(key_seq(ix.keys@)) && enc_index(key_seq(ix.keys@), ix.pages@) == bytes@;
        let ghost wk = key_seq(want.keys@);
        let ghost wp = want.pages@;
        let ghost wn = wk.len();
        if bytes.len() < 4 {
            return Err(StoreError::Serialization("Index corruption".to_owned()));
        }
        let n = read_u32(bytes, 0);
        proof {
            lemma_u32_at_le32(bytes@, 0);
            if ok {
                assert(bytes@.subrange(0, 4) =~= le32(wn as u32));
                lemma_le32_injective(n, wn as u32);
                assert(bytes@.subrange(4, bytes@.len() as int) =~= enc_entries(wk, wp, wn));
            }
        }
        let mut keys: Vec<String> = Vec::new();
        let mut pages: Vec<u32> = Vec::new();
        let mut at: usize = 4;
        let mut i: u32 = 0;
        while i < n
            invariant
                4 <= at <= bytes@.len(),
                i <= n,
                keys@.len() == i,
                pages@.len() == i,
                sorted(key_seq(keys@)),
                le32(n) == bytes@.subrange(0, 4),
                bytes@.subrange(0, at as int) == le32(n) + enc_entries(key_seq(keys@), pages@, i as nat),
                wk == key_seq(want.keys@),
                wp == want.pages@,
                wn == wk.len(),
                ok == exists|ix: PrimaryIndex|
                    ix.wf() && index_fits(key_seq(ix.keys@)) && enc_index(key_seq(ix.keys@), ix.pages@) == bytes@,
                ok ==> want.wf() && index_fits(wk) && enc_index(wk, wp) == bytes@,
                ok ==> want.wf() && index_fits(wk) && n == wn && wp.len() == wn
                    && bytes@.subrange(4, bytes@.len() as int) == enc_entries(wk, wp, wn),
                ok ==> forall|j: int| 0 <= j < i ==> key_seq(keys@)[j] == wk[j] && pages@[j] == wp[j],
                forall|j: int| 0 <= j < i ==> str_fits(#[trigger] key_seq(keys@)[j]),
            decreases n - i,
        {
            proof {
                if ok {
                    let pk = key_seq(keys@);
                    assert(wk.len() == wn);
                    assert(pk.subrange(0, i as int) =~= wk.subrange(0, i as int));
                    assert(pages@.subrange(0, i as int) =~= wp.subrange(0, i as int));
                    lemma_enc_entries_prefix(pk, pages@, wk, wp, i as nat);
                    lemma_entries_front(wk, wp, (i + 1) as nat, wn);
                    let e = bytes@.subrange(4, bytes@.len() as int);
                    let ei = enc_entries(wk, wp, i as nat);
                    let item = enc_str(wk[i as int]) + le32(wp[i as int]);
                    assert(bytes@.subrange(0, at as int).len() == at);
                    assert(at == 4 + ei.len());
                    assert(enc_entries(wk, wp, (i + 1) as nat) =~= ei + item);
                    assert(e.subrange(0, (ei + item).len() as int) == ei + item);
                    assert(at + item.len() <= bytes@.len());
                    assert(bytes@.subrange(at as int, at + enc_str(wk[i as int]).len()) =~= e.subrange(
                        ei.len() as int,
                        ei.len() + enc_str(wk[i as int]).len() as int,
                    ));
                    assert(e.subrange(ei.len() as int, ei.len() + enc_str(wk[i as int]).len() as int) =~=
                        (ei + item).subrange(ei.len() as int, ei.len() + enc_str(wk[i as int]).len() as int));
                    assert((ei + item).subrange(ei.len() as int, ei.len() + enc_str(wk[i as int]).len() as int)
                        =~= enc_str(wk[i as int]));
                    assert(bytes@.subrange(at as int, at + enc_str(wk[i as int]).len()) == enc_str(wk[i as int]));
                    assert(str_fits(wk[i as int]));
                }
            }
            let (k, next) = match read_str(bytes, at) {
                Some(p) => p,
                None => {
                    return Err(StoreError::Serialization("Index corruption".to_owned()));
                },
            };
            proof {
                if ok {
                    let ei = enc_entries(wk, wp, i as nat);
                    let e = bytes@.subrange(4, bytes@.len() as int);
                    let item = enc_str(wk[i as int]) + le32(wp[i as int]);
                    let t1 = bytes@.subrange(next as int, bytes@.len() as int);
                    let t2 = bytes@.subrange(at + enc_str(wk[i as int]).len(), bytes@.len() as int);
                    assert(enc_str(k@) + t1 =~= bytes@.subrange(at as int, bytes@.len() as int));
                    assert(enc_str(wk[i as int]) + t2 =~= bytes@.subrange(at as int, bytes@.len() as int));
                    lemma_str_prefix_free(k@, wk[i as int], t1, t2);
                    assert(bytes@.subrange(next as int, next + 4) =~= e.subrange(
                        ei.len() + enc_str(wk[i as int]).len() as int,
                        ei.len() + item.len() as int,
                    ));
                    assert(e.subrange(ei.len() + enc_str(wk[i as int]).len() as int, ei.len() + item.len() as int) =~=
                        (ei + item).subrange(ei.len() + enc_str(wk[i as int]).len() as int, ei.len() + item.len() as int));
                    if i > 0 {
                        assert(key_lt(wk[i - 1], wk[i as int]));
                        assert(keys@[i - 1]@ == key_seq(keys@)[i - 1]);
                    }
                }
            }
            if bytes.len() - next < 4 {
                return Err(StoreError::Serialization("Index corruption".to_owned()));
            }
            if keys.len() > 0 && compare_keys(keys[keys.len() - 1].as_str(), k.as_str()) >= 0 {
                return Err(StoreError::Serialization("Index corruption".to_owned()));
            }
            let page = read_u32(bytes, next);
            let ghost old_at = at;
            let ghost old_keys = key_seq(keys@);
            let ghost old_pages = pages@;
            proof {
                lemma_u32_at_le32(bytes@, next as int);
                if ok {
                    lemma_le32_injective(page, wp[i as int]);
                }
            }
            keys.push(k);
            pages.push(page);
            proof {
                let nk = key_seq(keys@);
                assert(nk.subrange(0, i as int) =~= old_keys);
                assert(old_keys.subrange(0, i as int) =~= old_keys);
                assert(old_pages.subrange(0, i as int) =~= old_pages);
                assert(pages@.subrange(0, i as int) =~= old_pages);
                lemma_enc_entries_prefix(nk, pages@, old_keys, old_pages, i as nat);
                assert forall|a: int, b: int| 0 <= a < b < nk.len() implies key_lt(nk[a], nk[b]) by {
                    if b == i {
                        if a < i - 1 {
                            assert(key_lt(old_keys[a], old_keys[i - 1]));
                            lemma_key_transitive(nk[a], nk[i - 1], nk[b]);
                        }
                    } else {
                        assert(key_lt(old_keys[a], old_keys[b]));
                    }
                }
                assert forall|j: int| 0 <= j < i + 1 implies str_fits(#[trigger] nk[j]) by {
                    if j < i {
                        assert(nk[j] == old_keys[j]);
                    }
                }
                if ok {
                    assert forall|j: int| 0 <= j < i + 1 implies nk[j] == wk[j] && pages@[j] == wp[j] by {
                        if j < i {
                            assert(nk[j] == old_keys[j]);
                        }
                    }
                }
            }
            at = next + 4;
            i = i + 1;
            assert(bytes@.subrange(0, at as int) =~= bytes@.subrange(0, old_at as int)
                + bytes@.subrange(old_at as int, next as int) + bytes@.subrange(next as int, at as int));
            assert(bytes@.subrange(0, at as int) =~= le32(n) + enc_entries(key_seq(keys@), pages@, i as nat));
        }
        proof {
            if ok {
                assert(key_seq(keys@).subrange(0, n as int) =~= wk.subrange(0, n as int));
                assert(pages@.subrange(0, n as int) =~= wp.subrange(0, n as int));
                lemma_enc_entries_prefix(key_seq(keys@), pages@, wk, wp, n as nat);
                assert(bytes@ =~= bytes@.subrange(0, 4) + bytes@.subrange(4, bytes@.len() as int));
            }
        }
        if at != bytes.len() {
            return Err(StoreError::Serialization("Index corruption".to_owned()));
        }
        assert(bytes@.subrange(0, at as int) =~= bytes@);
        let ix = PrimaryIndex { keys, pages, dirty: false };
        proof {
            if ok {
                assert(key_seq(ix.keys@) =~= wk);
                assert(ix.pages@ =~= wp);
                lemma_same_entries_same_map(ix, want);
            }
            assert forall|w: PrimaryIndex|
                w.wf() && index_fits(key_seq(w.keys@)) && enc_index(key_seq(w.keys@), w.pages@)
                    == bytes@ implies ix@ == w@ by {
                lemma_index_injective(w, want);
            }
        }
        Ok(ix)
    }

    /// The page of `key`, if it has one.
    pub fn get(&self, key: &str) -> (r: Option<u32>)
        requires
            self.wf(),
        ensures
            r == (if self@.contains_key(key@) {
                Some(self@[key@])
            } else {
                None::<u32>
            }),
    {
        let p = lower_bound(&self.keys, key);
        if p < self.keys.len() && compare_keys(self.keys[p].as_str(), key) == 0 {
            proof { self.lemma_entry(p as int); }
            Some(self.pages[p])
        } else {
            proof {
                if self@.contains_key(key@) {
                    let j = choose|j: int| 0 <= j < self.keys@.len() && self.keys@[j]@ == key@;
                    lemma_key_irreflexive(key@);
                    if j > p {
                        assert(key_lt(key_seq(self.keys@)[p as int], key_seq(self.keys@)[j]));
                        lemma_key_total(self.keys@[p as int]@, key@);
                        lemma_key_asymmetric(self.keys@[p as int]@, key@);
                    }
                }
            }
            None
        }
    }
}

impl Default for PrimaryIndex {
    /// An empty, clean index.
    fn default() -> (r: PrimaryIndex)
        ensures
            r.wf(),
            r@ == Map::<Seq<char>, u32>::empty(),
            !r.dirty,
    {
        PrimaryIndex::new()
    }
}

} // verus!
