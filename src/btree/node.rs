//! A node of the on-disk B-tree and its byte encoding.
use crate::bytes::{
    enc_str, le32, lemma_le32_injective, lemma_str_prefix_free, lemma_u32_at_le32, push_str,
    push_u32, read_str, read_u32, str_fits,
};
use crate::error::StoreError;
use crate::order::{compare_keys, key_lt, key_seq, lemma_key_transitive, sorted};
use vstd::prelude::*;

verus! {

/// Most keys a node holds; a node with this many is full.
pub const NODE_CAPACITY: usize = 50;

#[derive(Debug, Clone, Copy, PartialEq, Eq, Structural)]
pub enum NodeType {
    Internal,
    Leaf,
}

/// One node of the tree, stored in its own page. A leaf's children are data
/// page ids, one per key; an internal node's children are node page ids, one
/// more than its keys.
#[derive(Debug)]
pub struct BTreeNode {
    /// The page that holds this node.
    pub id: u32,
    pub parent: Option<u32>,
    pub node_type: NodeType,
    pub keys: Vec<String>,
    pub children: Vec<u32>,
}

pub struct NodeView {
    pub id: u32,
    pub parent: Option<u32>,
    pub node_type: NodeType,
    pub keys: Seq<Seq<char>>,
    pub children: Seq<u32>,
}

impl View for BTreeNode {
    type V = NodeView;

    open spec fn view(&self) -> NodeView {
        NodeView {
            id: self.id,
            parent: self.parent,
            node_type: self.node_type,
            keys: key_seq(self.keys@),
            children: self.children@,
        }
    }
}

impl NodeView {
    /// Child count matches the kind and the node is within capacity.
    pub open spec fn shape_ok(&self) -> bool {
        &&& self.keys.len() <= NODE_CAPACITY
        &&& match self.node_type {
            NodeType::Leaf => self.children.len() == self.keys.len(),
            NodeType::Internal => self.children.len() == self.keys.len() + 1,
        }
    }

    /// Shape and strictly increasing keys.
    pub open spec fn wf(&self) -> bool {
        self.shape_ok() && sorted(self.keys)
    }

    pub open spec fn is_full(&self) -> bool {
        self.keys.len() >= NODE_CAPACITY
    }
}

/// Keys `0..n`, each length-prefixed.
pub open spec fn enc_keys(keys: Seq<Seq<char>>, n: nat) -> Seq<u8>
    decreases n,
{
    if n == 0 {
        Seq::empty()
    } else {
        enc_keys(keys, (n - 1) as nat) + enc_str(keys[n - 1])
    }
}

/// Ids `0..n`, four little-endian bytes each.
pub open spec fn enc_ids(ids: Seq<u32>, n: nat) -> Seq<u8>
    decreases n,
{
    if n == 0 {
        Seq::empty()
    } else {
        enc_ids(ids, (n - 1) as nat) + le32(ids[n - 1])
    }
}

pub open spec fn enc_parent(p: Option<u32>) -> Seq<u8> {
    match p {
        None => seq![0u8],
        Some(x) => seq![1u8] + le32(x),
    }
}

pub open spec fn kind_byte(t: NodeType) -> u8 {
    match t {
        NodeType::Internal => 0,
        NodeType::Leaf => 1,
    }
}

/// The bytes of a node: id, parent (a flag byte, then the id if present),
/// kind byte (0 internal, 1 leaf), key count and keys, child count and
/// children.
pub open spec fn enc_node(n: NodeView) -> Seq<u8> {
    le32(n.id) + enc_parent(n.parent) + seq![kind_byte(n.node_type)] + le32(n.keys.len() as u32)
        + enc_keys(n.keys, n.keys.len()) + le32(n.children.len() as u32) + enc_ids(
        n.children,
        n.children.len(),
    )
}

proof fn lemma_enc_keys_push(keys: Seq<Seq<char>>, k: Seq<char>)
    ensures
        enc_keys(keys.push(k), keys.len() + 1) == enc_keys(keys, keys.len()) + enc_str(k),
{
    lemma_enc_keys_prefix(keys.push(k), keys, keys.len());
}

proof fn lemma_enc_keys_prefix(a: Seq<Seq<char>>, b: Seq<Seq<char>>, n: nat)
    requires
        n <= a.len(),
        n <= b.len(),
        forall|i: int| 0 <= i < n ==> a[i] == b[i],
    ensures
        enc_keys(a, n) == enc_keys(b, n),
    decreases n,
{
    if n > 0 {
        lemma_enc_keys_prefix(a, b, (n - 1) as nat);
    }
}

proof fn lemma_enc_ids_prefix(a: Seq<u32>, b: Seq<u32>, n: nat)
    requires
        n <= a.len(),
        n <= b.len(),
        forall|i: int| 0 <= i < n ==> a[i] == b[i],
    ensures
        enc_ids(a, n) == enc_ids(b, n),
    decreases n,
{
    if n > 0 {
        lemma_enc_ids_prefix(a, b, (n - 1) as nat);
    }
}

proof fn lemma_keys_front(keys: Seq<Seq<char>>, i: nat, n: nat)
    requires
        i <= n,
    ensures
        enc_keys(keys, i).len() <= enc_keys(keys, n).len(),
        enc_keys(keys, n).subrange(0, enc_keys(keys, i).len() as int) == enc_keys(keys, i),
    decreases n,
{
    if i < n {
        lemma_keys_front(keys, i, (n - 1) as nat);
        let e = enc_keys(keys, (n - 1) as nat);
        assert(enc_keys(keys, n).subrange(0, e.len() as int) =~= e);
        assert(enc_keys(keys, n).subrange(0, enc_keys(keys, i).len() as int) =~= e.subrange(0, enc_keys(keys, i).len() as int));
    } else {
        assert(enc_keys(keys, n).subrange(0, enc_keys(keys, n).len() as int) =~= enc_keys(keys, n));
    }
}

proof fn lemma_ids_len(ids: Seq<u32>, n: nat)
    ensures
        enc_ids(ids, n).len() == 4 * n,
    decreases n,
{
    if n > 0 {
        lemma_ids_len(ids, (n - 1) as nat);
    }
}

proof fn lemma_ids_injective(a: Seq<u32>, b: Seq<u32>, n: nat)
    requires
        n <= a.len(),
        n <= b.len(),
        enc_ids(a, n) == enc_ids(b, n),
    ensures
        forall|j: int| 0 <= j < n ==> a[j] == b[j],
    decreases n,
{
    if n > 0 {
        let h = (n - 1) as nat;
        lemma_ids_len(a, h);
        lemma_ids_len(b, h);
        let s = enc_ids(a, n);
        assert(s.subrange(0, 4 * h as int) =~= enc_ids(a, h));
        assert(enc_ids(b, n).subrange(0, 4 * h as int) =~= enc_ids(b, h));
        assert(s.subrange(4 * h as int, 4 * h + 4 as int) =~= le32(a[h as int]));
        assert(enc_ids(b, n).subrange(4 * h as int, 4 * h + 4 as int) =~= le32(b[h as int]));
        lemma_le32_injective(a[h as int], b[h as int]);
        lemma_ids_injective(a, b, h);
    }
}

/// All keys fit their length prefixes.
pub open spec fn keys_fit(keys: Seq<Seq<char>>) -> bool {
    forall|j: int| 0 <= j < keys.len() ==> str_fits(#[trigger] keys[j])
}

/// Two well-formed nodes with the same bytes are the same node.
#[verifier::rlimit(100)]
pub proof fn lemma_node_injective(a: NodeView, b: NodeView)
    requires
        a.wf(),
        b.wf(),
        keys_fit(a.keys),
        keys_fit(b.keys),
        enc_node(a) == enc_node(b),
    ensures
        a == b,
{
    let s = enc_node(a);
    let u = enc_node(b);
    assert(s.subrange(0, 4) =~= le32(a.id));
    assert(u.subrange(0, 4) =~= le32(b.id));
    lemma_le32_injective(a.id, b.id);
    assert(s[4] == u[4]);
    assert(s[4] == enc_parent(a.parent)[0]);
    assert(u[4] == enc_parent(b.parent)[0]);
    assert(a.parent is Some <==> b.parent is Some);
    let pa = enc_parent(a.parent).len() as int;
    let pb = enc_parent(b.parent).len() as int;
    if a.parent is Some {
        assert(s.subrange(5, 9) =~= le32(a.parent->Some_0));
        assert(u.subrange(5, 9) =~= le32(b.parent->Some_0));
        lemma_le32_injective(a.parent->Some_0, b.parent->Some_0);
    }
    assert(pa == pb);
    assert(s[4 + pa] == u[4 + pb]);
    assert(a.node_type == b.node_type);
    assert(s.subrange(5 + pa, 9 + pa) =~= le32(a.keys.len() as u32));
    assert(u.subrange(5 + pa, 9 + pa) =~= le32(b.keys.len() as u32));
    lemma_le32_injective(a.keys.len() as u32, b.keys.len() as u32);
    let n = a.keys.len();
    let ra = s.subrange(9 + pa, s.len() as int);
    let rb = u.subrange(9 + pa, u.len() as int);
    let ta = le32(a.children.len() as u32) + enc_ids(a.children, a.children.len());
    let tb = le32(b.children.len() as u32) + enc_ids(b.children, b.children.len());
    assert(ra =~= enc_keys(a.keys, n) + ta);
    assert(rb =~= enc_keys(b.keys, n) + tb);
    lemma_keys_split(a.keys, b.keys, n, ta, tb);
    assert(a.keys =~= b.keys);
    assert(ta.subrange(0, 4) =~= le32(a.children.len() as u32));
    assert(tb.subrange(0, 4) =~= le32(b.children.len() as u32));
    assert(a.children.len() == b.children.len());
    assert(ta.subrange(4, ta.len() as int) =~= enc_ids(a.children, a.children.len()));
    assert(tb.subrange(4, tb.len() as int) =~= enc_ids(b.children, b.children.len()));
    lemma_ids_injective(a.children, b.children, a.children.len());
    assert(a.children =~= b.children);
}

/// Key lists of equal length followed by other bytes split the same way.
proof fn lemma_keys_split(ka: Seq<Seq<char>>, kb: Seq<Seq<char>>, n: nat, ta: Seq<u8>, tb: Seq<u8>)
    requires
        n == ka.len(),
        n == kb.len(),
        keys_fit(ka),
        keys_fit(kb),
        enc_keys(ka, n) + ta == enc_keys(kb, n) + tb,
    ensures
        forall|j: int| 0 <= j < n ==> ka[j] == kb[j],
        ta == tb,
    decreases n,
{
    if n > 0 {
        let h = (n - 1) as nat;
        let ka2 = ka.subrange(0, h as int);
        let kb2 = kb.subrange(0, h as int);
        lemma_enc_keys_prefix(ka, ka2, h);
        lemma_enc_keys_prefix(kb, kb2, h);
        assert(enc_keys(ka2, h) + (enc_str(ka[h as int]) + ta) =~= enc_keys(ka, n) + ta);
        assert(enc_keys(kb2, h) + (enc_str(kb[h as int]) + tb) =~= enc_keys(kb, n) + tb);
        assert(keys_fit(ka2) && keys_fit(kb2));
        lemma_keys_split(ka2, kb2, h, enc_str(ka[h as int]) + ta, enc_str(kb[h as int]) + tb);
        lemma_str_prefix_free(ka[h as int], kb[h as int], ta, tb);
        assert forall|j: int| 0 <= j < n implies ka[j] == kb[j] by {
            if j < h {
                assert(ka2[j] == kb2[j]);
            }
        }
    }
}

/// The bytes at `at` hold the `n` keys `wk`, sorted and fitting.
pub open spec fn holds_keys(b: Seq<u8>, at: int, n: nat, wk: Seq<Seq<char>>) -> bool {
    &&& wk.len() == n
    &&& keys_fit(wk)
    &&& sorted(wk)
    &&& 0 <= at
    &&& at + enc_keys(wk, n).len() <= b.len()
    &&& b.subrange(at, at + enc_keys(wk, n).len()) == enc_keys(wk, n)
}

/// Reads `n` length-prefixed keys in strictly increasing order from `at`.
/// Where the bytes there hold the keys `expect`, the read gives them.
#[verifier::rlimit(100)]
fn read_keys(bytes: &[u8], at: usize, n: u32, Ghost(expect): Ghost<Seq<Seq<char>>>) -> (r: Option<(Vec<String>, usize)>)
    requires
        at <= bytes@.len(),
    ensures
        r matches Some(p) ==> at <= p.1 <= bytes@.len() && p.0@.len() == n && bytes@.subrange(
            at as int,
            p.1 as int,
        ) == enc_keys(key_seq(p.0@), n as nat) && sorted(key_seq(p.0@)) && keys_fit(key_seq(p.0@)),
        holds_keys(bytes@, at as int, n as nat, expect) ==> (r matches Some(p) && key_seq(p.0@) == expect),
{
    let ghost ok = holds_keys(bytes@, at as int, n as nat, expect);
    let ghost wk = expect;
    let len = bytes.len();
    let start = at;
    let mut pos = at;
    let mut keys: Vec<String> = Vec::new();
    let mut i: u32 = 0;
    assert(bytes@.subrange(start as int, pos as int) =~= enc_keys(key_seq(keys@), 0));
    while i < n
        invariant
            start <= pos <= len == bytes@.len(),
            i <= n,
            keys@.len() == i,
            bytes@.subrange(start as int, pos as int) == enc_keys(key_seq(keys@), i as nat),
            sorted(key_seq(keys@)),
            forall|j: int| 0 <= j < i ==> str_fits(#[trigger] key_seq(keys@)[j]),
            ok == holds_keys(bytes@, start as int, n as nat, wk),
            ok ==> forall|j: int| 0 <= j < i ==> key_seq(keys@)[j] == wk[j],
            start == at,
            wk == expect,
            ok == holds_keys(bytes@, at as int, n as nat, expect),
        decreases n - i,
    {
        proof {
            if ok {
                let pk = key_seq(keys@);
                assert(pk.subrange(0, i as int) =~= wk.subrange(0, i as int));
                lemma_enc_keys_prefix(pk, wk, i as nat);
                lemma_keys_front(wk, (i + 1) as nat, n as nat);
                let ei = enc_keys(wk, i as nat);
                let all = enc_keys(wk, n as nat);
                assert(bytes@.subrange(start as int, pos as int).len() == pos - start);
                assert(pos == start + ei.len());
                assert(enc_keys(wk, (i + 1) as nat) =~= ei + enc_str(wk[i as int]));
                assert(all.subrange(0, ei.len() + enc_str(wk[i as int]).len() as int) =~= ei + enc_str(wk[i as int]));
                assert(bytes@.subrange(pos as int, pos + enc_str(wk[i as int]).len()) =~= bytes@.subrange(
                    start as int,
                    start + all.len(),
                ).subrange(ei.len() as int, ei.len() + enc_str(wk[i as int]).len() as int));
                assert((ei + enc_str(wk[i as int])).subrange(ei.len() as int, ei.len() + enc_str(wk[i as int]).len() as int)
                    =~= enc_str(wk[i as int]));
                assert(bytes@.subrange(pos as int, pos + enc_str(wk[i as int]).len()) == enc_str(wk[i as int]));
                assert(pos + enc_str(wk[i as int]).len() <= bytes@.len());
                assert(str_fits(wk[i as int]));
            }
        }
        let (k, next) = match read_str(bytes, pos) {
            Some(p) => p,
            None => {
                return None;
            },
        };
        proof {
            if ok {
                let t1 = bytes@.subrange(next as int, len as int);
                let t2 = bytes@.subrange(pos + enc_str(wk[i as int]).len(), len as int);
                assert(enc_str(k@) + t1 =~= bytes@.subrange(pos as int, len as int));
                assert(enc_str(wk[i as int]) + t2 =~= bytes@.subrange(pos as int, len as int));
                lemma_str_prefix_free(k@, wk[i as int], t1, t2);
                if i > 0 {
                    assert(key_lt(wk[i - 1], wk[i as int]));
                    assert(keys@[i - 1]@ == key_seq(keys@)[i - 1]);
                }
            }
        }
        if keys.len() > 0 && compare_keys(keys[keys.len() - 1].as_str(), k.as_str()) >= 0 {
            return None;
        }
        let ghost before = key_seq(keys@);
        let ghost old_pos = pos;
        keys.push(k);
        proof {
            let now = key_seq(keys@);
            assert(now =~= before.push(k@));
            lemma_enc_keys_push(before, k@);
            assert(bytes@.subrange(start as int, next as int) =~= bytes@.subrange(start as int, old_pos as int)
                + bytes@.subrange(old_pos as int, next as int));
            assert forall|a: int, b: int| 0 <= a < b < now.len() implies key_lt(now[a], now[b]) by {
                if b == now.len() - 1 {
                    if a < b - 1 {
                        assert(key_lt(before[a], before[b - 1]));
                        lemma_key_transitive(now[a], now[b - 1], now[b]);
                    }
                } else {
                    assert(key_lt(before[a], before[b]));
                }
            }
            assert forall|j: int| 0 <= j < i + 1 implies str_fits(#[trigger] now[j]) by {
                if j < i {
                    assert(now[j] == before[j]);
                }
            }
            if ok {
                assert forall|j: int| 0 <= j < i + 1 implies now[j] == wk[j] by {
                    if j < i {
                        assert(now[j] == before[j]);
                    }
                }
            }
        }
        pos = next;
        i = i + 1;
    }
    proof {
        if ok {
            assert(key_seq(keys@) =~= wk);
        }
    }
    Some((keys, pos))
}

/// Reads `n` ids of four bytes each from `at`; succeeds whenever they fit.
fn read_ids(bytes: &[u8], at: usize, n: u32) -> (r: Option<(Vec<u32>, usize)>)
    requires
        at <= bytes@.len(),
    ensures
        r matches Some(p) ==> at <= p.1 <= bytes@.len() && p.0@.len() == n && bytes@.subrange(
            at as int,
            p.1 as int,
        ) == enc_ids(p.0@, n as nat) && p.1 == at + 4 * n,
        at + 4 * n <= bytes@.len() ==> r is Some,
{
    let len = bytes.len();
    let mut children: Vec<u32> = Vec::new();
    let mut pos: usize = at;
    let mut j: u32 = 0;
    assert(bytes@.subrange(at as int, at as int) =~= enc_ids(children@, 0));
    while j < n
        invariant
            at <= pos <= len == bytes@.len(),
            j <= n,
            children@.len() == j,
            pos == at + 4 * j,
            bytes@.subrange(at as int, pos as int) == enc_ids(children@, j as nat),
        decreases n - j,
    {
        if len - pos < 4 {
            return None;
        }
        let c = read_u32(bytes, pos);
        let ghost before = children@;
        let ghost old_pos = pos;
        proof { lemma_u32_at_le32(bytes@, pos as int); }
        children.push(c);
        proof {
            lemma_enc_ids_prefix(children@, before, j as nat);
            assert(bytes@.subrange(at as int, old_pos + 4) =~= bytes@.subrange(at as int, old_pos as int)
                + bytes@.subrange(old_pos as int, old_pos + 4));
        }
        pos = pos + 4;
        j = j + 1;
    }
    Some((children, pos))
}

/// The header of a node's bytes: id, parent, kind byte, key count.
pub open spec fn enc_header(id: u32, parent: Option<u32>, t: NodeType, nk: u32) -> Seq<u8> {
    le32(id) + enc_parent(parent) + seq![kind_byte(t)] + le32(nk)
}

/// Reads a node header; succeeds on the header of any node within capacity.
fn read_header(bytes: &[u8], Ghost(expect): Ghost<NodeView>) -> (r: Option<(u32, Option<u32>, NodeType, u32, usize)>)
    ensures
        r matches Some(h) ==> h.4 <= bytes@.len() && h.3 <= NODE_CAPACITY && bytes@.subrange(0, h.4 as int)
            == enc_header(h.0, h.1, h.2, h.3),
        ({
            let e = enc_header(expect.id, expect.parent, expect.node_type, expect.keys.len() as u32);
            expect.keys.len() <= NODE_CAPACITY && e.len() <= bytes@.len() && bytes@.subrange(0, e.len() as int) == e
        }) ==> (r matches Some(h) && h.1 == expect.parent && h.2 == expect.node_type && h.3 == expect.keys.len()
            && h.4 == enc_header(expect.id, expect.parent, expect.node_type, expect.keys.len() as u32).len()),
{
    let ghost e = enc_header(expect.id, expect.parent, expect.node_type, expect.keys.len() as u32);
    let ghost ok = expect.keys.len() <= NODE_CAPACITY && e.len() <= bytes@.len() && bytes@.subrange(0, e.len() as int) == e;
    proof {
        if ok {
            assert(bytes@[4] == e[4]);
            assert(e[4] == enc_parent(expect.parent)[0]);
        }
    }
    let len = bytes.len();
    if len < 6 {
        return None;
    }
    let id = read_u32(bytes, 0);
    proof { lemma_u32_at_le32(bytes@, 0); }
    let mut at: usize = 5;
    let parent = if bytes[4] == 0 {
        None
    } else if bytes[4] == 1 && len >= 9 {
        let p = read_u32(bytes, 5);
        proof {
            lemma_u32_at_le32(bytes@, 5);
            if ok {
                assert(bytes@.subrange(5, 9) =~= e.subrange(5, 9));
                assert(e.subrange(5, 9) =~= le32(expect.parent->Some_0));
                lemma_le32_injective(p, expect.parent->Some_0);
            }
        }
        at = 9;
        Some(p)
    } else {
        return None;
    };
    assert(bytes@.subrange(0, at as int) =~= le32(id) + enc_parent(parent));
    proof {
        if ok {
            assert(at == 4 + enc_parent(expect.parent).len());
            assert(bytes@[at as int] == e[at as int]);
            assert(e[at as int] == kind_byte(expect.node_type));
        }
    }
    if len - at < 5 {
        return None;
    }
    let node_type = if bytes[at] == 0 {
        NodeType::Internal
    } else if bytes[at] == 1 {
        NodeType::Leaf
    } else {
        return None;
    };
    let nk = read_u32(bytes, at + 1);
    proof {
        lemma_u32_at_le32(bytes@, at + 1);
        if ok {
            assert(bytes@.subrange(at + 1, at + 5) =~= e.subrange(at + 1, at + 5));
            assert(e.subrange(at + 1, at + 5) =~= le32(expect.keys.len() as u32));
            lemma_le32_injective(nk, expect.keys.len() as u32);
        }
    }
    if nk as usize > NODE_CAPACITY {
        return None;
    }
    at = at + 5;
    assert(bytes@.subrange(0, at as int) =~= enc_header(id, parent, node_type, nk));
    Some((id, parent, node_type, nk, at))
}

impl BTreeNode {
    /// An empty leaf with no parent.
    pub fn new_leaf(id: u32) -> (r: BTreeNode)
        ensures
            r@.wf(),
            r.id == id,
            r.parent is None,
            r.node_type == NodeType::Leaf,
            r@.keys.len() == 0,
            r@.children.len() == 0,
    {
        BTreeNode { id, parent: None, node_type: NodeType::Leaf, keys: Vec::new(), children: Vec::new() }
    }

    /// Holds `NODE_CAPACITY` keys or more.
    pub fn is_full(&self) -> (r: bool)
        ensures
            r == self@.is_full(),
    {
        self.keys.len() >= NODE_CAPACITY
    }

    /// The node's bytes (see `enc_node`). Fails with a serialisation error on
    /// a node that breaks its invariants or whose keys do not fit a 32-bit
    /// length.
    pub fn to_bytes(&self) -> (r: Result<Vec<u8>, StoreError>)
        ensures
            r matches Ok(b) ==> self@.wf() && keys_fit(self@.keys) && b@ == enc_node(self@),
            self@.wf() && (forall|i: int| 0 <= i < self@.keys.len() ==> str_fits(#[trigger] self@.keys[i])) ==> r is Ok,
            r matches Err(e) ==> e is Serialization,
    {
        let nk = self.keys.len();
        let nc = self.children.len();
        let shape = nk <= NODE_CAPACITY && match self.node_type {
            NodeType::Leaf => nc == nk,
            NodeType::Internal => nc == nk + 1,
        };
        if !shape {
            return Err(StoreError::Serialization("Node breaks its shape".to_owned()));
        }
        let ghost ks = key_seq(self.keys@);
        let mut out: Vec<u8> = Vec::new();
        push_u32(&mut out, self.id);
        match self.parent {
            None => out.push(0u8),
            Some(p) => {
                out.push(1u8);
                push_u32(&mut out, p);
            },
        }
        match self.node_type {
            NodeType::Internal => out.push(0u8),
            NodeType::Leaf => out.push(1u8),
        }
        push_u32(&mut out, nk as u32);
        let ghost head = out@;
        assert(head =~= le32(self.id) + enc_parent(self.parent) + seq![kind_byte(self.node_type)] + le32(nk as u32));
        let mut i: usize = 0;
        while i < nk
            invariant
                i <= nk == self.keys@.len() <= NODE_CAPACITY,
                ks == key_seq(self.keys@),
                out@ == head + enc_keys(ks, i as nat),
                forall|a: int, b: int| 0 <= a < b < i ==> key_lt(ks[a], ks[b]),
                forall|j: int| 0 <= j < i ==> str_fits(#[trigger] ks[j]),
            decreases nk - i,
        {
            assert(ks[i as int] == self.keys@[i as int]@);
            if self.keys[i].as_str().as_bytes().len() > u32::MAX as usize {
                return Err(StoreError::Serialization("Key too long".to_owned()));
            }
            if i > 0 && compare_keys(self.keys[i - 1].as_str(), self.keys[i].as_str()) >= 0 {
                proof {
                    assert(ks[i - 1] == self.keys@[i - 1]@);
                    if sorted(ks) {
                        assert(key_lt(ks[i - 1], ks[i as int]));
                    }
                }
                return Err(StoreError::Serialization("Node keys out of order".to_owned()));
            }
            push_str(&mut out, self.keys[i].as_str());
            proof {
                assert forall|a: int, b: int| 0 <= a < b < i + 1 implies key_lt(ks[a], ks[b]) by {
                    if b == i && a < i - 1 {
                        lemma_key_transitive(ks[a], ks[i - 1], ks[b]);
                    }
                }
            }
            i = i + 1;
        }
        push_u32(&mut out, nc as u32);
        let ghost mid = out@;
        let mut j: usize = 0;
        while j < nc
            invariant
                j <= nc == self.children@.len(),
                out@ == mid + enc_ids(self.children@, j as nat),
            decreases nc - j,
        {
            push_u32(&mut out, self.children[j]);
            j = j + 1;
        }
        assert(out@ =~= enc_node(self@));
        Ok(out)
    }

    /// The node that `enc_node` bytes describe. Fails with a serialisation
    /// error on bytes that are not the encoding of a well-formed node.
    #[verifier::rlimit(100)]
    pub fn from_bytes(bytes: &[u8]) -> (r: Result<BTreeNode, StoreError>)
        ensures
            r matches Ok(n) ==> n@.wf() && keys_fit(n@.keys) && enc_node(n@) == bytes@,
            r matches Err(e) ==> e is Serialization,
            (exists|w: NodeView| w.wf() && keys_fit(w.keys) && enc_node(w) == bytes@) ==> r is Ok,
    {
        let ghost ok = exists|w: NodeView| w.wf() && keys_fit(w.keys) && enc_node(w) == bytes@;
        let ghost w = choose|w: NodeView| w.wf() && keys_fit(w.keys) && enc_node(w) == bytes@;
        let ghost hl: int = 9 + enc_parent(w.parent).len() as int;
        let ghost ek = enc_keys(w.keys, w.keys.len());
        proof {
            if ok {
                let s = enc_node(w);
                lemma_ids_len(w.children, w.children.len());
                assert(s.subrange(hl, hl + ek.len()) =~= ek);
                assert(s.subrange(hl + ek.len(), hl + ek.len() + 4 as int) =~= le32(w.children.len() as u32));
                assert(s.len() == hl + ek.len() + 4 + 4 * w.children.len());
            }
        }
        let len = bytes.len();
        proof {
            if ok {
                assert(enc_node(w).subrange(0, hl) =~= enc_header(w.id, w.parent, w.node_type, w.keys.len() as u32));
            }
        }
        let (id, parent, node_type, nk, at) = match read_header(bytes, Ghost(w)) {
            Some(h) => h,
            None => {
                return Err(StoreError::Serialization("Node Corrupt".to_owned()));
            },
        };
        let ghost head = bytes@.subrange(0, at as int);
        assert(head == enc_header(id, parent, node_type, nk));
        proof {
            if ok {
                assert(at == hl);
                assert(holds_keys(bytes@, at as int, nk as nat, w.keys));
            }
        }
        let (keys, next) = match read_keys(bytes, at, nk, Ghost(w.keys)) {
            Some(p) => p,
            None => {
                return Err(StoreError::Serialization("Node Corrupt".to_owned()));
            },
        };
        assert(bytes@.subrange(0, next as int) =~= head + bytes@.subrange(at as int, next as int));
        let mut at = next;
        proof {
            if ok {
                assert(key_seq(keys@) == w.keys);
                assert(at == hl + ek.len());
            }
        }
        if len - at < 4 {
            return Err(StoreError::Serialization("Node Corrupt".to_owned()));
        }
        let nc = read_u32(bytes, at);
        proof {
            lemma_u32_at_le32(bytes@, at as int);
            if ok {
                lemma_le32_injective(nc, w.children.len() as u32);
            }
        }
        let expected: u32 = match node_type {
            NodeType::Leaf => nk,
            NodeType::Internal => nk + 1,
        };
        if nc != expected {
            return Err(StoreError::Serialization("Node Corrupt".to_owned()));
        }
        at = at + 4;
        let ghost mid = bytes@.subrange(0, at as int);
        assert(mid =~= head + enc_keys(key_seq(keys@), nk as nat) + le32(nc));
        let (children, end) = match read_ids(bytes, at, nc) {
            Some(p) => p,
            None => {
                return Err(StoreError::Serialization("Node Corrupt".to_owned()));
            },
        };
        assert(bytes@.subrange(0, end as int) =~= mid + bytes@.subrange(at as int, end as int));
        if end != len {
            return Err(StoreError::Serialization("Node Corrupt".to_owned()));
        }
        let node = BTreeNode { id, parent, node_type, keys, children };
        assert(bytes@.subrange(0, end as int) =~= bytes@);
        assert(enc_node(node@) =~= enc_header(id, parent, node_type, nk) + enc_keys(key_seq(keys@), nk as nat)
            + le32(nc) + enc_ids(children@, nc as nat));
        assert(enc_node(node@) =~= bytes@);
        Ok(node)
    }

}

} // verus!
