use vstd::prelude::*;
use vstd::utf8::{encode_utf8, encode_utf8_decode_utf8};
use crate::value::EvalResult;

verus! {

/// A node's identity: the BLAKE3 digest of its kind, snippet and child identities.
pub type NodeId = [u8; 32];

/// What a node is; leaves carry their payload, composites get meaning from their children.
#[derive(Debug)]
pub enum NodeKind {
    Symbol(String),
    Number(i64),
    String(String),
    /// An empty list or a call of an unknown head.
    List,
    Definition,
    /// `(let NAME VALUE BODY)`
    LetExpression,
    /// `(let NAME VALUE)`
    LetStatement,
    Addition,
    Multiplication,
    HttpGet,
    JsonParse,
    JsonGet,
    StringUpper,
}

/// The BLAKE3 digest of a byte string.
pub uninterp spec fn blake3_of(input: Seq<u8>) -> Seq<u8>;

/// Relies on blake3::hash: the 32-byte BLAKE3 digest of the input.
#[verifier::external_body]
fn blake3_digest(input: &Vec<u8>) -> (r: NodeId)
    ensures
        r@ == blake3_of(input@),
{
    *blake3::hash(input.as_slice()).as_bytes()
}

/// The one-byte ASCII tag that opens the hashed form of each kind.
pub open spec fn kind_tag(k: NodeKind) -> u8 {
    match k {
        NodeKind::Symbol(_) => 89,  // 'Y'
        NodeKind::Number(_) => 78,  // 'N'
        NodeKind::String(_) => 84,  // 'T'
        NodeKind::List => 76,  // 'L'
        NodeKind::Definition => 68,  // 'D'
        NodeKind::LetExpression => 69,  // 'E'
        NodeKind::LetStatement => 66,  // 'B'
        NodeKind::Addition => 65,  // 'A'
        NodeKind::Multiplication => 77,  // 'M'
        NodeKind::HttpGet => 72,  // 'H'
        NodeKind::JsonParse => 80,  // 'P'
        NodeKind::JsonGet => 71,  // 'G'
        NodeKind::StringUpper => 85,  // 'U'
    }
}

/// The eight little-endian bytes of an integer.
pub open spec fn le_bytes(n: i64) -> Seq<u8> {
    Seq::new(8, |k: int| ((n as u64) >> ((8 * k) as u64)) as u8)
}

/// The payload of a kind: a symbol's name, a number's bytes, a string's bytes;
/// nothing for composites, whose head is a child.
pub open spec fn kind_payload(k: NodeKind) -> Seq<u8> {
    match k {
        NodeKind::Symbol(s) => encode_utf8(s@),
        NodeKind::Number(n) => le_bytes(n),
        NodeKind::String(s) => encode_utf8(s@),
        _ => Seq::empty(),
    }
}

/// The child identities laid end to end.
pub open spec fn flatten_ids(ids: Seq<Seq<u8>>) -> Seq<u8>
    decreases ids.len(),
{
    if ids.len() == 0 {
        Seq::empty()
    } else {
        flatten_ids(ids.drop_last()) + ids.last()
    }
}

/// The bytes that are hashed for a node: tag, payload, snippet, then each child's id.
pub open spec fn preimage(k: NodeKind, snippet: Seq<char>, child_ids: Seq<Seq<u8>>) -> Seq<u8> {
    seq![kind_tag(k)] + kind_payload(k) + encode_utf8(snippet) + flatten_ids(child_ids)
}

pub open spec fn node_id(k: NodeKind, snippet: Seq<char>, child_ids: Seq<Seq<u8>>) -> Seq<u8> {
    blake3_of(preimage(k, snippet, child_ids))
}

/// Two kinds are the same: same variant and, for leaves, the same payload.
pub open spec fn same_kind(a: NodeKind, b: NodeKind) -> bool {
    match (a, b) {
        (NodeKind::Symbol(x), NodeKind::Symbol(y)) => x@ == y@,
        (NodeKind::Number(x), NodeKind::Number(y)) => x == y,
        (NodeKind::String(x), NodeKind::String(y)) => x@ == y@,
        _ => kind_tag(a) == kind_tag(b) && !(a is Symbol) && !(a is Number) && !(a is String),
    }
}

/// Every child id has the 32 bytes of a digest.
pub open spec fn ids_well_sized(c: Seq<Seq<u8>>) -> bool {
    forall|j: int| 0 <= j < c.len() ==> (#[trigger] c[j]).len() == 32
}

/// The digest does not collide on these two inputs.
pub open spec fn no_collision(p: Seq<u8>, q: Seq<u8>) -> bool {
    blake3_of(p) == blake3_of(q) ==> p == q
}

proof fn lemma_flatten_len(c: Seq<Seq<u8>>)
    requires
        ids_well_sized(c),
    ensures
        flatten_ids(c).len() == 32 * c.len(),
    decreases c.len(),
{
    if c.len() > 0 {
        lemma_flatten_len(c.drop_last());
    }
}

proof fn lemma_flatten_injective(c1: Seq<Seq<u8>>, c2: Seq<Seq<u8>>)
    requires
        ids_well_sized(c1),
        ids_well_sized(c2),
        flatten_ids(c1) == flatten_ids(c2),
    ensures
        c1 == c2,
    decreases c1.len(),
{
    lemma_flatten_len(c1);
    lemma_flatten_len(c2);
    assert(c1.len() == c2.len());
    if c1.len() > 0 {
        let f = flatten_ids(c1);
        let (front1, front2) = (c1.drop_last(), c2.drop_last());
        lemma_flatten_len(front1);
        lemma_flatten_len(front2);
        let n = f.len() - 32;
        assert(flatten_ids(front1) == f.subrange(0, n));
        assert(flatten_ids(front2) == f.subrange(0, n));
        assert(c1.last() == f.subrange(n, f.len() as int));
        assert(c2.last() == f.subrange(n, f.len() as int));
        lemma_flatten_injective(front1, front2);
        assert(c1 =~= front1.push(c1.last()));
        assert(c2 =~= front2.push(c2.last()));
    }
}

proof fn lemma_le_bytes_injective(a: i64, b: i64)
    requires
        le_bytes(a) == le_bytes(b),
    ensures
        a == b,
{
    let x = #[verifier::truncate] (a as u64);
    let y = #[verifier::truncate] (b as u64);
    assert(le_bytes(a)[0] == (x >> 0u64) as u8 && le_bytes(b)[0] == (y >> 0u64) as u8);
    assert(le_bytes(a)[1] == (x >> 8u64) as u8 && le_bytes(b)[1] == (y >> 8u64) as u8);
    assert(le_bytes(a)[2] == (x >> 16u64) as u8 && le_bytes(b)[2] == (y >> 16u64) as u8);
    assert(le_bytes(a)[3] == (x >> 24u64) as u8 && le_bytes(b)[3] == (y >> 24u64) as u8);
    assert(le_bytes(a)[4] == (x >> 32u64) as u8 && le_bytes(b)[4] == (y >> 32u64) as u8);
    assert(le_bytes(a)[5] == (x >> 40u64) as u8 && le_bytes(b)[5] == (y >> 40u64) as u8);
    assert(le_bytes(a)[6] == (x >> 48u64) as u8 && le_bytes(b)[6] == (y >> 48u64) as u8);
    assert(le_bytes(a)[7] == (x >> 56u64) as u8 && le_bytes(b)[7] == (y >> 56u64) as u8);
    assert(x == y) by (bit_vector)
        requires
            (x >> 0u64) as u8 == (y >> 0u64) as u8,
            (x >> 8u64) as u8 == (y >> 8u64) as u8,
            (x >> 16u64) as u8 == (y >> 16u64) as u8,
            (x >> 24u64) as u8 == (y >> 24u64) as u8,
            (x >> 32u64) as u8 == (y >> 32u64) as u8,
            (x >> 40u64) as u8 == (y >> 40u64) as u8,
            (x >> 48u64) as u8 == (y >> 48u64) as u8,
            (x >> 56u64) as u8 == (y >> 56u64) as u8,
    ;
    assert(a == b) by (bit_vector)
        requires
            a as u64 == b as u64,
    ;
}

proof fn lemma_preimage_unambiguous(
    k1: NodeKind,
    s1: Seq<char>,
    c1: Seq<Seq<u8>>,
    k2: NodeKind,
    s2: Seq<char>,
    c2: Seq<Seq<u8>>,
)
    requires
        ids_well_sized(c1),
        ids_well_sized(c2),
        preimage(k1, s1, c1) == preimage(k2, s2, c2),
        kind_tag(k1) != kind_tag(k2) || (kind_payload(k1).len() == kind_payload(k2).len()
            && encode_utf8(s1).len() == encode_utf8(s2).len()),
    ensures
        same_kind(k1, k2) && s1 == s2 && c1 == c2,
{
    let p = preimage(k1, s1, c1);
    assert(p[0] == kind_tag(k1));
    assert(preimage(k2, s2, c2)[0] == kind_tag(k2));
    let a = kind_payload(k1).len() as int;
    let b = encode_utf8(s1).len() as int;
    assert(kind_payload(k1) == p.subrange(1, 1 + a));
    assert(kind_payload(k2) == p.subrange(1, 1 + a));
    assert(encode_utf8(s1) == p.subrange(1 + a, 1 + a + b));
    assert(encode_utf8(s2) == p.subrange(1 + a, 1 + a + b));
    assert(flatten_ids(c1) == p.subrange(1 + a + b, p.len() as int));
    assert(flatten_ids(c2) == p.subrange(1 + a + b, p.len() as int));
    encode_utf8_decode_utf8(s1);
    encode_utf8_decode_utf8(s2);
    lemma_flatten_injective(c1, c2);
    match (k1, k2) {
        (NodeKind::Symbol(x), NodeKind::Symbol(y)) => {
            encode_utf8_decode_utf8(x@);
            encode_utf8_decode_utf8(y@);
        },
        (NodeKind::String(x), NodeKind::String(y)) => {
            encode_utf8_decode_utf8(x@);
            encode_utf8_decode_utf8(y@);
        },
        (NodeKind::Number(x), NodeKind::Number(y)) => {
            lemma_le_bytes_injective(x, y);
        },
        _ => {},
    }
}

/// Identity is content. Nodes with the same kind, snippet and child ids have the
/// same id. Nodes that differ in any of these have different ids, provided the
/// digest does not collide on their two hashed forms and the hashed forms can be
/// split back into their parts: the kinds differ, or the payloads and snippets
/// have equal byte lengths (so a change of one byte to a snippet, a leaf's
/// payload, the kind or a child id always changes the id).
pub proof fn lemma_content_identity(
    k1: NodeKind,
    s1: Seq<char>,
    c1: Seq<Seq<u8>>,
    k2: NodeKind,
    s2: Seq<char>,
    c2: Seq<Seq<u8>>,
)
    requires
        ids_well_sized(c1),
        ids_well_sized(c2),
    ensures
        same_kind(k1, k2) && s1 == s2 && c1 == c2 ==> node_id(k1, s1, c1) == node_id(k2, s2, c2),
        !(same_kind(k1, k2) && s1 == s2 && c1 == c2) && no_collision(
            preimage(k1, s1, c1),
            preimage(k2, s2, c2),
        ) && (kind_tag(k1) != kind_tag(k2) || (kind_payload(k1).len() == kind_payload(k2).len()
            && encode_utf8(s1).len() == encode_utf8(s2).len())) ==> node_id(k1, s1, c1) != node_id(
            k2,
            s2,
            c2,
        ),
{
    if same_kind(k1, k2) && s1 == s2 && c1 == c2 {
        assert(kind_tag(k1) == kind_tag(k2));
        assert(kind_payload(k1) == kind_payload(k2));
        assert(preimage(k1, s1, c1) == preimage(k2, s2, c2));
    }
    if preimage(k1, s1, c1) == preimage(k2, s2, c2) && (kind_tag(k1) != kind_tag(k2) || (
    kind_payload(k1).len() == kind_payload(k2).len() && encode_utf8(s1).len() == encode_utf8(
        s2,
    ).len())) {
        lemma_preimage_unambiguous(k1, s1, c1, k2, s2, c2);
    }
}

/// The id of level `l` of a chain of nodes, level 0 sitting directly above a leaf.
pub open spec fn chain_id(ks: Seq<NodeKind>, ss: Seq<Seq<char>>, cs: Seq<Seq<Seq<u8>>>, l: int) -> Seq<u8> {
    node_id(ks[l], ss[l], cs[l])
}

/// Each level's child at `pos[l]` is the level below it; level 0's is the leaf.
pub open spec fn chain_links(
    ks: Seq<NodeKind>,
    ss: Seq<Seq<char>>,
    cs: Seq<Seq<Seq<u8>>>,
    pos: Seq<int>,
    leaf: Seq<u8>,
) -> bool {
    forall|l: int|
        0 <= l < cs.len() ==> 0 <= pos[l] < cs[l].len() && #[trigger] cs[l][pos[l]] == (if l == 0 {
            leaf
        } else {
            chain_id(ks, ss, cs, l - 1)
        })
}

/// A change below a node reaches its id: along a chain of ancestors that keep
/// their kinds and snippets, a leaf whose id changed changes the id of every
/// ancestor, where the digest does not collide at each level.
pub proof fn lemma_change_reaches_ancestors(
    ks: Seq<NodeKind>,
    ss: Seq<Seq<char>>,
    olds: Seq<Seq<Seq<u8>>>,
    news: Seq<Seq<Seq<u8>>>,
    pos: Seq<int>,
    leaf_old: Seq<u8>,
    leaf_new: Seq<u8>,
    l: int,
)
    requires
        ks.len() == ss.len() && ss.len() == olds.len() && olds.len() == news.len() && news.len() == pos.len(),
        0 <= l < olds.len(),
        leaf_old != leaf_new,
        chain_links(ks, ss, olds, pos, leaf_old),
        chain_links(ks, ss, news, pos, leaf_new),
        forall|m: int| 0 <= m < olds.len() ==> ids_well_sized(#[trigger] olds[m]) && ids_well_sized(news[m]),
        forall|m: int| 0 <= m < olds.len() ==> no_collision(
            preimage(ks[m], ss[m], #[trigger] olds[m]),
            preimage(ks[m], ss[m], news[m]),
        ),
    ensures
        chain_id(ks, ss, olds, l) != chain_id(ks, ss, news, l),
    decreases l,
{
    if l > 0 {
        lemma_change_reaches_ancestors(ks, ss, olds, news, pos, leaf_old, leaf_new, l - 1);
    }
    assert(olds[l][pos[l]] != news[l][pos[l]]);
    assert(olds[l] != news[l]);
    assert(ids_well_sized(olds[l]) && ids_well_sized(news[l]));
    assert(no_collision(preimage(ks[l], ss[l], olds[l]), preimage(ks[l], ss[l], news[l])));
    lemma_content_identity(ks[l], ss[l], olds[l], ks[l], ss[l], news[l]);
}

/// An immutable node of the computation graph. Children are indices into the
/// graph that holds the node, always below the node's own index.
pub struct Node {
    pub id: NodeId,
    pub kind: NodeKind,
    pub code_snippet: String,
    pub children: Vec<usize>,
    /// Source line, 1-indexed.
    pub line: usize,
    pub cached_value: Option<EvalResult>,
}

fn push_bytes(out: &mut Vec<u8>, b: &[u8])
    ensures
        final(out)@ == old(out)@ + b@,
{
    let mut i: usize = 0;
    while i < b.len()
        invariant
            i <= b@.len(),
            out@ == old(out)@ + b@.take(i as int),
        decreases b@.len() - i,
    {
        out.push(b[i]);
        i = i + 1;
        assert(b@.take(i as int) == b@.take(i as int - 1).push(b@[i as int - 1]));
    }
    assert(b@.take(b@.len() as int) == b@);
}

fn tag_byte(k: &NodeKind) -> (r: u8)
    ensures
        r == kind_tag(*k),
{
    match k {
        NodeKind::Symbol(_) => 89,
        NodeKind::Number(_) => 78,
        NodeKind::String(_) => 84,
        NodeKind::List => 76,
        NodeKind::Definition => 68,
        NodeKind::LetExpression => 69,
        NodeKind::LetStatement => 66,
        NodeKind::Addition => 65,
        NodeKind::Multiplication => 77,
        NodeKind::HttpGet => 72,
        NodeKind::JsonParse => 80,
        NodeKind::JsonGet => 71,
        NodeKind::StringUpper => 85,
    }
}

/// The bytes hashed for a node.
pub fn hash_input(k: &NodeKind, snippet: &str, child_ids: &Vec<NodeId>) -> (r: Vec<u8>)
    ensures
        r@ == preimage(*k, snippet@, child_ids@.map_values(|c: NodeId| c@)),
{
    let mut out: Vec<u8> = Vec::new();
    out.push(tag_byte(k));
    match k {
        NodeKind::Symbol(s) => push_bytes(&mut out, s.as_str().as_bytes()),
        NodeKind::String(s) => push_bytes(&mut out, s.as_str().as_bytes()),
        NodeKind::Number(n) => {
            let u = *n as u64;
            let mut j: u64 = 0;
            let ghost start = out@;
            while j < 8
                invariant
                    j <= 8,
                    u == *n as u64,
                    out@ == start + le_bytes(*n).take(j as int),
                decreases 8 - j,
            {
                out.push((u >> (8 * j)) as u8);
                j = j + 1;
                assert(le_bytes(*n).take(j as int) == le_bytes(*n).take(j as int - 1).push(
                    le_bytes(*n)[j as int - 1],
                ));
            }
            assert(le_bytes(*n).take(8) == le_bytes(*n));
        },
        _ => {},
    }
    assert(out@ == seq![kind_tag(*k)] + kind_payload(*k));
    push_bytes(&mut out, snippet.as_bytes());
    let ghost ids = child_ids@.map_values(|c: NodeId| c@);
    let ghost head = out@;
    let mut i: usize = 0;
    while i < child_ids.len()
        invariant
            i <= child_ids@.len(),
            ids == child_ids@.map_values(|c: NodeId| c@),
            out@ == head + flatten_ids(ids.take(i as int)),
        decreases child_ids@.len() - i,
    {
        push_bytes(&mut out, child_ids[i].as_slice());
        i = i + 1;
        assert(ids.take(i as int).drop_last() == ids.take(i as int - 1));
    }
    assert(ids.take(child_ids@.len() as int) == ids);
    out
}

impl Node {
    /// Creates a node; its id is computed from the kind, the snippet and the
    /// ids of the children, given in the children's order.
    pub fn new(
        kind: NodeKind,
        code_snippet: String,
        children: Vec<usize>,
        child_ids: &Vec<NodeId>,
        line: usize,
    ) -> (r: Node)
        ensures
            r.id@ == node_id(kind, code_snippet@, child_ids@.map_values(|c: NodeId| c@)),
            r.kind == kind,
            r.code_snippet == code_snippet,
            r.children == children,
            r.line == line,
            r.cached_value is None,
    {
        let bytes = hash_input(&kind, code_snippet.as_str(), child_ids);
        let id = blake3_digest(&bytes);
        Node { id, kind, code_snippet, children, line, cached_value: None }
    }

    pub fn id(&self) -> (r: &NodeId)
        ensures
            r == &self.id,
    {
        &self.id
    }

    pub fn cached_value(&self) -> (r: Option<&EvalResult>)
        ensures
            r matches Some(v) ==> self.cached_value == Some(*v),
            r is None <==> self.cached_value is None,
    {
        match &self.cached_value {
            Some(v) => Some(v),
            None => None,
        }
    }

    pub fn with_cached_value(self, value: EvalResult) -> (r: Node)
        ensures
            r.cached_value == Some(value),
            r.id == self.id,
            r.kind == self.kind,
            r.code_snippet == self.code_snippet,
            r.children == self.children,
            r.line == self.line,
    {
        Node { cached_value: Some(value), ..self }
    }
}

/// The ids of the children of node `i`, in order.
pub open spec fn child_ids_of(ns: Seq<Node>, i: int) -> Seq<Seq<u8>> {
    ns[i].children@.map_values(|c: usize| ns[c as int].id@)
}

/// Node `i` is well formed: its children come before it and its id is the
/// digest of its kind, snippet and children's ids.
pub open spec fn node_wf(ns: Seq<Node>, i: int) -> bool {
    &&& forall|j: int| 0 <= j < ns[i].children@.len() ==> ns[i].children@[j] < i
    &&& ns[i].id@ == node_id(ns[i].kind, ns[i].code_snippet@, child_ids_of(ns, i))
}

/// The nodes of one cycle, children stored before their parents.
pub struct Graph {
    pub nodes: Vec<Node>,
}

impl Graph {
    pub open spec fn wf(&self) -> bool {
        forall|i: int| 0 <= i < self.nodes@.len() ==> node_wf(self.nodes@, i)
    }

    pub fn new() -> (g: Graph)
        ensures
            g.wf(),
            g.nodes@.len() == 0,
    {
        Graph { nodes: Vec::new() }
    }

    /// Adds a node whose children are already in the graph; returns its index.
    pub fn add_node(&mut self, kind: NodeKind, code_snippet: String, children: Vec<usize>, line: usize) -> (idx: usize)
        requires
            old(self).wf(),
            forall|j: int| 0 <= j < children@.len() ==> children@[j] < old(self).nodes@.len(),
            old(self).nodes@.len() < usize::MAX,
        ensures
            final(self).wf(),
            idx == old(self).nodes@.len(),
            final(self).nodes@.len() == idx + 1,
            final(self).nodes@.take(idx as int) == old(self).nodes@,
            final(self).nodes@[idx as int].kind == kind,
            final(self).nodes@[idx as int].code_snippet == code_snippet,
            final(self).nodes@[idx as int].children == children,
            final(self).nodes@[idx as int].line == line,
    {
        let mut child_ids: Vec<NodeId> = Vec::new();
        let mut j: usize = 0;
        while j < children.len()
            invariant
                self.wf(),
                j <= children@.len(),
                forall|k: int| 0 <= k < children@.len() ==> children@[k] < self.nodes@.len(),
                child_ids@.len() == j,
                forall|k: int|
                    0 <= k < j ==> child_ids@[k] == self.nodes@[children@[k] as int].id,
            decreases children@.len() - j,
        {
            let c = children[j];
            child_ids.push(self.nodes[c].id);
            j = j + 1;
        }
        let idx = self.nodes.len();
        let ghost old_nodes = self.nodes@;
        let node = Node::new(kind, code_snippet, children, &child_ids, line);
        self.nodes.push(node);
        proof {
            let ns = self.nodes@;
            assert(ns.take(idx as int) == old_nodes);
            assert forall|i: int| 0 <= i < ns.len() implies node_wf(ns, i) by {
                if i < idx {
                    assert(ns[i] == old_nodes[i]);
                    assert(node_wf(old_nodes, i));
                    assert(child_ids_of(ns, i) == child_ids_of(old_nodes, i));
                } else {
                    assert(child_ids_of(ns, i) == child_ids@.map_values(|c: NodeId| c@));
                }
            }
        }
        idx
    }

    pub fn len(&self) -> (r: usize)
        ensures
            r == self.nodes@.len(),
    {
        self.nodes.len()
    }
}

} // verus!
