//! A prefix-free trie over integer node ids: a flat arena of edges with
//! read views, mutable cursors, and an insertion that keeps every stored
//! path free of prefix conflicts.

use vstd::prelude::*;

verus! {

/// Keys usable as trie edge labels: executable equality and cloning that
/// agree with the key's abstract view.
pub trait TrieKey: View + Sized {
    fn key_eq(&self, other: &Self) -> (b: bool)
        ensures
            b == (self@ == other@),
    ;

    fn key_clone(&self) -> (k: Self)
        ensures
            k@ == self@,
    ;
}

impl TrieKey for String {
    fn key_eq(&self, other: &Self) -> (b: bool) {
        self.eq(other)
    }

    fn key_clone(&self) -> (k: Self) {
        self.clone()
    }
}

/// A node of the trie. A branch carries the integer id under which its own
/// outgoing edges are stored; a leaf carries a stored value and never has
/// outgoing edges, which is what keeps the stored paths prefix-free.
pub enum HashTrieNode<V> {
    Branch { id: u32 },
    Leaf { value: V },
}

/// One stored edge of the arena: starting at node `from` (the root is node
/// 0), labelled `key`, and leading to `node`.
pub struct TrieEdge<K, V> {
    pub from: u32,
    pub key: K,
    pub node: HashTrieNode<V>,
}

/// A prefix-free mapping from key sequences to values, stored as a flat
/// arena of edges over integer node ids. The `Trivial` form maps the empty
/// path to a value; since the empty path is a prefix of every other path,
/// no other entry can coexist with it.
pub enum HashTrie<K, V> {
    Trivial { value: V },
    Standard { edges: Vec<TrieEdge<K, V>>, next_id: u32 },
}

/// The node reached from `from` along the edge labelled `key`, if any.
pub open spec fn find_edge<K: View, V>(
    edges: Seq<TrieEdge<K, V>>,
    from: u32,
    key: K::V,
) -> Option<HashTrieNode<V>>
    decreases edges.len(),
{
    if edges.len() == 0 {
        None
    } else if edges[0].from == from && edges[0].key@ == key {
        Some(edges[0].node)
    } else {
        find_edge(edges.drop_first(), from, key)
    }
}

/// The node id reached from `n` by following `path` along branch edges.
pub open spec fn walk_node<K: View, V>(
    edges: Seq<TrieEdge<K, V>>,
    n: u32,
    path: Seq<K::V>,
) -> Option<u32>
    decreases path.len(),
{
    if path.len() == 0 {
        Some(n)
    } else {
        match find_edge(edges, n, path[0]) {
            Some(HashTrieNode::Branch { id }) => walk_node(edges, id, path.drop_first()),
            _ => None,
        }
    }
}

/// The value stored at `path` below node `n`: the walk must end exactly on
/// a leaf edge.
pub open spec fn node_get<K: View, V>(
    edges: Seq<TrieEdge<K, V>>,
    n: u32,
    path: Seq<K::V>,
) -> Option<V>
    decreases path.len(),
{
    if path.len() == 0 {
        None
    } else {
        match find_edge(edges, n, path[0]) {
            Some(HashTrieNode::Leaf { value }) => if path.len() == 1 {
                Some(value)
            } else {
                None
            },
            Some(HashTrieNode::Branch { id }) => node_get(edges, id, path.drop_first()),
            None => None,
        }
    }
}

pub open spec fn key_views<K: View>(keys: Seq<K>) -> Seq<K::V> {
    keys.map_values(|k: K| k@)
}

pub open spec fn is_prefix_of<A>(p: Seq<A>, q: Seq<A>) -> bool {
    p.len() <= q.len() && p == q.take(p.len() as int)
}

/// Every sequence is a prefix of itself, so equal paths always conflict.
pub proof fn lemma_prefix_of_self<A>(p: Seq<A>)
    ensures
        is_prefix_of(p, p),
{
    assert(p.take(p.len() as int) =~= p);
}

/// Every edge starts below `next_id`, and branch ids are at least 1 (the
/// root id 0 is never a branch target) and below `next_id`.
pub open spec fn edges_bounded<K: View, V>(edges: Seq<TrieEdge<K, V>>, next_id: u32) -> bool {
    forall|i: int|
        0 <= i < edges.len() ==> (#[trigger] edges[i]).from < next_id && (match edges[i].node {
            HashTrieNode::Branch { id } => 1 <= id < next_id,
            HashTrieNode::Leaf { .. } => true,
        })
}

/// No two edges share origin and key view.
pub open spec fn edges_distinct<K: View, V>(edges: Seq<TrieEdge<K, V>>) -> bool {
    forall|i: int, j: int|
        #![trigger edges[i], edges[j]]
        0 <= i < j < edges.len() ==> !(edges[i].from == edges[j].from && edges[i].key@
            == edges[j].key@)
}

/// No two branch edges point at the same node, so every node has a unique
/// incoming edge and therefore a unique path from the root.
pub open spec fn branch_ids_distinct<K: View, V>(edges: Seq<TrieEdge<K, V>>) -> bool {
    forall|i: int, j: int|
        #![trigger edges[i], edges[j]]
        0 <= i < j < edges.len() ==> (match (edges[i].node, edges[j].node) {
            (HashTrieNode::Branch { id: a }, HashTrieNode::Branch { id: b }) => a != b,
            _ => true,
        })
}

pub open spec fn edges_wf<K: View, V>(edges: Seq<TrieEdge<K, V>>, next_id: u32) -> bool {
    edges_bounded(edges, next_id) && edges_distinct(edges) && branch_ids_distinct(edges)
}

impl<K: View, V> HashTrie<K, V> {
    /// The value stored at `path`, if any.
    pub open spec fn spec_get(&self, path: Seq<K::V>) -> Option<V> {
        match self {
            HashTrie::Trivial { value } => if path.len() == 0 {
                Some(*value)
            } else {
                None
            },
            HashTrie::Standard { edges, .. } => node_get(edges@, 0, path),
        }
    }

    /// Structural well-formedness of the arena: bounded ids, unique
    /// edges, unique branch targets, and every edge origin reachable from
    /// the root. A mutable view may leave a trie in this state with a
    /// freshly created branch that has nothing below it yet.
    pub open spec fn wf_core(&self) -> bool {
        match self {
            HashTrie::Trivial { .. } => true,
            HashTrie::Standard { edges, next_id } => {
                &&& *next_id >= 1
                &&& edges_wf(edges@, *next_id)
                &&& forall|i: int|
                    0 <= i < edges@.len() ==> exists|p: Seq<K::V>|
                        walk_node(edges@, 0, p) == Some((#[trigger] edges@[i]).from)
            },
        }
    }

    /// Full well-formedness: the arena is structurally sound and every
    /// branch carries at least one stored value below it.
    pub open spec fn wf(&self) -> bool {
        self.wf_core() && match self {
            HashTrie::Trivial { .. } => true,
            HashTrie::Standard { edges, .. } => {
                forall|i: int|
                    0 <= i < edges@.len() ==> (match (#[trigger] edges@[i]).node {
                        HashTrieNode::Branch { id } => exists|p: Seq<K::V>|
                            node_get(edges@, id, p) is Some,
                        HashTrieNode::Leaf { .. } => true,
                    })
            },
        }
    }

    /// A path can be inserted exactly when no stored path is a prefix of it
    /// and it is a prefix of no stored path (equality included).
    pub open spec fn can_insert(&self, path: Seq<K::V>) -> bool {
        forall|q: Seq<K::V>|
            (#[trigger] self.spec_get(q)) is Some ==> !is_prefix_of(q, path) && !is_prefix_of(
                path,
                q,
            )
    }

    /// Room to allocate `extra` fresh node ids.
    pub open spec fn has_capacity(&self, extra: nat) -> bool {
        match self {
            HashTrie::Trivial { .. } => true,
            HashTrie::Standard { next_id, .. } => *next_id + extra <= u32::MAX,
        }
    }
}

pub proof fn lemma_find_edge_some<K: View, V>(edges: Seq<TrieEdge<K, V>>, from: u32, key: K::V)
    ensures
        find_edge(edges, from, key) is Some <==> exists|i: int|
            0 <= i < edges.len() && (#[trigger] edges[i]).from == from && edges[i].key@ == key,
        find_edge(edges, from, key) matches Some(node) ==> exists|i: int|
            0 <= i < edges.len() && (#[trigger] edges[i]).from == from && edges[i].key@ == key
                && edges[i].node == node,
    decreases edges.len(),
{
    if edges.len() > 0 {
        let rest = edges.drop_first();
        lemma_find_edge_some(rest, from, key);
        assert(forall|i: int| 0 <= i < rest.len() ==> rest[i] == edges[i + 1]);
        if edges[0].from == from && edges[0].key@ == key {
            assert(0 <= 0 < edges.len() && edges[0].from == from && edges[0].key@ == key);
        } else {
            if exists|i: int|
                0 <= i < edges.len() && (#[trigger] edges[i]).from == from && edges[i].key@
                    == key {
                let i = choose|i: int|
                    0 <= i < edges.len() && (#[trigger] edges[i]).from == from && edges[i].key@
                        == key;
                assert(i >= 1);
                assert(rest[i - 1].from == from && rest[i - 1].key@ == key);
            }
            if find_edge(rest, from, key) is Some {
                let node = find_edge(rest, from, key).unwrap();
                let i = choose|i: int|
                    0 <= i < rest.len() && (#[trigger] rest[i]).from == from && rest[i].key@ == key
                        && rest[i].node == node;
                assert(edges[i + 1].from == from && edges[i + 1].key@ == key && edges[i
                    + 1].node == node);
            }
        }
    }
}

/// Under edge uniqueness, an edge that matches is the one that `find_edge`
/// returns.
pub proof fn lemma_find_edge_at<K: View, V>(edges: Seq<TrieEdge<K, V>>, i: int)
    requires
        edges_distinct(edges),
        0 <= i < edges.len(),
    ensures
        find_edge(edges, edges[i].from, edges[i].key@) == Some(edges[i].node),
    decreases edges.len(),
{
    if i == 0 {
    } else {
        let rest = edges.drop_first();
        assert(forall|j: int| 0 <= j < rest.len() ==> rest[j] == edges[j + 1]);
        assert(edges_distinct(rest));
        lemma_find_edge_at(rest, i - 1);
        assert(!(edges[0].from == edges[i].from && edges[0].key@ == edges[i].key@));
    }
}

/// A walk along `p + q` is the walk along `p` continued along `q`.
pub proof fn lemma_walk_append<K: View, V>(
    edges: Seq<TrieEdge<K, V>>,
    n: u32,
    p: Seq<K::V>,
    q: Seq<K::V>,
)
    ensures
        walk_node(edges, n, p + q) == (match walk_node(edges, n, p) {
            Some(m) => walk_node(edges, m, q),
            None => None::<u32>,
        }),
    decreases p.len(),
{
    if p.len() == 0 {
        assert(p + q =~= q);
    } else {
        assert((p + q)[0] == p[0]);
        assert((p + q).len() > 0);
        match find_edge(edges, n, p[0]) {
            Some(HashTrieNode::Branch { id }) => {
                assert((p + q).drop_first() =~= p.drop_first() + q);
                lemma_walk_append(edges, id, p.drop_first(), q);
            },
            _ => {},
        }
    }
}

/// A stored value below `n` along `p` decomposes into a walk along all but
/// the last key, then a leaf edge for the last key.
pub proof fn lemma_node_get_decompose<K: View, V>(edges: Seq<TrieEdge<K, V>>, n: u32, p: Seq<K::V>)
    requires
        p.len() >= 1,
    ensures
        node_get(edges, n, p) == (match walk_node(edges, n, p.drop_last()) {
            Some(m) => match find_edge(edges, m, p.last()) {
                Some(HashTrieNode::Leaf { value }) => Some(value),
                _ => None::<V>,
            },
            None => None::<V>,
        }),
    decreases p.len(),
{
    if p.len() == 1 {
        assert(p.drop_last() =~= Seq::<K::V>::empty());
        assert(p.last() == p[0]);
        assert(walk_node(edges, n, p.drop_last()) == Some(n));
    } else {
        assert(p.drop_last().len() > 0);
        assert(p.drop_last()[0] == p[0]);
        match find_edge(edges, n, p[0]) {
            Some(HashTrieNode::Branch { id }) => {
                lemma_node_get_decompose(edges, id, p.drop_first());
                assert(p.drop_first().drop_last() =~= p.drop_last().drop_first());
                assert(p.drop_first().last() == p.last());
                assert(node_get(edges, n, p) == node_get(edges, id, p.drop_first()));
                assert(walk_node(edges, n, p.drop_last()) == walk_node(
                    edges,
                    id,
                    p.drop_last().drop_first(),
                ));
            },
            Some(HashTrieNode::Leaf { .. }) => {
                assert(node_get(edges, n, p) is None);
                assert(walk_node(edges, n, p.drop_last()) is None);
            },
            None => {
                assert(node_get(edges, n, p) is None);
                assert(walk_node(edges, n, p.drop_last()) is None);
            },
        }
    }
}

/// A value stored below the node that a walk reaches is stored below the
/// walk's starting point along the concatenated path.
pub proof fn lemma_node_get_append<K: View, V>(
    edges: Seq<TrieEdge<K, V>>,
    n: u32,
    p: Seq<K::V>,
    q: Seq<K::V>,
)
    requires
        q.len() >= 1,
    ensures
        node_get(edges, n, p + q) == (match walk_node(edges, n, p) {
            Some(m) => node_get(edges, m, q),
            None => None::<V>,
        }),
    decreases p.len(),
{
    if p.len() == 0 {
        assert(p + q =~= q);
    } else {
        assert((p + q)[0] == p[0]);
        assert((p + q).len() > 1);
        match find_edge(edges, n, p[0]) {
            Some(HashTrieNode::Branch { id }) => {
                assert((p + q).drop_first() =~= p.drop_first() + q);
                lemma_node_get_append(edges, id, p.drop_first(), q);
            },
            _ => {},
        }
    }
}

/// No walk of positive length ever arrives back at the root.
pub proof fn lemma_walk_to_root<K: View, V>(
    edges: Seq<TrieEdge<K, V>>,
    next_id: u32,
    n: u32,
    p: Seq<K::V>,
)
    requires
        edges_bounded(edges, next_id),
        walk_node(edges, n, p) == Some(0u32),
    ensures
        n == 0 && p.len() == 0,
    decreases p.len(),
{
    if p.len() > 0 {
        match find_edge(edges, n, p[0]) {
            Some(HashTrieNode::Branch { id }) => {
                lemma_find_edge_some(edges, n, p[0]);
                assert(id >= 1);
                lemma_walk_to_root(edges, next_id, id, p.drop_first());
            },
            _ => {},
        }
    }
}

/// Walks starting within bounds stay within bounds.
pub proof fn lemma_walk_bounded<K: View, V>(
    edges: Seq<TrieEdge<K, V>>,
    next_id: u32,
    n: u32,
    p: Seq<K::V>,
    x: u32,
)
    requires
        edges_bounded(edges, next_id),
        walk_node(edges, n, p) == Some(x),
        n < next_id,
    ensures
        x < next_id,
    decreases p.len(),
{
    if p.len() > 0 {
        match find_edge(edges, n, p[0]) {
            Some(HashTrieNode::Branch { id }) => {
                lemma_find_edge_some(edges, n, p[0]);
                lemma_walk_bounded(edges, next_id, id, p.drop_first(), x);
            },
            _ => {},
        }
    }
}

/// Since every node has a unique incoming branch edge, the path from the
/// root to a node is unique.
pub proof fn lemma_walk_injective<K: View, V>(
    edges: Seq<TrieEdge<K, V>>,
    next_id: u32,
    p1: Seq<K::V>,
    p2: Seq<K::V>,
    m: u32,
)
    requires
        edges_wf(edges, next_id),
        walk_node(edges, 0, p1) == Some(m),
        walk_node(edges, 0, p2) == Some(m),
    ensures
        p1 == p2,
    decreases p1.len(),
{
    if p1.len() == 0 {
        lemma_walk_to_root(edges, next_id, 0, p2);
        assert(p1 =~= p2);
    } else if p2.len() == 0 {
        lemma_walk_to_root(edges, next_id, 0, p1);
        assert(p1 =~= p2);
    } else {
        assert(p1.drop_last() + seq![p1.last()] =~= p1);
        assert(p2.drop_last() + seq![p2.last()] =~= p2);
        lemma_walk_append(edges, 0, p1.drop_last(), seq![p1.last()]);
        lemma_walk_append(edges, 0, p2.drop_last(), seq![p2.last()]);
        let x1 = walk_node(edges, 0, p1.drop_last()).unwrap();
        let x2 = walk_node(edges, 0, p2.drop_last()).unwrap();
        assert(walk_node(edges, x1, seq![p1.last()]) == Some(m));
        assert(walk_node(edges, x2, seq![p2.last()]) == Some(m));
        lemma_walk_single(edges, x1, p1.last());
        lemma_walk_single(edges, x2, p2.last());
        assert(find_edge(edges, x1, p1.last()) == Some(HashTrieNode::<V>::Branch { id: m }));
        assert(find_edge(edges, x2, p2.last()) == Some(HashTrieNode::<V>::Branch { id: m }));
        lemma_find_edge_some(edges, x1, p1.last());
        lemma_find_edge_some(edges, x2, p2.last());
        let i1 = choose|i: int|
            0 <= i < edges.len() && (#[trigger] edges[i]).from == x1 && edges[i].key@ == p1.last()
                && edges[i].node == HashTrieNode::<V>::Branch { id: m };
        let i2 = choose|i: int|
            0 <= i < edges.len() && (#[trigger] edges[i]).from == x2 && edges[i].key@ == p2.last()
                && edges[i].node == HashTrieNode::<V>::Branch { id: m };
        assert(i1 == i2);
        assert(x1 == x2 && p1.last() == p2.last());
        lemma_walk_injective(edges, next_id, p1.drop_last(), p2.drop_last(), x1);
        assert(p1 =~= p2);
    }
}

/// A walk along a single key steps through a branch edge.
pub proof fn lemma_walk_single<K: View, V>(edges: Seq<TrieEdge<K, V>>, n: u32, k: K::V)
    ensures
        walk_node(edges, n, seq![k]) == (match find_edge(edges, n, k) {
            Some(HashTrieNode::Branch { id }) => Some(id),
            _ => None::<u32>,
        }),
{
    let s = seq![k];
    assert(s.len() == 1 && s[0] == k);
    assert(s.drop_first() =~= Seq::<K::V>::empty());
    match find_edge(edges, n, k) {
        Some(HashTrieNode::Branch { id }) => {
            assert(walk_node(edges, id, s.drop_first()) == Some(id));
        },
        _ => {},
    }
}

/// `find_edge` on an extended arena: existing edges shadow the new one.
pub proof fn lemma_find_edge_push<K: View, V>(
    edges: Seq<TrieEdge<K, V>>,
    e: TrieEdge<K, V>,
    from: u32,
    key: K::V,
)
    ensures
        find_edge(edges.push(e), from, key) == (if find_edge(edges, from, key) is Some {
            find_edge(edges, from, key)
        } else if e.from == from && e.key@ == key {
            Some(e.node)
        } else {
            None::<HashTrieNode<V>>
        }),
    decreases edges.len(),
{
    if edges.len() == 0 {
        assert(edges.push(e)[0] == e);
        assert(edges.push(e).drop_first() =~= Seq::<TrieEdge<K, V>>::empty());
        assert(find_edge(Seq::<TrieEdge<K, V>>::empty(), from, key) is None);
    } else {
        assert(edges.push(e)[0] == edges[0]);
        assert(edges.push(e).drop_first() =~= edges.drop_first().push(e));
        lemma_find_edge_push(edges.drop_first(), e, from, key);
    }
}

/// A node that no edge starts from has no outgoing edges.
pub proof fn lemma_find_edge_absent<K: View, V>(edges: Seq<TrieEdge<K, V>>, from: u32, key: K::V)
    requires
        forall|i: int| 0 <= i < edges.len() ==> (#[trigger] edges[i]).from != from,
    ensures
        find_edge(edges, from, key) is None,
{
    lemma_find_edge_some(edges, from, key);
}

/// A successful walk survives the addition of any edge.
pub proof fn lemma_push_walk_preserved<K: View, V>(
    edges: Seq<TrieEdge<K, V>>,
    e: TrieEdge<K, V>,
    n: u32,
    p: Seq<K::V>,
)
    requires
        walk_node(edges, n, p) is Some,
    ensures
        walk_node(edges.push(e), n, p) == walk_node(edges, n, p),
    decreases p.len(),
{
    if p.len() > 0 {
        lemma_find_edge_push(edges, e, n, p[0]);
        match find_edge(edges, n, p[0]) {
            Some(HashTrieNode::Branch { id }) => {
                lemma_push_walk_preserved(edges, e, id, p.drop_first());
            },
            _ => {},
        }
    }
}

/// Adding a branch edge towards a node that has no edges and is no branch
/// target changes no stored value at all: the fresh branch has nothing
/// below it yet.
pub proof fn lemma_append_branch_frame<K: View, V>(
    edges: Seq<TrieEdge<K, V>>,
    e: TrieEdge<K, V>,
    id: u32,
    m: u32,
    p: Seq<K::V>,
)
    requires
        e.node == (HashTrieNode::<V>::Branch { id }),
        find_edge(edges, e.from, e.key@) is None,
        forall|i: int| 0 <= i < edges.len() ==> (#[trigger] edges[i]).from != id,
        e.from != id,
    ensures
        node_get(edges.push(e), m, p) == node_get(edges, m, p),
    decreases p.len(),
{
    if p.len() > 0 {
        lemma_find_edge_push(edges, e, m, p[0]);
        match find_edge(edges, m, p[0]) {
            Some(HashTrieNode::Branch { id: b }) => {
                lemma_append_branch_frame(edges, e, id, b, p.drop_first());
            },
            Some(HashTrieNode::Leaf { .. }) => {},
            None => {
                if e.from == m && e.key@ == p[0] {
                    // The walk steps into the fresh node, which has no
                    // outgoing edges on either side.
                    assert(forall|i: int|
                        0 <= i < edges.push(e).len() ==> (#[trigger] edges.push(e)[i]).from != id);
                    if p.drop_first().len() > 0 {
                        lemma_find_edge_absent(edges.push(e), id, p.drop_first()[0]);
                    }
                    assert(node_get(edges.push(e), id, p.drop_first()) is None);
                    assert(node_get(edges, m, p) is None);
                }
            },
        }
    }
}

/// Walks ignore leaf edges, so adding one changes no walk.
pub proof fn lemma_append_leaf_walk<K: View, V>(
    edges: Seq<TrieEdge<K, V>>,
    e: TrieEdge<K, V>,
    n: u32,
    p: Seq<K::V>,
)
    requires
        e.node matches HashTrieNode::Leaf { .. },
    ensures
        walk_node(edges.push(e), n, p) == walk_node(edges, n, p),
    decreases p.len(),
{
    if p.len() > 0 {
        lemma_find_edge_push(edges, e, n, p[0]);
        match find_edge(edges, n, p[0]) {
            Some(HashTrieNode::Branch { id }) => {
                lemma_append_leaf_walk(edges, e, id, p.drop_first());
            },
            _ => {},
        }
    }
}

/// Adding a leaf edge at an unused slot stores its value at exactly the
/// paths that walk to its origin and end with its key, and changes nothing
/// else.
pub proof fn lemma_append_leaf_get<K: View, V>(
    edges: Seq<TrieEdge<K, V>>,
    e: TrieEdge<K, V>,
    value: V,
    m: u32,
    p: Seq<K::V>,
)
    requires
        e.node == (HashTrieNode::<V>::Leaf { value }),
        find_edge(edges, e.from, e.key@) is None,
    ensures
        node_get(edges.push(e), m, p) == (if p.len() >= 1 && walk_node(edges, m, p.drop_last())
            == Some(e.from) && p.last() == e.key@ {
            Some(value)
        } else {
            node_get(edges, m, p)
        }),
{
    if p.len() == 0 {
    } else {
        lemma_node_get_decompose(edges.push(e), m, p);
        lemma_node_get_decompose(edges, m, p);
        lemma_append_leaf_walk(edges, e, m, p.drop_last());
        match walk_node(edges, m, p.drop_last()) {
            Some(x) => {
                lemma_find_edge_push(edges, e, x, p.last());
            },
            None => {},
        }
    }
}

/// Replacing a leaf edge's payload changes `find_edge` at exactly that
/// edge's slot.
pub proof fn lemma_find_edge_update<K: View, V>(
    edges: Seq<TrieEdge<K, V>>,
    idx: int,
    e: TrieEdge<K, V>,
    from: u32,
    key: K::V,
)
    requires
        edges_distinct(edges),
        0 <= idx < edges.len(),
        e.from == edges[idx].from,
        e.key@ == edges[idx].key@,
    ensures
        find_edge(edges.update(idx, e), from, key) == (if from == e.from && key == e.key@ {
            Some(e.node)
        } else {
            find_edge(edges, from, key)
        }),
    decreases edges.len(),
{
    let upd = edges.update(idx, e);
    assert(forall|t: int| 0 <= t < edges.len() && t != idx ==> upd[t] == edges[t]);
    assert(upd[idx] == e);
    if idx == 0 {
        if !(from == e.from && key == e.key@) {
            assert(upd.drop_first() =~= edges.drop_first());
        } else {
        }
    } else {
        assert(upd[0] == edges[0]);
        if edges[0].from == from && edges[0].key@ == key {
            // The first edge shadows the updated slot; uniqueness says the
            // updated slot cannot also match.
            assert(!(edges[0].from == edges[idx].from && edges[0].key@ == edges[idx].key@));
        } else {
            let rest = edges.drop_first();
            assert(forall|t: int| 0 <= t < rest.len() ==> rest[t] == edges[t + 1]);
            assert(edges_distinct(rest));
            assert(upd.drop_first() =~= rest.update(idx - 1, e));
            lemma_find_edge_update(rest, idx - 1, e, from, key);
        }
    }
}

/// Walks ignore leaf payloads, so replacing one changes no walk.
pub proof fn lemma_update_leaf_walk<K: View, V>(
    edges: Seq<TrieEdge<K, V>>,
    idx: int,
    e: TrieEdge<K, V>,
    n: u32,
    p: Seq<K::V>,
)
    requires
        edges_distinct(edges),
        0 <= idx < edges.len(),
        e.from == edges[idx].from,
        e.key@ == edges[idx].key@,
        e.node matches HashTrieNode::Leaf { .. },
        edges[idx].node matches HashTrieNode::Leaf { .. },
    ensures
        walk_node(edges.update(idx, e), n, p) == walk_node(edges, n, p),
    decreases p.len(),
{
    if p.len() > 0 {
        lemma_find_edge_update(edges, idx, e, n, p[0]);
        lemma_find_edge_at(edges, idx);
        match find_edge(edges, n, p[0]) {
            Some(HashTrieNode::Branch { id }) => {
                lemma_update_leaf_walk(edges, idx, e, id, p.drop_first());
            },
            _ => {},
        }
    }
}

/// Replacing a leaf edge's payload moves the stored value at exactly the
/// paths that end on that edge.
pub proof fn lemma_update_leaf_get<K: View, V>(
    edges: Seq<TrieEdge<K, V>>,
    idx: int,
    e: TrieEdge<K, V>,
    value: V,
    m: u32,
    p: Seq<K::V>,
)
    requires
        edges_distinct(edges),
        0 <= idx < edges.len(),
        e.from == edges[idx].from,
        e.key@ == edges[idx].key@,
        e.node == (HashTrieNode::<V>::Leaf { value }),
        edges[idx].node matches HashTrieNode::Leaf { .. },
    ensures
        node_get(edges.update(idx, e), m, p) == (if p.len() >= 1 && walk_node(
            edges,
            m,
            p.drop_last(),
        ) == Some(e.from) && p.last() == e.key@ {
            Some(value)
        } else {
            node_get(edges, m, p)
        }),
{
    if p.len() == 0 {
    } else {
        lemma_node_get_decompose(edges.update(idx, e), m, p);
        lemma_node_get_decompose(edges, m, p);
        lemma_update_leaf_walk(edges, idx, e, m, p.drop_last());
        match walk_node(edges, m, p.drop_last()) {
            Some(x) => {
                lemma_find_edge_update(edges, idx, e, x, p.last());
            },
            None => {},
        }
    }
}

/// A well-formed arena with at least one edge stores at least one value.
pub proof fn lemma_nonempty_edges_value<K: View, V>(edges: Seq<TrieEdge<K, V>>, next_id: u32)
    requires
        edges.len() > 0,
        edges_wf(edges, next_id),
        forall|i: int|
            0 <= i < edges.len() ==> exists|p: Seq<K::V>|
                walk_node(edges, 0, p) == Some((#[trigger] edges[i]).from),
        forall|i: int|
            0 <= i < edges.len() ==> (match (#[trigger] edges[i]).node {
                HashTrieNode::Branch { id } => exists|p: Seq<K::V>| node_get(edges, id, p) is Some,
                HashTrieNode::Leaf { .. } => true,
            }),
    ensures
        exists|q: Seq<K::V>| (#[trigger] node_get(edges, 0, q)) is Some,
{
    let e = edges[0];
    let p0 = choose|p: Seq<K::V>| walk_node(edges, 0, p) == Some(e.from);
    lemma_find_edge_at(edges, 0);
    match e.node {
        HashTrieNode::Leaf { .. } => {
            let q = p0 + seq![e.key@];
            assert(seq![e.key@].len() == 1);
            lemma_node_get_append(edges, 0, p0, seq![e.key@]);
            assert(node_get(edges, e.from, seq![e.key@]) is Some);
            assert(node_get(edges, 0, q) is Some);
        },
        HashTrieNode::Branch { id } => {
            let q1 = choose|p: Seq<K::V>| node_get(edges, id, p) is Some;
            assert(q1.len() >= 1);
            lemma_walk_append(edges, 0, p0, seq![e.key@]);
            lemma_walk_single(edges, e.from, e.key@);
            assert(walk_node(edges, e.from, seq![e.key@]) == Some(id));
            assert(walk_node(edges, 0, p0 + seq![e.key@]) == Some(id));
            lemma_node_get_append(edges, 0, p0 + seq![e.key@], q1);
            assert(node_get(edges, 0, (p0 + seq![e.key@]) + q1) is Some);
        },
    }
}

/// If a walk from the root dies at `(n, pv[i])`, no stored path is in a
/// prefix relation with `pv` in either direction.
pub proof fn lemma_no_conflict<K: View, V>(
    edges: Seq<TrieEdge<K, V>>,
    next_id: u32,
    pv: Seq<K::V>,
    i: int,
    n: u32,
)
    requires
        edges_wf(edges, next_id),
        1 <= pv.len(),
        0 <= i < pv.len(),
        walk_node(edges, 0, pv.take(i)) == Some(n),
        find_edge(edges, n, pv[i]) is None,
    ensures
        forall|q: Seq<K::V>|
            (#[trigger] node_get(edges, 0, q)) is Some ==> !is_prefix_of(q, pv) && !is_prefix_of(
                pv,
                q,
            ),
{
    // The walk from the root cannot pass position i.
    assert(pv.take(i) + seq![pv[i]] =~= pv.take(i + 1));
    lemma_walk_append(edges, 0, pv.take(i), seq![pv[i]]);
    lemma_walk_single(edges, n, pv[i]);
    assert(walk_node(edges, 0, pv.take(i + 1)) is None);
    assert forall|q: Seq<K::V>| (#[trigger] node_get(edges, 0, q)) is Some implies !is_prefix_of(
        q,
        pv,
    ) && !is_prefix_of(pv, q) by {
        assert(q.len() >= 1);
        lemma_node_get_decompose(edges, 0, q);
        let x = walk_node(edges, 0, q.drop_last()).unwrap();
        assert(find_edge(edges, x, q.last()) matches Some(HashTrieNode::Leaf { .. }));
        if is_prefix_of(q, pv) {
            let s = q.len() - 1;
            assert(q.drop_last() =~= pv.take(s));
            assert(q.last() == pv[s]);
            if s < i {
                assert(pv.take(s) + pv.subrange(s, i) =~= pv.take(i));
                lemma_walk_append(edges, 0, pv.take(s), pv.subrange(s, i));
                let sub = pv.subrange(s, i);
                assert(sub.len() >= 1);
                assert(sub[0] == pv[s]);
                assert(walk_node(edges, x, sub) == Some(n));
                assert(find_edge(edges, x, pv[s]) matches Some(HashTrieNode::Branch { .. }));
                assert(false);
            } else if s == i {
                assert(x == n);
                assert(false);
            } else {
                // q ends beyond the dead position, so its walk crosses it.
                assert(q.drop_last().take(i + 1) =~= pv.take(i + 1));
                assert(q.drop_last().take(i + 1) + q.drop_last().skip(i + 1) =~= q.drop_last());
                lemma_walk_append(edges, 0, q.drop_last().take(i + 1), q.drop_last().skip(i + 1));
                assert(false);
            }
        }
        if is_prefix_of(pv, q) {
            assert(pv == q.take(pv.len() as int));
            if q.len() == pv.len() {
                let s = q.len() - 1;
                assert(q.drop_last() =~= pv.take(s));
                assert(q.last() == pv[s]);
                if s == i {
                    assert(x == n);
                    assert(false);
                } else {
                    assert(i < s);
                    assert(q.drop_last().take(i + 1) =~= pv.take(i + 1));
                    assert(q.drop_last().take(i + 1) + q.drop_last().skip(i + 1) =~= q.drop_last());
                    lemma_walk_append(
                        edges,
                        0,
                        q.drop_last().take(i + 1),
                        q.drop_last().skip(i + 1),
                    );
                    assert(false);
                }
            } else {
                assert(q.len() > pv.len());
                assert(q.drop_last().len() >= pv.len() > i);
                assert(forall|t: int| 0 <= t < pv.len() ==> q[t] == pv[t]) by {
                    assert(forall|t: int|
                        0 <= t < pv.len() ==> q.take(pv.len() as int)[t] == q[t]);
                }
                assert(q.drop_last().take(i + 1) =~= pv.take(i + 1));
                assert(q.drop_last().take(i + 1) + q.drop_last().skip(i + 1) =~= q.drop_last());
                lemma_walk_append(edges, 0, q.drop_last().take(i + 1), q.drop_last().skip(i + 1));
                assert(false);
            }
        }
    }
}

/// The node reached after `t` steps along a freshly created chain whose
/// branch ids were allocated consecutively from `base`.
pub open spec fn chain_node(base: u32, n0: u32, t: int) -> u32 {
    if t <= 0 {
        n0
    } else {
        (base + t - 1) as u32
    }
}

/// Walking the created chain from any of its nodes reaches the chain's end.
pub proof fn lemma_chain_tail<K: View, V>(
    edges: Seq<TrieEdge<K, V>>,
    pv: Seq<K::V>,
    i0: int,
    old_len: int,
    base: u32,
    n0: u32,
    n_end: u32,
    t: int,
)
    requires
        1 <= pv.len(),
        0 <= i0 <= pv.len() - 1,
        0 <= t <= pv.len() - 1 - i0,
        base + pv.len() <= u32::MAX,
        edges_distinct(edges),
        edges.len() >= old_len + (pv.len() - 1 - i0),
        old_len >= 0,
        forall|s: int|
            0 <= s < pv.len() - 1 - i0 ==> {
                &&& (#[trigger] edges[old_len + s]).from == chain_node(base, n0, s)
                &&& edges[old_len + s].key@ == pv[i0 + s]
                &&& edges[old_len + s].node == (HashTrieNode::<V>::Branch {
                    id: (base + s) as u32,
                })
            },
        n_end == chain_node(base, n0, pv.len() - 1 - i0),
    ensures
        walk_node(edges, chain_node(base, n0, t), pv.subrange(i0 + t, pv.len() - 1)) == Some(n_end),
    decreases pv.len() - 1 - i0 - t,
{
    let sub = pv.subrange(i0 + t, pv.len() - 1);
    if t == pv.len() - 1 - i0 {
        assert(sub =~= Seq::<K::V>::empty());
    } else {
        assert(sub.len() >= 1);
        assert(sub[0] == pv[i0 + t]);
        lemma_find_edge_at(edges, old_len + t);
        assert(find_edge(edges, chain_node(base, n0, t), pv[i0 + t]) == Some(
            HashTrieNode::<V>::Branch { id: (base + t) as u32 },
        ));
        assert((base + t) as u32 == chain_node(base, n0, t + 1));
        assert(sub.drop_first() =~= pv.subrange(i0 + t + 1, pv.len() - 1));
        lemma_chain_tail(edges, pv, i0, old_len, base, n0, n_end, t + 1);
    }
}



/// A trie that already stores a path rejects every path related to it by
/// prefix in either direction: the stored path is a standing witness
/// against the insertion.
pub proof fn lemma_prefix_free_rejection<K: View, V>(
    t: HashTrie<K, V>,
    p: Seq<K::V>,
    q: Seq<K::V>,
)
    requires
        t.spec_get(p) is Some,
        is_prefix_of(p, q) || is_prefix_of(q, p),
    ensures
        !t.can_insert(q),
{
    assert(t.spec_get(p) is Some && (is_prefix_of(p, q) || is_prefix_of(q, p)));
}

/// First match in a linear scan agrees with `find_edge`.
fn find_edge_idx<K: TrieKey, V>(edges: &Vec<TrieEdge<K, V>>, from: u32, key: &K) -> (r: Option<
    usize,
>)
    ensures
        match r {
            Some(i) => i < edges@.len() && edges@[i as int].from == from && edges@[i as int].key@
                == key@ && find_edge(edges@, from, key@) == Some(edges@[i as int].node),
            None => find_edge(edges@, from, key@) is None,
        },
{
    let mut i: usize = 0;
    loop
        invariant
            i <= edges@.len(),
            forall|j: int|
                0 <= j < i ==> !((#[trigger] edges@[j]).from == from && edges@[j].key@ == key@),
        ensures
            i <= edges@.len(),
            forall|j: int|
                0 <= j < i ==> !((#[trigger] edges@[j]).from == from && edges@[j].key@ == key@),
            i < edges@.len() ==> edges@[i as int].from == from && edges@[i as int].key@ == key@,
        decreases edges@.len() - i,
    {
        if i >= edges.len() {
            break;
        }
        let same_from = edges[i].from == from;
        if same_from && key.key_eq(&edges[i].key) {
            break;
        }
        i += 1;
    }
    proof {
        lemma_find_edge_scan(edges@, from, key@, i as int);
    }
    if i < edges.len() {
        Some(i)
    } else {
        None
    }
}

/// If no edge before `i` matches, the scan outcome at `i` is the
/// `find_edge` outcome.
pub proof fn lemma_find_edge_scan<K: View, V>(
    edges: Seq<TrieEdge<K, V>>,
    from: u32,
    key: K::V,
    i: int,
)
    requires
        0 <= i <= edges.len(),
        forall|j: int| 0 <= j < i ==> !((#[trigger] edges[j]).from == from && edges[j].key@ == key),
    ensures
        i < edges.len() && edges[i].from == from && edges[i].key@ == key ==> find_edge(
            edges,
            from,
            key,
        ) == Some(edges[i].node),
        i == edges.len() ==> find_edge(edges, from, key) is None,
    decreases edges.len(),
{
    if edges.len() > 0 {
        if !(edges[0].from == from && edges[0].key@ == key) {
            let rest = edges.drop_first();
            assert(forall|j: int| 0 <= j < rest.len() ==> rest[j] == edges[j + 1]);
            lemma_find_edge_scan(rest, from, key, if i >= 1 {
                i - 1
            } else {
                0
            });
        }
    }
}

impl<K: TrieKey, V> HashTrie<K, V> {
    /// The empty trie: no edges, node ids starting after the root's 0.
    pub fn new() -> (t: Self)
        ensures
            t.wf(),
            forall|p: Seq<K::V>| (#[trigger] t.spec_get(p)) is None,
            t.has_capacity((u32::MAX - 1) as nat),
            t matches HashTrie::Standard { edges, next_id } && edges@.len() == 0 && next_id == 1u32,
    {
        let t = HashTrie::Standard { edges: Vec::new(), next_id: 1 };
        proof {
            match &t {
                HashTrie::Standard { edges, .. } => {
                    assert(forall|p: Seq<K::V>| (#[trigger] node_get(edges@, 0, p)) is None)
                        by {
                        assert(forall|p: Seq<K::V>, n: u32|
                            p.len() > 0 ==> (#[trigger] find_edge(edges@, n, p[0])) is None);
                    }
                },
                _ => {},
            }
        }
        t
    }

    /// The value stored at exactly `path`, if `path` lands on a leaf.
    #[verifier::loop_isolation(false)]
    pub fn get<'a>(&'a self, path: &Vec<K>) -> (r: Option<&'a V>)
        ensures
            match r {
                Some(v) => self.spec_get(key_views(path@)) == Some(*v),
                None => self.spec_get(key_views(path@)) is None,
            },
    {
        let ghost pv = key_views(path@);
        match self {
            HashTrie::Trivial { value } => {
                if path.len() == 0 {
                    Some(value)
                } else {
                    None
                }
            },
            HashTrie::Standard { edges, .. } => {
                if path.len() == 0 {
                    return None;
                }
                let mut n: u32 = 0;
                let mut i: usize = 0;
                proof {
                    assert(pv.skip(0) =~= pv);
                }
                loop
                    invariant
                        i < path@.len(),
                        pv == key_views(path@),
                        pv.len() == path@.len(),
                        node_get(edges@, 0, pv) == node_get(edges@, n, pv.skip(i as int)),
                    decreases path@.len() - i,
                {
                    let ghost rem = pv.skip(i as int);
                    proof {
                        assert(rem.len() == pv.len() - i);
                        assert(rem[0] == pv[i as int]);
                        assert(pv[i as int] == path@[i as int]@);
                    }
                    match find_edge_idx(edges, n, &path[i]) {
                        None => {
                            return None;
                        },
                        Some(idx) => {
                            match &edges[idx].node {
                                HashTrieNode::Leaf { value } => {
                                    if i == path.len() - 1 {
                                        return Some(value);
                                    } else {
                                        return None;
                                    }
                                },
                                HashTrieNode::Branch { id } => {
                                    if i == path.len() - 1 {
                                        proof {
                                            assert(rem.len() == 1);
                                            assert(rem.drop_first() =~= Seq::<K::V>::empty());
                                            assert(node_get(
                                                edges@,
                                                *id,
                                                rem.drop_first(),
                                            ) is None);
                                        }
                                        return None;
                                    }
                                    proof {
                                        assert(rem.drop_first() =~= pv.skip(i as int + 1));
                                    }
                                    n = *id;
                                    i += 1;
                                },
                            }
                        },
                    }
                }
            },
        }
    }

    /// Stores `value` at `path`. Returns true exactly when the path is in
    /// no prefix relation with any stored path (so the trie stays
    /// prefix-free) and enough node ids are left; on failure the trie is
    /// unchanged.
    #[verifier::loop_isolation(false)]
    #[verifier::rlimit(100)]
    pub fn insert(&mut self, path: &Vec<K>, value: V) -> (r: bool)
        requires
            old(self).wf(),
        ensures
            final(self).wf(),
            r == (old(self).can_insert(key_views(path@)) && old(self).has_capacity(
                path@.len() as nat,
            )),
            r ==> forall|p: Seq<K::V>|
                final(self).spec_get(p) == (if p == key_views(path@) {
                    Some(value)
                } else {
                    old(self).spec_get(p)
                }),
            !r ==> *final(self) == *old(self),
            forall|m: nat|
                old(self).has_capacity(m + path@.len()) ==> final(self).has_capacity(m),
    {
        let ghost pv = key_views(path@);
        proof {
            assert(pv.len() == path@.len());
        }
        let pathlen = path.len();
        match self {
            HashTrie::Trivial { .. } => {
                proof {
                    assert(old(self).spec_get(Seq::<K::V>::empty()) is Some);
                    assert(Seq::<K::V>::empty() =~= pv.take(0));
                    assert(is_prefix_of(Seq::<K::V>::empty(), pv));
                }
                false
            },
            HashTrie::Standard { edges, next_id } => {
                let next0 = *next_id;
                let ghost einit = edges@;
                proof {
                    assert(*old(self) == (HashTrie::Standard { edges: *edges, next_id: *next_id }));
                    assert(forall|p: Seq<K::V>|
                        old(self).spec_get(p) == (#[trigger] node_get(einit, 0, p)));
                }
                if pathlen == 0 {
                    if edges.len() == 0 {
                        proof {
                            assert(forall|q: Seq<K::V>|
                                (#[trigger] node_get(einit, 0, q)) is None) by {
                                assert(forall|q: Seq<K::V>, m: u32|
                                    q.len() > 0 ==> (#[trigger] find_edge(
                                        einit,
                                        m,
                                        q[0],
                                    )) is None);
                            }
                        }
                        *self = HashTrie::Trivial { value };
                        proof {
                            assert(pv =~= Seq::<K::V>::empty());
                            assert forall|p: Seq<K::V>|
                                self.spec_get(p) == (if p == key_views(path@) {
                                    Some(value)
                                } else {
                                    old(self).spec_get(p)
                                }) by {
                                if p.len() == 0 {
                                    assert(p =~= pv);
                                } else {
                                    assert(node_get(einit, 0, p) is None);
                                }
                            }
                        }
                        return true;
                    } else {
                        proof {
                            lemma_nonempty_edges_value(edges@, next0);
                            let q = choose|q: Seq<K::V>| (#[trigger] node_get(edges@, 0, q)) is Some;
                            assert(pv =~= q.take(0));
                            assert(is_prefix_of(pv, q));
                            assert(old(self).spec_get(q) is Some);
                        }
                        return false;
                    }
                }
                if ((u32::MAX - next0) as usize) < pathlen {
                    proof {
                        assert(!old(self).has_capacity(path@.len() as nat));
                    }
                    return false;
                }
                let mut n: u32 = 0;
                let mut i: usize = 0;
                proof {
                    assert(pv.take(0) =~= Seq::<K::V>::empty());
                }
                let mut found = find_edge_idx(edges, n, &path[i]);
                while found.is_some()
                    invariant
                        i < pathlen,
                        walk_node(edges@, 0, pv.take(i as int)) == Some(n),
                        match found {
                            Some(idx) => idx < edges@.len() && edges@[idx as int].from == n
                                && edges@[idx as int].key@ == pv[i as int] && find_edge(
                                edges@,
                                n,
                                pv[i as int],
                            ) == Some(edges@[idx as int].node),
                            None => find_edge(edges@, n, pv[i as int]) is None,
                        },
                    decreases pathlen - i,
                {
                    match found {
                        None => {
                            break;
                        },
                        Some(idx) => {
                            let is_last = i == pathlen - 1;
                            match &edges[idx].node {
                                HashTrieNode::Leaf { .. } => {
                                    proof {
                                        let q = pv.take(i as int + 1);
                                        assert(q.drop_last() =~= pv.take(i as int));
                                        assert(q.last() == pv[i as int]);
                                        lemma_node_get_decompose(edges@, 0, q);
                                        assert(node_get(edges@, 0, q) is Some);
                                        assert(q =~= pv.take(q.len() as int));
                                        assert(is_prefix_of(q, pv));
                                        assert(old(self).spec_get(q) is Some);
                                    }
                                    return false;
                                },
                                HashTrieNode::Branch { .. } => {
                                    proof {
                                        assert(pv.take(i as int) + seq![pv[i as int]] =~= pv.take(
                                            i as int + 1,
                                        ));
                                        lemma_walk_append(
                                            edges@,
                                            0,
                                            pv.take(i as int),
                                            seq![pv[i as int]],
                                        );
                                        lemma_walk_single(edges@, n, pv[i as int]);
                                    }
                                    let id = match &edges[idx].node {
                                        HashTrieNode::Branch { id } => *id,
                                        HashTrieNode::Leaf { .. } => 0,
                                    };
                                    if is_last {
                                        proof {
                                            assert(pv.take(i as int + 1) =~= pv);
                                            assert(walk_node(edges@, 0, pv) == Some(id));
                                            assert(match edges@[idx as int].node {
                                                HashTrieNode::Branch { id: b } => exists|
                                                    p: Seq<K::V>,
                                                |
                                                    node_get(edges@, b, p) is Some,
                                                HashTrieNode::Leaf { .. } => true,
                                            });
                                            let q1 = choose|p: Seq<K::V>|
                                                node_get(edges@, id, p) is Some;
                                            assert(q1.len() >= 1);
                                            lemma_node_get_append(edges@, 0, pv, q1);
                                            assert(node_get(edges@, 0, pv + q1) is Some);
                                            assert((pv + q1).take(pv.len() as int) =~= pv);
                                            assert(is_prefix_of(pv, pv + q1));
                                            assert(old(self).spec_get(pv + q1) is Some);
                                        }
                                        return false;
                                    }
                                    n = id;
                                    i += 1;
                                    found = find_edge_idx(edges, n, &path[i]);
                                },
                            }
                        },
                    }
                }
                proof {
                    assert(find_edge(edges@, n, pv[i as int]) is None);
                    lemma_no_conflict(edges@, next0, pv, i as int, n);
                    assert(old(self).can_insert(pv));
                }
                let ghost edges0 = edges@;
                let ghost i0 = i as int;
                let ghost n0 = n;
                let mut j = i;
                proof {
                    lemma_walk_bounded(edges@, next0, 0, pv.take(i as int), n);
                }
                while j + 1 < pathlen
                    invariant
                        i0 <= j < pathlen,
                        *next_id as int == next0 + (j - i0),
                        *next_id >= 1,
                        edges@.len() == edges0.len() + (j - i0),
                        forall|t: int| 0 <= t < edges0.len() ==> edges@[t] == edges0[t],
                        forall|t: int|
                            0 <= t < j - i0 ==> {
                                &&& (#[trigger] edges@[edges0.len() + t]).from == chain_node(
                                    next0,
                                    n0,
                                    t,
                                )
                                &&& edges@[edges0.len() + t].key@ == pv[i0 + t]
                                &&& edges@[edges0.len() + t].node == (HashTrieNode::<V>::Branch {
                                    id: (next0 + t) as u32,
                                })
                            },
                        n == chain_node(next0, n0, j - i0),
                        n < *next_id,
                        edges_wf(edges@, *next_id),
                        walk_node(edges@, 0, pv.take(j as int)) == Some(n),
                        find_edge(edges@, n, pv[j as int]) is None,
                        j > i0 ==> forall|t: int|
                            0 <= t < edges@.len() ==> (#[trigger] edges@[t]).from != n,
                        forall|m: u32, p: Seq<K::V>|
                            #![trigger node_get(edges@, m, p)]
                            node_get(edges@, m, p) == node_get(edges0, m, p),
                        forall|t: int|
                            0 <= t < edges@.len() ==> exists|p: Seq<K::V>|
                                walk_node(edges@, 0, p) == Some((#[trigger] edges@[t]).from),
                    decreases pathlen - j,
                {
                    let id = *next_id;
                    let e = TrieEdge { from: n, key: path[j].key_clone(), node: HashTrieNode::Branch { id } };
                    let ghost ge = e;
                    let ghost pre = edges@;
                    proof {
                        assert(ge.key@ == pv[j as int]);
                        lemma_find_edge_some(pre, n, pv[j as int]);
                    }
                    edges.push(e);
                    proof {
                        assert(edges@ =~= pre.push(ge));
                        // No stored value moves: the fresh branch has nothing below it.
                        assert(forall|t: int|
                            0 <= t < pre.len() ==> (#[trigger] pre[t]).from != id);
                        assert forall|m: u32, p: Seq<K::V>|
                            #![trigger node_get(edges@, m, p)]
                            node_get(edges@, m, p) == node_get(edges0, m, p) by {
                            lemma_append_branch_frame(pre, ge, id, m, p);
                        }
                        // Well-formedness of the extended arena.
                        assert(edges_bounded(edges@, (id + 1) as u32)) by {
                            assert(forall|t: int|
                                0 <= t < pre.len() ==> edges@[t] == pre[t]);
                        }
                        assert(edges_distinct(edges@)) by {
                            assert(forall|t: int|
                                0 <= t < pre.len() ==> !((#[trigger] pre[t]).from == n && pre[t].key@
                                    == pv[i0 + (j - i0)]));
                            assert(forall|t: int|
                                0 <= t < pre.len() ==> edges@[t] == pre[t]);
                        }
                        assert(branch_ids_distinct(edges@)) by {
                            assert(forall|t: int|
                                0 <= t < pre.len() ==> edges@[t] == pre[t]);
                        }
                        // The walk now extends one step into the fresh node.
                        lemma_push_walk_preserved(pre, ge, 0u32, pv.take(j as int));
                        lemma_find_edge_push(pre, ge, n, pv[j as int]);
                        assert(pv.take(j as int) + seq![pv[j as int]] =~= pv.take(j as int + 1));
                        lemma_walk_append(edges@, 0, pv.take(j as int), seq![pv[j as int]]);
                        lemma_walk_single(edges@, n, pv[j as int]);
                        assert(walk_node(edges@, 0, pv.take(j as int + 1)) == Some(id));
                        // The fresh node has no outgoing edges yet.
                        assert(forall|t: int|
                            0 <= t < edges@.len() ==> (#[trigger] edges@[t]).from != id);
                        lemma_find_edge_absent(edges@, id, pv[j as int + 1]);
                        // Every edge origin stays reachable.
                        assert forall|t: int| 0 <= t < edges@.len() implies exists|p: Seq<K::V>|
                            walk_node(edges@, 0, p) == Some((#[trigger] edges@[t]).from) by {
                            if t < pre.len() {
                                let p = choose|p: Seq<K::V>|
                                    walk_node(pre, 0, p) == Some(pre[t].from);
                                lemma_push_walk_preserved(pre, ge, 0u32, p);
                                assert(walk_node(edges@, 0, p) == Some(edges@[t].from));
                            } else {
                                lemma_push_walk_preserved(pre, ge, 0u32, pv.take(j as int));
                                assert(walk_node(edges@, 0, pv.take(j as int)) == Some(
                                    edges@[t].from,
                                ));
                            }
                        }
                    }
                    n = id;
                    *next_id = id + 1;
                    j += 1;
                    proof {
                        assert(n == chain_node(next0, n0, j - i0));
                    }
                }
                let ghost cur = edges@;
                let ghost curnext = *next_id;
                let leaf = TrieEdge { from: n, key: path[j].key_clone(), node: HashTrieNode::Leaf { value } };
                let ghost gleaf = leaf;
                proof {
                    assert(gleaf.key@ == pv[j as int]);
                    lemma_find_edge_some(cur, n, pv[j as int]);
                }
                edges.push(leaf);
                proof {
                    assert(edges@ =~= cur.push(gleaf));
                    let fin = edges@;
                    assert(pv.take(j as int) =~= pv.drop_last());
                    assert(pv[j as int] == pv.last());
                    // The new leaf stores the value at exactly the inserted path.
                    assert forall|p: Seq<K::V>|
                        #![trigger node_get(fin, 0, p)]
                        node_get(fin, 0, p) == (if p == pv {
                            Some(value)
                        } else {
                            node_get(edges0, 0, p)
                        }) by {
                        lemma_append_leaf_get(cur, gleaf, value, 0u32, p);
                        if p == pv {
                            assert(walk_node(cur, 0, p.drop_last()) == Some(n));
                        } else {
                            if p.len() >= 1 && walk_node(cur, 0, p.drop_last()) == Some(n)
                                && p.last() == gleaf.key@ {
                                lemma_walk_injective(
                                    cur,
                                    curnext,
                                    p.drop_last(),
                                    pv.take(j as int),
                                    n,
                                );
                                assert(p.drop_last().push(p.last()) =~= p);
                                assert(pv.drop_last().push(pv.last()) =~= pv);
                                assert(false);
                            }
                        }
                    }
                    // Well-formedness of the final arena.
                    assert(edges_bounded(fin, curnext)) by {
                        assert(forall|t: int| 0 <= t < cur.len() ==> fin[t] == cur[t]);
                    }
                    assert(edges_distinct(fin)) by {
                        assert(forall|t: int|
                            0 <= t < cur.len() ==> !((#[trigger] cur[t]).from == n && cur[t].key@
                                == pv[j as int]));
                        assert(forall|t: int| 0 <= t < cur.len() ==> fin[t] == cur[t]);
                    }
                    assert(branch_ids_distinct(fin)) by {
                        assert(forall|t: int| 0 <= t < cur.len() ==> fin[t] == cur[t]);
                    }
                    // Edge origins stay reachable.
                    assert forall|t: int| 0 <= t < fin.len() implies exists|p: Seq<K::V>|
                        walk_node(fin, 0, p) == Some((#[trigger] fin[t]).from) by {
                        if t < cur.len() {
                            let p = choose|p: Seq<K::V>| walk_node(cur, 0, p) == Some(cur[t].from);
                            lemma_append_leaf_walk(cur, gleaf, 0u32, p);
                            assert(walk_node(fin, 0, p) == Some(fin[t].from));
                        } else {
                            lemma_append_leaf_walk(cur, gleaf, 0u32, pv.take(j as int));
                            assert(walk_node(fin, 0, pv.take(j as int)) == Some(fin[t].from));
                        }
                    }
                    // Every branch still has a value below it: old branches keep
                    // theirs, and each chain branch now leads to the new leaf.
                    lemma_find_edge_push(cur, gleaf, n, pv[j as int]);
                    assert(find_edge(fin, n, pv[j as int]) == Some(gleaf.node));
                    assert forall|t: int| 0 <= t < fin.len() implies (match (#[trigger] fin[t]).node {
                        HashTrieNode::Branch { id } => exists|p: Seq<K::V>|
                            node_get(fin, id, p) is Some,
                        HashTrieNode::Leaf { .. } => true,
                    }) by {
                        assert(fin[cur.len() as int] == gleaf);
                        assert(forall|t2: int| 0 <= t2 < cur.len() ==> fin[t2] == cur[t2]);
                        match fin[t].node {
                            HashTrieNode::Branch { id } => {
                                assert(t < cur.len());
                                assert(fin[t] == cur[t]);
                                if t < edges0.len() {
                                    assert(cur[t] == edges0[t]);
                                    assert(edges0 == einit);
                                    assert(einit[t].node == (HashTrieNode::<V>::Branch { id }));
                                    assert(exists|p: Seq<K::V>| node_get(einit, id, p) is Some);
                                    let q = choose|p: Seq<K::V>| node_get(einit, id, p) is Some;
                                    assert(node_get(cur, id, q) == node_get(edges0, id, q));
                                    assert(node_get(cur, id, q) is Some);
                                    lemma_append_leaf_get(cur, gleaf, value, id, q);
                                    assert(node_get(fin, id, q) is Some);
                                } else {
                                    // A chain branch: walk its tail to the leaf.
                                    let s = t - edges0.len();
                                    assert(0 <= s < j - i0);
                                    assert(cur[edges0.len() + s].node == (HashTrieNode::<
                                        V,
                                    >::Branch { id: (next0 + s) as u32 }));
                                    assert(fin[t].node == (HashTrieNode::<V>::Branch {
                                        id: (next0 + s) as u32,
                                    }));
                                    assert(id == (next0 + s) as u32);
                                    assert(id == chain_node(next0, n0, s + 1));
                                    lemma_chain_tail(
                                        fin,
                                        pv,
                                        i0,
                                        edges0.len() as int,
                                        next0,
                                        n0,
                                        n,
                                        s + 1,
                                    );
                                    let tail = pv.subrange(i0 + s + 1, pv.len() as int);
                                    assert(tail.len() >= 1);
                                    assert(tail.drop_last() =~= pv.subrange(
                                        i0 + s + 1,
                                        pv.len() - 1,
                                    ));
                                    assert(tail.last() == pv[j as int]);
                                    lemma_node_get_decompose(fin, id, tail);
                                    assert(node_get(fin, id, tail) is Some);
                                }
                            },
                            HashTrieNode::Leaf { .. } => {},
                        }
                    }
                }
                true
            },
        }
    }

    /// A read view of the root.
    pub fn as_view<'a>(&'a self) -> (v: HashTrieView<'a, K, V>)
        ensures
            v.wf(),
            v.trie() == *self,
            v.path() == Seq::<K::V>::empty(),
    {
        HashTrieView { trie: self, edge: None, path: Ghost(Seq::empty()) }
    }

    /// Whether descending every key of `p` but the last lands on branches,
    /// so that a view of the node at `p` exists.
    pub open spec fn spec_has_view(&self, p: Seq<K::V>) -> bool {
        p.len() >= 1 && match self {
            HashTrie::Standard { edges, .. } => walk_node(edges@, 0, p.drop_last()) is Some,
            HashTrie::Trivial { .. } => false,
        }
    }

    /// The view at `path`, built by descending key by key from the root;
    /// the empty path yields no view.
    #[verifier::loop_isolation(false)]
    pub fn get_view<'a>(&'a self, path: &Vec<K>) -> (r: Option<HashTrieView<'a, K, V>>)
        ensures
            r is Some <==> self.spec_has_view(key_views(path@)),
            match r {
                Some(v) => v.wf() && v.trie() == *self && v.path() == key_views(path@),
                None => true,
            },
    {
        let ghost pv = key_views(path@);
        if path.len() == 0 {
            return None;
        }
        let root = self.as_view();
        let mut view = match root.descend(&path[0]) {
            Some(v) => v,
            None => {
                return None;
            },
        };
        let mut i: usize = 1;
        proof {
            assert(view.path() =~= pv.take(1));
        }
        while i < path.len()
            invariant
                1 <= i <= path@.len(),
                view.wf(),
                view.trie() == *self,
                view.path() == pv.take(i as int),
            decreases path@.len() - i,
        {
            match view.descend(&path[i]) {
                Some(v2) => {
                    proof {
                        assert(pv.take(i as int) + seq![pv[i as int]] =~= pv.take(i as int + 1));
                    }
                    view = v2;
                    i += 1;
                },
                None => {
                    proof {
                        match self {
                            HashTrie::Standard { edges, .. } => {
                                let vp = pv.take(i as int);
                                assert(vp.drop_last() + seq![vp.last()] =~= vp);
                                lemma_walk_append(edges@, 0, vp.drop_last(), seq![vp.last()]);
                                match view.edge {
                                    Some((f, k)) => {
                                        lemma_walk_single(edges@, f, vp.last());
                                        assert(walk_node(edges@, 0, vp) is None);
                                    },
                                    None => {
                                        assert(false);
                                    },
                                }
                                assert(pv.drop_last().take(i as int) =~= pv.take(i as int));
                                assert(pv.drop_last().take(i as int) + pv.drop_last().skip(
                                    i as int,
                                ) =~= pv.drop_last());
                                lemma_walk_append(
                                    edges@,
                                    0,
                                    pv.drop_last().take(i as int),
                                    pv.drop_last().skip(i as int),
                                );
                                assert(walk_node(edges@, 0, pv.drop_last()) is None);
                            },
                            HashTrie::Trivial { .. } => {},
                        }
                    }
                    return None;
                },
            }
        }
        proof {
            assert(pv.take(path@.len() as int) =~= pv);
            match view.edge {
                Some(_) => {},
                None => {
                    assert(false);
                },
            }
        }
        Some(view)
    }
}

/// A read-only view of one trie node, identified by the edge leading to it
/// (`None` marks the root), together with the ghost path from the root.
pub struct HashTrieView<'a, K: View, V> {
    trie: &'a HashTrie<K, V>,
    edge: Option<(u32, K)>,
    path: Ghost<Seq<<K as View>::V>>,
}

impl<'a, K: TrieKey, V> HashTrieView<'a, K, V> {
    pub closed spec fn trie(&self) -> HashTrie<K, V> {
        *self.trie
    }

    pub closed spec fn path(&self) -> Seq<K::V> {
        self.path@
    }

    pub closed spec fn wf(&self) -> bool {
        match self.edge {
            None => self.path@.len() == 0,
            Some((f, k)) => match *self.trie {
                HashTrie::Standard { edges, .. } => self.path@.len() >= 1 && walk_node(
                    edges@,
                    0,
                    self.path@.drop_last(),
                ) == Some(f) && self.path@.last() == k@,
                HashTrie::Trivial { .. } => false,
            },
        }
    }

    /// Whether a further descent is possible: the root of an arena always
    /// admits one, any other node only if its edge leads to a branch.
    pub closed spec fn can_descend(&self) -> bool {
        match *self.trie {
            HashTrie::Standard { edges, .. } => match self.edge {
                None => true,
                Some((f, k)) => find_edge(edges@, f, k@) matches Some(HashTrieNode::Branch { .. }),
            },
            HashTrie::Trivial { .. } => false,
        }
    }

    /// The stored value at this view's node, if the node is a leaf.
    pub fn value(&self) -> (r: Option<&'a V>)
        requires
            self.wf(),
        ensures
            match r {
                Some(v) => self.trie().spec_get(self.path()) == Some(*v),
                None => self.trie().spec_get(self.path()) is None,
            },
    {
        match &self.edge {
            None => match self.trie {
                HashTrie::Trivial { value } => Some(value),
                HashTrie::Standard { .. } => None,
            },
            Some((f, k)) => match self.trie {
                HashTrie::Standard { edges, .. } => {
                    proof {
                        lemma_node_get_decompose(edges@, 0, self.path@);
                    }
                    match find_edge_idx(edges, *f, k) {
                        Some(idx) => match &edges[idx].node {
                            HashTrieNode::Leaf { value } => Some(value),
                            HashTrieNode::Branch { .. } => None,
                        },
                        None => None,
                    }
                },
                HashTrie::Trivial { .. } => {
                    proof {
                        assert(false);
                    }
                    None
                },
            },
        }
    }

    /// A view one key further along `key`, when this node is a branch.
    pub fn descend(&self, key: &K) -> (r: Option<HashTrieView<'a, K, V>>)
        requires
            self.wf(),
        ensures
            r is Some <==> self.can_descend(),
            match r {
                Some(v2) => v2.wf() && v2.trie() == self.trie() && v2.path() == self.path()
                    + seq![key@],
                None => true,
            },
    {
        let ghost newpath = self.path@ + seq![key@];
        proof {
            assert(newpath.drop_last() =~= self.path@);
            assert(newpath.last() == key@);
        }
        match &self.edge {
            None => match self.trie {
                HashTrie::Standard { .. } => {
                    proof {
                        assert(self.path@ =~= Seq::<K::V>::empty());
                    }
                    Some(
                        HashTrieView {
                            trie: self.trie,
                            edge: Some((0u32, key.key_clone())),
                            path: Ghost(newpath),
                        },
                    )
                },
                HashTrie::Trivial { .. } => None,
            },
            Some((f, k)) => match self.trie {
                HashTrie::Standard { edges, .. } => {
                    match find_edge_idx(edges, *f, k) {
                        Some(idx) => {
                            match &edges[idx].node {
                                HashTrieNode::Branch { id } => {
                                    proof {
                                        assert(self.path@.drop_last() + seq![self.path@.last()]
                                            =~= self.path@);
                                        lemma_walk_append(
                                            edges@,
                                            0,
                                            self.path@.drop_last(),
                                            seq![self.path@.last()],
                                        );
                                        lemma_walk_single(edges@, *f, self.path@.last());
                                        assert(walk_node(edges@, 0, self.path@) == Some(*id));
                                    }
                                    Some(
                                        HashTrieView {
                                            trie: self.trie,
                                            edge: Some((*id, key.key_clone())),
                                            path: Ghost(newpath),
                                        },
                                    )
                                },
                                HashTrieNode::Leaf { .. } => None,
                            }
                        },
                        None => None,
                    }
                },
                HashTrie::Trivial { .. } => {
                    proof {
                        assert(false);
                    }
                    None
                },
            },
        }
    }
}

/// A mutable cursor into a trie, identified like the read view by the
/// edge leading to its node; the trie itself is handed to each operation,
/// since the cursor cannot hold the exclusive borrow across calls.
pub struct HashTrieViewMut<K: View> {
    edge: Option<(u32, K)>,
    path: Ghost<Seq<<K as View>::V>>,
}

impl<K: TrieKey> HashTrieViewMut<K> {
    pub closed spec fn path(&self) -> Seq<K::V> {
        self.path@
    }

    pub closed spec fn wf<V>(&self, trie: HashTrie<K, V>) -> bool {
        match self.edge {
            None => self.path@.len() == 0,
            Some((f, k)) => match trie {
                HashTrie::Standard { edges, .. } => self.path@.len() >= 1 && walk_node(
                    edges@,
                    0,
                    self.path@.drop_last(),
                ) == Some(f) && self.path@.last() == k@,
                HashTrie::Trivial { .. } => false,
            },
        }
    }

    /// Whether a further step along some key is possible, creating the
    /// missing branch if need be: never across a leaf, and only while a
    /// fresh node id is left.
    pub closed spec fn can_advance<V>(&self, trie: HashTrie<K, V>) -> bool {
        match trie {
            HashTrie::Standard { edges, next_id } => match self.edge {
                None => true,
                Some((f, k)) => match find_edge(edges@, f, k@) {
                    Some(HashTrieNode::Branch { .. }) => true,
                    Some(HashTrieNode::Leaf { .. }) => false,
                    None => next_id < u32::MAX,
                },
            },
            HashTrie::Trivial { .. } => false,
        }
    }

    /// Whether the cursor's position can take a value: the root of an
    /// empty arena, or any edge slot not occupied by a branch.
    pub closed spec fn can_set<V>(&self, trie: HashTrie<K, V>) -> bool {
        match trie {
            HashTrie::Standard { edges, .. } => match self.edge {
                None => edges@.len() == 0,
                Some((f, k)) => !(find_edge(edges@, f, k@) matches Some(
                    HashTrieNode::Branch { .. },
                )),
            },
            HashTrie::Trivial { .. } => false,
        }
    }

    /// Moves one key deeper, creating the intermediate branch when the
    /// edge is absent; refuses to cross a leaf, which is what keeps the
    /// stored paths prefix-free. Creating a branch stores no value, so
    /// every stored value is untouched either way.
    pub fn descend_or_add<V>(self, trie: &mut HashTrie<K, V>, key: K) -> (r: Option<
        HashTrieViewMut<K>,
    >)
        requires
            old(trie).wf_core(),
            self.wf(*old(trie)),
        ensures
            final(trie).wf_core(),
            forall|p: Seq<K::V>|
                (#[trigger] final(trie).spec_get(p)) == old(trie).spec_get(p),
            r is Some <==> self.can_advance(*old(trie)),
            match r {
                Some(c2) => c2.wf(*final(trie)) && c2.path() == self.path() + seq![key@],
                None => *final(trie) == *old(trie),
            },
    {
        let ghost newpath = self.path@ + seq![key@];
        proof {
            assert(newpath.drop_last() =~= self.path@);
            assert(newpath.last() == key@);
        }
        match self.edge {
            None => match trie {
                HashTrie::Standard { .. } => {
                    proof {
                        assert(self.path@ =~= Seq::<K::V>::empty());
                    }
                    Some(HashTrieViewMut { edge: Some((0u32, key)), path: Ghost(newpath) })
                },
                HashTrie::Trivial { .. } => None,
            },
            Some((f, k)) => match trie {
                HashTrie::Standard { edges, next_id } => {
                    proof {
                        lemma_walk_bounded(edges@, *next_id, 0, self.path@.drop_last(), f);
                    }
                    match find_edge_idx(edges, f, &k) {
                        Some(idx) => {
                            match &edges[idx].node {
                                HashTrieNode::Branch { id } => {
                                    proof {
                                        assert(self.path@.drop_last() + seq![self.path@.last()]
                                            =~= self.path@);
                                        lemma_walk_append(
                                            edges@,
                                            0,
                                            self.path@.drop_last(),
                                            seq![self.path@.last()],
                                        );
                                        lemma_walk_single(edges@, f, self.path@.last());
                                        assert(walk_node(edges@, 0, self.path@) == Some(*id));
                                    }
                                    Some(
                                        HashTrieViewMut {
                                            edge: Some((*id, key)),
                                            path: Ghost(newpath),
                                        },
                                    )
                                },
                                HashTrieNode::Leaf { .. } => None,
                            }
                        },
                        None => {
                            if *next_id == u32::MAX {
                                return None;
                            }
                            let id = *next_id;
                            let e = TrieEdge { from: f, key: k, node: HashTrieNode::Branch { id } };
                            let ghost ge = e;
                            let ghost pre = edges@;
                            proof {
                                lemma_find_edge_some(pre, f, ge.key@);
                            }
                            edges.push(e);
                            *next_id = id + 1;
                            proof {
                                assert(edges@ =~= pre.push(ge));
                                assert(forall|t: int|
                                    0 <= t < pre.len() ==> (#[trigger] pre[t]).from != id);
                                assert forall|p: Seq<K::V>|
                                    (#[trigger] node_get(edges@, 0u32, p)) == node_get(
                                    pre,
                                    0u32,
                                    p,
                                ) by {
                                    lemma_append_branch_frame(pre, ge, id, 0u32, p);
                                }
                                assert(edges_bounded(edges@, (id + 1) as u32)) by {
                                    assert(forall|t: int|
                                        0 <= t < pre.len() ==> edges@[t] == pre[t]);
                                }
                                assert(edges_distinct(edges@)) by {
                                    assert(forall|t: int|
                                        0 <= t < pre.len() ==> edges@[t] == pre[t]);
                                }
                                assert(branch_ids_distinct(edges@)) by {
                                    assert(forall|t: int|
                                        0 <= t < pre.len() ==> edges@[t] == pre[t]);
                                }
                                // Every origin stays reachable; the new edge
                                // starts at the cursor's own node.
                                assert forall|t: int| 0 <= t < edges@.len() implies exists|
                                    p: Seq<K::V>,
                                |
                                    walk_node(edges@, 0, p) == Some(
                                        (#[trigger] edges@[t]).from,
                                    ) by {
                                    if t < pre.len() {
                                        let p = choose|p: Seq<K::V>|
                                            walk_node(pre, 0, p) == Some(pre[t].from);
                                        lemma_push_walk_preserved(pre, ge, 0u32, p);
                                        assert(walk_node(edges@, 0, p) == Some(edges@[t].from));
                                    } else {
                                        lemma_push_walk_preserved(
                                            pre,
                                            ge,
                                            0u32,
                                            self.path@.drop_last(),
                                        );
                                        assert(walk_node(edges@, 0, self.path@.drop_last())
                                            == Some(edges@[t].from));
                                    }
                                }
                                // The cursor's path now walks to the fresh node.
                                lemma_push_walk_preserved(pre, ge, 0u32, self.path@.drop_last());
                                lemma_find_edge_push(pre, ge, f, self.path@.last());
                                assert(self.path@.drop_last() + seq![self.path@.last()]
                                    =~= self.path@);
                                lemma_walk_append(
                                    edges@,
                                    0,
                                    self.path@.drop_last(),
                                    seq![self.path@.last()],
                                );
                                lemma_walk_single(edges@, f, self.path@.last());
                                assert(walk_node(edges@, 0, self.path@) == Some(id));
                            }
                            Some(HashTrieViewMut { edge: Some((id, key)), path: Ghost(newpath) })
                        },
                    }
                },
                HashTrie::Trivial { .. } => {
                    proof {
                        assert(false);
                    }
                    None
                },
            },
        }
    }

    /// Stores `new_value` at the cursor's position: creates a leaf where
    /// the slot is free, overwrites an existing leaf, turns an empty arena
    /// into the trivial root-valued trie, and refuses a branch position.
    pub fn set_value<V>(&self, trie: &mut HashTrie<K, V>, new_value: V) -> (r: bool)
        requires
            old(trie).wf_core(),
            self.wf(*old(trie)),
        ensures
            final(trie).wf_core(),
            r == self.can_set(*old(trie)),
            r ==> forall|p: Seq<K::V>|
                (#[trigger] final(trie).spec_get(p)) == (if p == self.path() {
                    Some(new_value)
                } else {
                    old(trie).spec_get(p)
                }),
            !r ==> *final(trie) == *old(trie),
            r && old(trie).wf() ==> final(trie).wf(),
    {
        let is_empty_standard = match &*trie {
            HashTrie::Standard { edges, .. } => edges.len() == 0,
            HashTrie::Trivial { .. } => false,
        };
        match &self.edge {
            None => {
                if is_empty_standard {
                    let ghost pre = *trie;
                    proof {
                        match trie {
                            HashTrie::Standard { edges, .. } => {
                                assert(forall|q: Seq<K::V>|
                                    (#[trigger] node_get(edges@, 0u32, q)) is None) by {
                                    assert(forall|q: Seq<K::V>, m: u32|
                                        q.len() > 0 ==> (#[trigger] find_edge(
                                            edges@,
                                            m,
                                            q[0],
                                        )) is None);
                                }
                            },
                            HashTrie::Trivial { .. } => {},
                        }
                    }
                    *trie = HashTrie::Trivial { value: new_value };
                    proof {
                        assert(self.path@ =~= Seq::<K::V>::empty());
                        assert forall|p: Seq<K::V>|
                            (#[trigger] trie.spec_get(p)) == (if p == self.path@ {
                                Some(new_value)
                            } else {
                                pre.spec_get(p)
                            }) by {
                            if p.len() == 0 {
                                assert(p =~= self.path@);
                            } else {
                                assert(pre.spec_get(p) is None);
                            }
                        }
                    }
                    true
                } else {
                    false
                }
            },
            Some((f, k)) => match trie {
                HashTrie::Standard { edges, next_id } => {
                    proof {
                        lemma_walk_bounded(edges@, *next_id, 0, self.path@.drop_last(), *f);
                    }
                    match find_edge_idx(edges, *f, k) {
                        None => {
                            let e = TrieEdge {
                                from: *f,
                                key: k.key_clone(),
                                node: HashTrieNode::Leaf { value: new_value },
                            };
                            let ghost ge = e;
                            let ghost pre = edges@;
                            let ghost prenext = *next_id;
                            proof {
                                lemma_find_edge_some(pre, *f, ge.key@);
                            }
                            edges.push(e);
                            proof {
                                assert(edges@ =~= pre.push(ge));
                                assert(edges_bounded(edges@, prenext)) by {
                                    assert(forall|t: int|
                                        0 <= t < pre.len() ==> edges@[t] == pre[t]);
                                }
                                assert(edges_distinct(edges@)) by {
                                    assert(forall|t: int|
                                        0 <= t < pre.len() ==> edges@[t] == pre[t]);
                                }
                                assert(branch_ids_distinct(edges@)) by {
                                    assert(forall|t: int|
                                        0 <= t < pre.len() ==> edges@[t] == pre[t]);
                                }
                                assert forall|t: int| 0 <= t < edges@.len() implies exists|
                                    p: Seq<K::V>,
                                |
                                    walk_node(edges@, 0, p) == Some(
                                        (#[trigger] edges@[t]).from,
                                    ) by {
                                    if t < pre.len() {
                                        let p = choose|p: Seq<K::V>|
                                            walk_node(pre, 0, p) == Some(pre[t].from);
                                        lemma_append_leaf_walk(pre, ge, 0u32, p);
                                        assert(walk_node(edges@, 0, p) == Some(edges@[t].from));
                                    } else {
                                        lemma_append_leaf_walk(
                                            pre,
                                            ge,
                                            0u32,
                                            self.path@.drop_last(),
                                        );
                                        assert(walk_node(edges@, 0, self.path@.drop_last())
                                            == Some(edges@[t].from));
                                    }
                                }
                                // The value lands at exactly the cursor's path.
                                assert forall|p: Seq<K::V>|
                                    (#[trigger] node_get(edges@, 0u32, p)) == (if p == self.path@ {
                                        Some(new_value)
                                    } else {
                                        node_get(pre, 0u32, p)
                                    }) by {
                                    lemma_append_leaf_get(pre, ge, new_value, 0u32, p);
                                    if p == self.path@ {
                                        assert(walk_node(pre, 0, p.drop_last()) == Some(*f));
                                    } else {
                                        if p.len() >= 1 && walk_node(pre, 0, p.drop_last())
                                            == Some(*f) && p.last() == ge.key@ {
                                            lemma_walk_injective(
                                                pre,
                                                prenext,
                                                p.drop_last(),
                                                self.path@.drop_last(),
                                                *f,
                                            );
                                            assert(p.drop_last().push(p.last()) =~= p);
                                            assert(self.path@.drop_last().push(self.path@.last())
                                                =~= self.path@);
                                            assert(false);
                                        }
                                    }
                                }
                                // A full well-formed trie stays fully
                                // well-formed: branch witnesses only gain.
                                assert forall|t: int|
                                    0 <= t < edges@.len() && old(trie).wf() implies (
                                match (#[trigger] edges@[t]).node {
                                    HashTrieNode::Branch { id } => exists|p: Seq<K::V>|
                                        node_get(edges@, id, p) is Some,
                                    HashTrieNode::Leaf { .. } => true,
                                }) by {
                                    if t < pre.len() {
                                        match edges@[t].node {
                                            HashTrieNode::Branch { id } => {
                                                let q = choose|p: Seq<K::V>|
                                                    node_get(pre, id, p) is Some;
                                                lemma_append_leaf_get(pre, ge, new_value, id, q);
                                                assert(node_get(edges@, id, q) is Some);
                                            },
                                            HashTrieNode::Leaf { .. } => {},
                                        }
                                    }
                                }
                            }
                            true
                        },
                        Some(idx) => {
                            let is_leaf = match &edges[idx].node {
                                HashTrieNode::Leaf { .. } => true,
                                HashTrieNode::Branch { .. } => false,
                            };
                            if !is_leaf {
                                return false;
                            }
                            let e = TrieEdge {
                                from: *f,
                                key: k.key_clone(),
                                node: HashTrieNode::Leaf { value: new_value },
                            };
                            let ghost ge = e;
                            let ghost pre = edges@;
                            let ghost prenext = *next_id;
                            edges.set(idx, e);
                            proof {
                                assert(edges@ =~= pre.update(idx as int, ge));
                                assert(forall|t: int|
                                    0 <= t < pre.len() && t != idx ==> edges@[t] == pre[t]);
                                assert(edges_bounded(edges@, prenext));
                                assert(edges_distinct(edges@));
                                assert(branch_ids_distinct(edges@));
                                assert forall|t: int| 0 <= t < edges@.len() implies exists|
                                    p: Seq<K::V>,
                                |
                                    walk_node(edges@, 0, p) == Some(
                                        (#[trigger] edges@[t]).from,
                                    ) by {
                                    let p = choose|p: Seq<K::V>|
                                        walk_node(pre, 0, p) == Some(pre[t].from);
                                    lemma_update_leaf_walk(pre, idx as int, ge, 0u32, p);
                                    assert(walk_node(edges@, 0, p) == Some(edges@[t].from));
                                }
                                assert forall|p: Seq<K::V>|
                                    (#[trigger] node_get(edges@, 0u32, p)) == (if p == self.path@ {
                                        Some(new_value)
                                    } else {
                                        node_get(pre, 0u32, p)
                                    }) by {
                                    lemma_update_leaf_get(pre, idx as int, ge, new_value, 0u32, p);
                                    if p == self.path@ {
                                        assert(walk_node(pre, 0, p.drop_last()) == Some(*f));
                                    } else {
                                        if p.len() >= 1 && walk_node(pre, 0, p.drop_last())
                                            == Some(*f) && p.last() == ge.key@ {
                                            lemma_walk_injective(
                                                pre,
                                                prenext,
                                                p.drop_last(),
                                                self.path@.drop_last(),
                                                *f,
                                            );
                                            assert(p.drop_last().push(p.last()) =~= p);
                                            assert(self.path@.drop_last().push(self.path@.last())
                                                =~= self.path@);
                                            assert(false);
                                        }
                                    }
                                }
                                assert forall|t: int|
                                    0 <= t < edges@.len() && old(trie).wf() implies (
                                match (#[trigger] edges@[t]).node {
                                    HashTrieNode::Branch { id } => exists|p: Seq<K::V>|
                                        node_get(edges@, id, p) is Some,
                                    HashTrieNode::Leaf { .. } => true,
                                }) by {
                                    match edges@[t].node {
                                        HashTrieNode::Branch { id } => {
                                            assert(pre[t] == edges@[t]);
                                            let q = choose|p: Seq<K::V>|
                                                node_get(pre, id, p) is Some;
                                            lemma_update_leaf_get(
                                                pre,
                                                idx as int,
                                                ge,
                                                new_value,
                                                id,
                                                q,
                                            );
                                            assert(node_get(edges@, id, q) is Some);
                                        },
                                        HashTrieNode::Leaf { .. } => {},
                                    }
                                }
                            }
                            true
                        },
                    }
                },
                HashTrie::Trivial { .. } => {
                    proof {
                        assert(false);
                    }
                    false
                },
            },
        }
    }
}

impl<K: TrieKey, V> HashTrie<K, V> {
    /// A mutable cursor at the root.
    pub fn as_view_mut(&mut self) -> (c: HashTrieViewMut<K>)
        ensures
            *final(self) == *old(self),
            c.wf(*final(self)),
            c.path() == Seq::<K::V>::empty(),
    {
        HashTrieViewMut { edge: None, path: Ghost(Seq::empty()) }
    }
}

} // verus!
