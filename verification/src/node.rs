//! The tree's vertices and their structural invariant.

use vstd::prelude::*;

verus! {

/// What a node matches: a literal byte run, one path token, or the whole rest
/// of the path.
pub enum NodeKind {
    Static(Vec<u8>),
    Parameter,
    CatchAll,
}

/// One vertex of the routing tree.
///
/// `indices` and `nodes` run in parallel: `indices[i]` is the dispatch key of
/// `nodes[i]` — the first label byte of a `Static` child, `b':'` for the
/// `Parameter` child, `b'*'` for the `CatchAll` child. `data` is present
/// exactly on nodes where a registered pattern ends, and `params` then holds
/// that pattern's parameter names in root-to-leaf order.
pub struct Node<T> {
    pub kind: NodeKind,
    pub data: Option<T>,
    pub nodes: Vec<Node<T>>,
    pub indices: Vec<u8>,
    pub params: Vec<Vec<u8>>,
}

/// The label of a `Static` kind; the empty sequence for dynamic kinds.
pub open spec fn kind_label(k: NodeKind) -> Seq<u8> {
    match k {
        NodeKind::Static(s) => s@,
        NodeKind::Parameter => Seq::empty(),
        NodeKind::CatchAll => Seq::empty(),
    }
}

/// A child agrees with its dispatch key: a `Static` child's label is
/// non-empty, marker-free and starts with the key; dynamic children sit
/// under their marker byte.
pub open spec fn child_ok<T>(key: u8, c: Node<T>) -> bool {
    match c.kind {
        NodeKind::Static(s) => {
            &&& s@.len() > 0
            &&& s@[0] == key
            &&& forall|k: int| 0 <= k < s@.len() ==> s@[k] != 58u8 && s@[k] != 42u8
        },
        NodeKind::Parameter => key == 58u8,
        NodeKind::CatchAll => key == 42u8,
    }
}

/// Structural invariant of a subtree: dispatch keys and children run in
/// parallel, keys are unique (so there is at most one `Parameter` and one
/// `CatchAll` child), a `CatchAll` node is a leaf, and every child agrees
/// with its key.
pub open spec fn inv<T>(n: Node<T>) -> bool
    decreases n,
{
    &&& n.indices@.len() == n.nodes@.len()
    &&& (forall|i: int, j: int|
        0 <= i < j < n.indices@.len() ==> n.indices@[i] != n.indices@[j])
    &&& (n.kind is CatchAll ==> n.nodes@.len() == 0)
    &&& (forall|i: int|
        0 <= i < n.nodes@.len() ==> child_ok(n.indices@[i], #[trigger] n.nodes@[i]))
    &&& (forall|i: int| 0 <= i < n.nodes@.len() ==> inv(#[trigger] n.nodes@[i]))
}

/// How many parameter values a node of this kind binds itself: dynamic
/// nodes bind exactly one, `Static` nodes none.
pub open spec fn dyn_step<T>(n: Node<T>) -> int {
    if n.kind is Static {
        0int
    } else {
        1int
    }
}

/// Parameter-name bookkeeping for a node with `d` dynamic strict ancestors:
/// wherever a payload sits, the stored name list has exactly one entry per
/// dynamic node on the path from the root to there (the node itself
/// included), and the same holds throughout the subtree.
pub open spec fn names_ok<T>(n: Node<T>, d: int) -> bool
    decreases n,
{
    &&& (n.data is Some ==> n.params.deep_view().len() == d + dyn_step(n))
    &&& (forall|i: int|
        0 <= i < n.nodes@.len() ==> names_ok(#[trigger] n.nodes@[i], d + dyn_step(n)))
}

impl<T> Node<T> {
    /// A fresh node of the given kind: no payload, no children.
    pub fn new(kind: NodeKind) -> (n: Self)
        ensures
            n.kind == kind,
            n.data is None,
            n.nodes@.len() == 0,
            n.indices@.len() == 0,
            n.params@.len() == 0,
    {
        Node { kind, data: None, nodes: Vec::new(), indices: Vec::new(), params: Vec::new() }
    }
}

impl<T> Default for Node<T> {
    /// A fresh `Static` node with an empty label.
    fn default() -> (n: Self)
        ensures
            kind_label(n.kind) == Seq::<u8>::empty(),
            n.kind is Static,
            n.data is None,
            n.nodes@.len() == 0,
            n.indices@.len() == 0,
            n.params@.len() == 0,
    {
        Node::new(NodeKind::Static(Vec::new()))
    }
}

/// Whether `c` opens a dynamic token in a pattern: `:` or `*`.
pub fn has_colon_or_star(c: &u8) -> (r: bool)
    ensures
        r == (*c == 58u8 || *c == 42u8),
{
    (*c == 58u8) || (*c == 42u8)
}

/// First index of `c` in `s`, if any.
pub open spec fn position_of(s: Seq<u8>, c: u8) -> Option<int>
    decreases s.len(),
{
    if s.len() == 0 {
        None
    } else if s[0] == c {
        Some(0int)
    } else {
        match position_of(s.skip(1), c) {
            Some(i) => Some(i + 1),
            None => None,
        }
    }
}

/// What `position_of` returns: the first index holding `c`, or nothing when
/// `c` does not occur.
pub proof fn lemma_position_of(s: Seq<u8>, c: u8)
    ensures
        match position_of(s, c) {
            Some(i) => 0 <= i < s.len() && s[i] == c && forall|k: int| 0 <= k < i ==> s[k] != c,
            None => forall|k: int| 0 <= k < s.len() ==> s[k] != c,
        },
    decreases s.len(),
{
    if s.len() > 0 && s[0] != c {
        lemma_position_of(s.skip(1), c);
        assert(forall|k: int| 1 <= k < s.len() ==> s[k] == s.skip(1)[k - 1]);
    }
}

/// First index of `c` in `p`, scanning left to right.
pub fn position(p: &[u8], c: u8) -> (r: Option<usize>)
    ensures
        match r {
            Some(i) => position_of(p@, c) == Some(i as int),
            None => position_of(p@, c) is None,
        },
{
    proof {
        lemma_position_of(p@, c);
    }
    let mut i: usize = 0;
    while i < p.len()
        invariant
            0 <= i <= p@.len(),
            forall|k: int| 0 <= k < i ==> p@[k] != c,
            match position_of(p@, c) {
                Some(j) => 0 <= j < p@.len() && p@[j] == c && forall|k: int| 0 <= k < j ==> p@[k] != c,
                None => forall|k: int| 0 <= k < p@.len() ==> p@[k] != c,
            },
        decreases p@.len() - i,
    {
        if p[i] == c {
            proof {
                if let Some(j) = position_of(p@, c) {
                    assert(j == i as int) by {
                        if j < i as int {
                            assert(p@[j] != c);
                        }
                        if j > i as int {
                            assert(p@[i as int] != c);
                        }
                    }
                }
            }
            return Some(i);
        }
        i = i + 1;
    }
    None
}

/// Length of the longest common byte prefix of `a` and `b`.
pub open spec fn lcp_len(a: Seq<u8>, b: Seq<u8>) -> nat
    decreases a.len(),
{
    if a.len() == 0 || b.len() == 0 || a[0] != b[0] {
        0
    } else {
        1 + lcp_len(a.skip(1), b.skip(1))
    }
}

/// What `lcp_len` returns: the bytes below it agree, and either one side is
/// exhausted or the bytes at it differ.
pub proof fn lemma_lcp_len(a: Seq<u8>, b: Seq<u8>)
    ensures
        lcp_len(a, b) <= a.len(),
        lcp_len(a, b) <= b.len(),
        forall|k: int| 0 <= k < lcp_len(a, b) ==> a[k] == b[k],
        lcp_len(a, b) < a.len() && lcp_len(a, b) < b.len() ==> a[lcp_len(a, b) as int]
            != b[lcp_len(a, b) as int],
    decreases a.len(),
{
    if a.len() > 0 && b.len() > 0 && a[0] == b[0] {
        lemma_lcp_len(a.skip(1), b.skip(1));
        assert(forall|k: int| 1 <= k < a.len() ==> a[k] == a.skip(1)[k - 1]);
        assert(forall|k: int| 1 <= k < b.len() ==> b[k] == b.skip(1)[k - 1]);
    }
}

/// Length of the longest common byte prefix of `s` and `p`.
pub fn loc(s: &[u8], p: &[u8]) -> (l: usize)
    ensures
        l == lcp_len(s@, p@),
{
    proof {
        lemma_lcp_len(s@, p@);
    }
    let mut i: usize = 0;
    let max: usize = if s.len() < p.len() {
        s.len()
    } else {
        p.len()
    };
    while i < max
        invariant
            0 <= i <= max,
            max == if s@.len() < p@.len() {
                s@.len()
            } else {
                p@.len()
            },
            forall|k: int| 0 <= k < i ==> s@[k] == p@[k],
            lcp_len(s@, p@) <= s@.len() && lcp_len(s@, p@) <= p@.len(),
            forall|k: int| 0 <= k < lcp_len(s@, p@) ==> s@[k] == p@[k],
            lcp_len(s@, p@) < s@.len() && lcp_len(s@, p@) < p@.len()
                ==> s@[lcp_len(s@, p@) as int] != p@[lcp_len(s@, p@) as int],
            i <= lcp_len(s@, p@),
        decreases max - i,
    {
        if s[i] != p[i] {
            proof {
                assert(lcp_len(s@, p@) <= i) by {
                    if lcp_len(s@, p@) > i {
                        assert(s@[i as int] == p@[i as int]);
                    }
                }
            }
            return i;
        }
        proof {
            assert(lcp_len(s@, p@) > i) by {
                if lcp_len(s@, p@) <= i {
                    assert(s@[lcp_len(s@, p@) as int] == p@[lcp_len(s@, p@) as int]);
                }
            }
        }
        i = i + 1;
    }
    i
}

} // verus!
