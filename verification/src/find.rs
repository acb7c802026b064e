//! Path lookup: the matching model and the traversal that implements it.

use vstd::prelude::*;

use crate::node::{inv, lcp_len, lemma_lcp_len, lemma_position_of, loc, position, position_of};
use crate::node::{Node, NodeKind};
use vstd::slice::slice_subrange;

verus! {

broadcast use vstd::std_specs::vec::group_vec_axioms;

/// Index of the first `/` in `p`, or `p.len()` when none occurs: the farthest
/// point a single `Parameter` token may reach.
pub open spec fn slash_limit(p: Seq<u8>) -> int {
    match position_of(p, 47u8) {
        Some(i) => i,
        None => p.len() as int,
    }
}

/// What matching a subtree yields: the terminal node and the captured
/// parameter values, in root-to-leaf order.
pub type Found<T> = Option<(Node<T>, Seq<Seq<u8>>)>;

/// Match `p` against the subtree rooted at `n`.
///
/// A `Static` node must account for its whole label; if the path ends with
/// the label the node matches iff it carries a payload, except that a
/// payload-free node whose label ends in `/` defers to its `CatchAll` child
/// with an empty capture (trailing-slash aliasing). A `Parameter` node is
/// handled by `splits_m`; a `CatchAll` node captures the whole rest.
pub open spec fn find_m<T>(n: Node<T>, p: Seq<u8>) -> Found<T>
    decreases n, 3int, 0int,
{
    match n.kind {
        NodeKind::Static(s) => {
            let l = lcp_len(s@, p);
            if l < s@.len() {
                None
            } else if p.len() == s@.len() {
                if n.data is Some {
                    Some((n, Seq::empty()))
                } else if s@.len() > 0 && s@[s@.len() - 1] == 47u8 {
                    alias_m(n, p)
                } else {
                    None
                }
            } else {
                children_m(n, p.skip(s@.len() as int))
            }
        },
        NodeKind::Parameter => splits_m(n, p, slash_limit(p), 0),
        NodeKind::CatchAll => if n.data is Some {
            Some((n, seq![p]))
        } else {
            None
        },
    }
}

/// Trailing-slash aliasing: a path that ends exactly on a payload-free
/// `/`-terminated label still matches that node's `CatchAll` child, with an
/// empty capture.
pub open spec fn alias_m<T>(n: Node<T>, p: Seq<u8>) -> Found<T> {
    match position_of(n.indices@, 42u8) {
        Some(j) => {
            if 0 <= j < n.nodes@.len() && n.nodes@[j].data is Some {
                Some((n.nodes@[j], seq![Seq::<u8>::empty()]))
            } else {
                None
            }
        },
        None => None,
    }
}

/// Try the child under dispatch key `key` against `p`; nothing when no such
/// child exists.
pub open spec fn try_child_m<T>(n: Node<T>, key: u8, p: Seq<u8>) -> Found<T>
    decreases n, 1int, 0int,
{
    match position_of(n.indices@, key) {
        Some(j) => {
            if 0 <= j < n.nodes@.len() {
                find_m(n.nodes@[j], p)
            } else {
                None
            }
        },
        None => None,
    }
}

/// Descend into the children of `n` with the non-empty rest `p`, in strict
/// priority order: the `Static` child keyed by the next byte first, then the
/// `Parameter` child, then the `CatchAll` child — each tried only if every
/// earlier class failed end-to-end.
pub open spec fn children_m<T>(n: Node<T>, p: Seq<u8>) -> Found<T>
    decreases n, 1int, 1int,
{
    let first = if p.len() > 0 {
        try_child_m(n, p[0], p)
    } else {
        None
    };
    match first {
        Some(r) => Some(r),
        None => match try_child_m(n, 58u8, p) {
            Some(r) => Some(r),
            None => try_child_m(n, 42u8, p),
        },
    }
}

/// Match at a `Parameter` node, trying capture boundaries left to right.
///
/// `limit` is `slash_limit(p)`. Each index `i < limit` whose byte keys a
/// `Static` child is a candidate boundary: capture `p[..i]` and descend into
/// that child; on failure retry at the next boundary. Past the boundaries,
/// the token runs to `limit`: if the path is exhausted there the node itself
/// matches iff it carries a payload, otherwise the rest (starting at `/`) is
/// handed to the children in priority order.
pub open spec fn splits_m<T>(n: Node<T>, p: Seq<u8>, limit: int, i: int) -> Found<T>
    decreases n, 2int, (if i <= limit { limit + 1 - i } else { 0int }),
{
    if i < limit && 0 <= i < p.len() {
        let stat = match position_of(n.indices@, p[i]) {
            Some(j) => {
                if 0 <= j < n.nodes@.len() && n.nodes@[j].kind is Static {
                    find_m(n.nodes@[j], p.skip(i))
                } else {
                    None
                }
            },
            None => None,
        };
        match stat {
            Some((t, vs)) => Some((t, seq![p.take(i)] + vs)),
            None => splits_m(n, p, limit, i + 1),
        }
    } else {
        if limit >= p.len() {
            if n.data is Some {
                Some((n, seq![p]))
            } else {
                None
            }
        } else {
            match children_m(n, p.skip(limit)) {
                Some((t, vs)) => Some((t, seq![p.take(limit)] + vs)),
                None => None,
            }
        }
    }
}

/// The model value of what the traversal returns: the terminal node and the
/// captured values, as sequences.
pub open spec fn found_view<T>(r: Option<(&Node<T>, Vec<&[u8]>)>) -> Found<T> {
    match r {
        Some((n, v)) => Some((*n, v.deep_view())),
        None => None,
    }
}

impl<T> Node<T> {
    /// Match `p` against this subtree: exactly the result of `find_m`.
    pub fn find<'a>(&'a self, p: &'a [u8]) -> (r: Option<(&'a Node<T>, Vec<&'a [u8]>)>)
        requires
            inv(*self),
        ensures
            found_view(r) == find_m(*self, p@),
        decreases *self, 3int, 0int,
    {
        match &self.kind {
            NodeKind::Static(s) => {
                let l = loc(s.as_slice(), p);
                proof {
                    lemma_lcp_len(s@, p@);
                }
                if l < s.len() {
                    None
                } else if p.len() == s.len() {
                    if self.data.is_some() {
                        let v: Vec<&[u8]> = Vec::new();
                        proof {
                            assert(v.deep_view() =~~= Seq::<Seq<u8>>::empty());
                        }
                        Some((self, v))
                    } else if s.len() > 0 && s[s.len() - 1] == 47u8 {
                        proof {
                            lemma_position_of(self.indices@, 42u8);
                        }
                        match position(self.indices.as_slice(), 42u8) {
                            Some(j) => {
                                let c = &self.nodes[j];
                                if c.data.is_some() {
                                    let mut v: Vec<&[u8]> = Vec::new();
                                    v.push(slice_subrange(p, 0, 0));
                                    proof {
                                        assert(v.deep_view() =~~= seq![Seq::<u8>::empty()]);
                                    }
                                    Some((c, v))
                                } else {
                                    None
                                }
                            },
                            None => None,
                        }
                    } else {
                        None
                    }
                } else {
                    self.find_children(slice_subrange(p, l, p.len()))
                }
            },
            NodeKind::Parameter => {
                let limit = match position(p, 47u8) {
                    Some(k) => k,
                    None => p.len(),
                };
                proof {
                    lemma_position_of(p@, 47u8);
                    assert(limit as int == slash_limit(p@));
                }
                self.find_splits(p, limit, 0)
            },
            NodeKind::CatchAll => {
                if self.data.is_some() {
                    let mut v: Vec<&[u8]> = Vec::new();
                    v.push(p);
                    proof {
                        assert(v.deep_view() =~~= seq![p@]);
                    }
                    Some((self, v))
                } else {
                    None
                }
            },
        }
    }

    /// Try the child under `key` against `p`: exactly `try_child_m`.
    fn try_child<'a>(&'a self, key: u8, p: &'a [u8]) -> (r: Option<(&'a Node<T>, Vec<&'a [u8]>)>)
        requires
            inv(*self),
        ensures
            found_view(r) == try_child_m(*self, key, p@),
        decreases *self, 1int, 0int,
    {
        proof {
            lemma_position_of(self.indices@, key);
        }
        match position(self.indices.as_slice(), key) {
            Some(j) => {
                proof {
                    assert(inv(self.nodes@[j as int]));
                }
                self.nodes[j].find(p)
            },
            None => None,
        }
    }

    /// Descend into the children with the rest `p`, in priority order:
    /// exactly `children_m`.
    fn find_children<'a>(&'a self, p: &'a [u8]) -> (r: Option<(&'a Node<T>, Vec<&'a [u8]>)>)
        requires
            inv(*self),
        ensures
            found_view(r) == children_m(*self, p@),
        decreases *self, 1int, 1int,
    {
        if p.len() > 0 {
            let r1 = self.try_child(p[0], p);
            if r1.is_some() {
                return r1;
            }
        }
        let r2 = self.try_child(58u8, p);
        if r2.is_some() {
            return r2;
        }
        self.try_child(42u8, p)
    }

    /// Match at this `Parameter`-kinded node, trying capture boundaries from
    /// `i` on: exactly `splits_m`.
    fn find_splits<'a>(&'a self, p: &'a [u8], limit: usize, i: usize) -> (r: Option<
        (&'a Node<T>, Vec<&'a [u8]>),
    >)
        requires
            inv(*self),
            limit <= p@.len(),
        ensures
            found_view(r) == splits_m(*self, p@, limit as int, i as int),
        decreases *self, 2int, (if i <= limit {
            limit + 1 - i
        } else {
            0int
        }),
    {
        if i < limit {
            proof {
                lemma_position_of(self.indices@, p@[i as int]);
            }
            let mut attempt: Option<(&Node<T>, Vec<&[u8]>)> = None;
            match position(self.indices.as_slice(), p[i]) {
                Some(j) => {
                    proof {
                        assert(inv(self.nodes@[j as int]));
                    }
                    let child = &self.nodes[j];
                    let is_static = match &child.kind {
                        NodeKind::Static(_) => true,
                        NodeKind::Parameter => false,
                        NodeKind::CatchAll => false,
                    };
                    if is_static {
                        attempt = child.find(slice_subrange(p, i, p.len()));
                    }
                },
                None => {},
            }
            match attempt {
                Some((t, vs)) => {
                    let ghost vs0 = vs.deep_view();
                    let mut vs = vs;
                    vs.insert(0, slice_subrange(p, 0, i));
                    proof {
                        assert(vs.deep_view() =~~= seq![p@.take(i as int)] + vs0);
                    }
                    Some((t, vs))
                },
                None => self.find_splits(p, limit, i + 1),
            }
        } else {
            if limit >= p.len() {
                if self.data.is_some() {
                    let mut v: Vec<&[u8]> = Vec::new();
                    v.push(p);
                    proof {
                        assert(v.deep_view() =~~= seq![p@]);
                    }
                    Some((self, v))
                } else {
                    None
                }
            } else {
                match self.find_children(slice_subrange(p, limit, p.len())) {
                    Some((t, vs)) => {
                        let ghost vs0 = vs.deep_view();
                        let mut vs = vs;
                        vs.insert(0, slice_subrange(p, 0, limit));
                        proof {
                            assert(vs.deep_view() =~~= seq![p@.take(limit as int)] + vs0);
                        }
                        Some((t, vs))
                    },
                    None => None,
                }
            }
        }
    }
}

} // verus!
