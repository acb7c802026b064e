//! The tree handle owning the root node: the public insert/find API.

use vstd::prelude::*;

use crate::find::find_m;
use crate::insert::{check_pattern, insert_rel, leading_slashes, lemma_insert_rel_kind};
use crate::insert::{pattern_ok_from, slashes_from};
use crate::laws::{lemma_bindings_complete, lemma_insert_names_ok};
use crate::node::{inv, kind_label, names_ok, Node, NodeKind};
use vstd::string::StringSliceAdditionalSpecFns;
use vstd::utf8::{encode_utf8, valid_utf8};

verus! {

/// A routing tree. The root is a `Static` node labelled `/`; patterns are
/// registered with [`PathTree::insert`] and paths resolved with
/// [`PathTree::find`] or [`PathTree::find_as_bytes`].
pub struct PathTree<T>(pub Node<T>);

/// The first `count` of `names`, paired positionally with `vals`: what a
/// successful lookup hands back, the terminal pattern's parameter names
/// against the values the path supplied.
pub open spec fn zip_min(names: Seq<Seq<u8>>, vals: Seq<Seq<u8>>) -> Seq<(Seq<u8>, Seq<u8>)> {
    let count = if names.len() <= vals.len() {
        names.len()
    } else {
        vals.len()
    };
    Seq::new(count, |k: int| (names[k], vals[k]))
}

/// Resolve `p` against the tree under `root`: the payload stored at the
/// matched terminal node, with its parameter names bound to the captured
/// values. Nothing when no registered pattern matches.
pub open spec fn resolve_m<T>(root: Node<T>, p: Seq<u8>) -> Option<(T, Seq<(Seq<u8>, Seq<u8>)>)> {
    match find_m(root, p) {
        Some((n, vals)) => match n.data {
            Some(d) => Some((d, zip_min(n.params.deep_view(), vals))),
            None => None,
        },
        None => None,
    }
}

/// The model value of what `find_as_bytes` returns.
pub open spec fn resolved_view<T>(r: Option<(&T, Vec<(&[u8], &[u8])>)>) -> Option<
    (T, Seq<(Seq<u8>, Seq<u8>)>),
> {
    match r {
        Some((d, ps)) => Some((*d, ps.deep_view())),
        None => None,
    }
}

/// Every name and value among `ps` is valid UTF-8.
pub open spec fn pairs_utf8(ps: Seq<(Seq<u8>, Seq<u8>)>) -> bool {
    forall|k: int| 0 <= k < ps.len() ==> valid_utf8((#[trigger] ps[k]).0) && valid_utf8(ps[k].1)
}

/// The string pairs `v` spell, in UTF-8, exactly the byte pairs `ps`.
pub open spec fn decoded_pairs(v: Seq<(String, String)>, ps: Seq<(Seq<u8>, Seq<u8>)>) -> bool {
    &&& v.len() == ps.len()
    &&& forall|k: int|
        0 <= k < ps.len() ==> encode_utf8((#[trigger] v[k]).0@) == ps[k].0 && encode_utf8(
            v[k].1@,
        ) == ps[k].1
}

/// Relies on `core::str::from_utf8`: it returns `Ok` exactly when the bytes
/// are valid UTF-8, and the returned string slice is a view of those same
/// bytes.
#[verifier::external_body]
fn bytes_to_str(b: &[u8]) -> (r: Option<&str>)
    ensures
        r is Some <==> valid_utf8(b@),
        r matches Some(s) ==> s.spec_bytes() == b@,
{
    core::str::from_utf8(b).ok()
}

impl<T> PathTree<T> {
    /// The invariant every tree built through this API satisfies: the root
    /// is a `Static` node, the graph is structurally sound, and the name
    /// lists stored at pattern terminals count one entry per dynamic node on
    /// their root path.
    pub open spec fn wf(self) -> bool {
        &&& inv(self.0)
        &&& self.0.kind is Static
        &&& names_ok(self.0, 0)
    }

    /// A fresh tree: a root labelled `/` with no payload and no children.
    pub fn new() -> (t: Self)
        ensures
            t.wf(),
            kind_label(t.0.kind) == seq![47u8],
            t.0.data is None,
            t.0.nodes@.len() == 0,
            t.0.indices@.len() == 0,
            t.0.params@.len() == 0,
    {
        let mut label: Vec<u8> = Vec::new();
        label.push(47u8);
        proof {
            assert(label@ =~= seq![47u8]);
        }
        PathTree(Node::new(NodeKind::Static(label)))
    }

    /// Register `pattern` with payload `data`.
    ///
    /// Leading slashes are stripped; the rest is scanned for `:` and `*`
    /// tokens and inserted by [`Node::insert`]. A pattern whose grammar is
    /// unsupported (a parameter name directly followed by another `:`) is
    /// rejected: the call returns `false` and the tree is unchanged.
    /// Registering the same pattern twice overwrites the payload and the
    /// parameter names at its terminal node.
    pub fn insert(&mut self, path: &str, data: T) -> (ok: bool)
        requires
            old(self).wf(),
        ensures
            final(self).wf(),
            ({
                let b = path.spec_bytes();
                let t = leading_slashes(b) as int;
                &&& ok == pattern_ok_from(b, t)
                &&& (ok ==> insert_rel(old(self).0, final(self).0, b, t, Seq::empty(), data))
                &&& (!ok ==> final(self).0 == old(self).0)
            }),
    {
        let bytes = path.as_bytes();
        let mut t: usize = 0;
        while t < bytes.len() && bytes[t] == 47u8
            invariant
                t <= bytes@.len(),
                slashes_from(bytes@, 0) == t + slashes_from(bytes@, t as int),
            decreases bytes@.len() - t,
        {
            t = t + 1;
        }
        proof {
            assert(t as int == leading_slashes(bytes@));
        }
        if !check_pattern(bytes, t) {
            return false;
        }
        let names: Vec<Vec<u8>> = Vec::new();
        proof {
            assert(names.deep_view() =~~= Seq::<Seq<u8>>::empty());
        }
        let ghost root0 = self.0;
        self.0.insert(bytes, t, names, data);
        proof {
            lemma_insert_rel_kind(root0, self.0, bytes@, t as int, names.deep_view(), data);
            lemma_insert_names_ok(root0, self.0, bytes@, t as int, names.deep_view(), data, 0);
        }
        true
    }

    /// Resolve `path` to the payload of the matching pattern and the
    /// captured `(name, value)` pairs, as views into this tree and into
    /// `path`: exactly `resolve_m`.
    pub fn find_as_bytes<'a>(&'a self, path: &'a [u8]) -> (r: Option<
        (&'a T, Vec<(&'a [u8], &'a [u8])>),
    >)
        requires
            self.wf(),
        ensures
            resolved_view(r) == resolve_m(self.0, path@),
            r matches Some((dt, ps)) ==> (find_m(self.0, path@) matches Some((t, vs))
                && ps.deep_view().len() == t.params.deep_view().len()),
    {
        proof {
            lemma_bindings_complete(self.0, path@);
        }
        match self.0.find(path) {
            Some((n, vals)) => {
                match &n.data {
                    Some(d) => {
                        let count = if n.params.len() <= vals.len() {
                            n.params.len()
                        } else {
                            vals.len()
                        };
                        let mut out: Vec<(&'a [u8], &'a [u8])> = Vec::new();
                        let mut k: usize = 0;
                        while k < count
                            invariant
                                k <= count,
                                count == if n.params@.len() <= vals@.len() {
                                    n.params@.len()
                                } else {
                                    vals@.len()
                                },
                                out@.len() == k,
                                forall|q: int|
                                    0 <= q < k ==> (#[trigger] out@[q]).0@
                                        == n.params.deep_view()[q] && out@[q].1@
                                        == vals.deep_view()[q],
                            decreases count - k,
                        {
                            out.push((n.params[k].as_slice(), vals[k]));
                            k = k + 1;
                        }
                        proof {
                            assert(out.deep_view() =~~= zip_min(
                                n.params.deep_view(),
                                vals.deep_view(),
                            ));
                        }
                        Some((d, out))
                    },
                    None => None,
                }
            },
            None => None,
        }
    }

    /// Resolve `path` to the payload and the captured `(name, value)` pairs
    /// as owned strings.
    ///
    /// The outcome is that of [`PathTree::find_as_bytes`] on `path`'s bytes;
    /// a match whose names or values are not valid UTF-8 (possible only for
    /// patterns registered through non-UTF-8 means) is reported as no match
    /// rather than returned garbled.
    pub fn find<'a>(&'a self, path: &'a str) -> (r: Option<(&'a T, Vec<(String, String)>)>)
        requires
            self.wf(),
        ensures
            ({
                match resolve_m(self.0, path.spec_bytes()) {
                    None => r is None,
                    Some((d, ps)) => {
                        if pairs_utf8(ps) {
                            match r {
                                Some((rd, rv)) => *rd == d && decoded_pairs(rv@, ps),
                                None => false,
                            }
                        } else {
                            r is None
                        }
                    },
                }
            }),
    {
        let bytes = path.as_bytes();
        match self.find_as_bytes(bytes) {
            Some((d, pairs)) => {
                let ghost ps = pairs.deep_view();
                proof {
                    assert(resolve_m(self.0, path.spec_bytes()) == Some((*d, ps)));
                }
                let mut out: Vec<(String, String)> = Vec::new();
                let mut k: usize = 0;
                while k < pairs.len()
                    invariant
                        k <= pairs@.len(),
                        ps == pairs.deep_view(),
                        resolve_m(self.0, path.spec_bytes()) == Some((*d, ps)),
                        out@.len() == k,
                        forall|q: int|
                            0 <= q < k ==> valid_utf8((#[trigger] ps[q]).0) && valid_utf8(ps[q].1),
                        forall|q: int|
                            0 <= q < k ==> encode_utf8((#[trigger] out@[q]).0@) == ps[q].0
                                && encode_utf8(out@[q].1@) == ps[q].1,
                    decreases pairs@.len() - k,
                {
                    let (a, b) = pairs[k];
                    proof {
                        assert(ps[k as int] == (a@, b@));
                    }
                    let sa = match bytes_to_str(a) {
                        Some(s) => s,
                        None => {
                            proof {
                                assert(!valid_utf8(ps[k as int].0));
                                assert(!pairs_utf8(ps));
                            }
                            return None;
                        },
                    };
                    let sb = match bytes_to_str(b) {
                        Some(s) => s,
                        None => {
                            proof {
                                assert(!valid_utf8(ps[k as int].1));
                                assert(!pairs_utf8(ps));
                            }
                            return None;
                        },
                    };
                    out.push((sa.to_owned(), sb.to_owned()));
                    k = k + 1;
                }
                Some((d, out))
            },
            None => None,
        }
    }
}

impl<T> Default for PathTree<T> {
    /// The same tree as [`PathTree::new`].
    fn default() -> (t: Self)
        ensures
            t.wf(),
            kind_label(t.0.kind) == seq![47u8],
            t.0.data is None,
            t.0.nodes@.len() == 0,
            t.0.indices@.len() == 0,
            t.0.params@.len() == 0,
    {
        PathTree::new()
    }
}

} // verus!
