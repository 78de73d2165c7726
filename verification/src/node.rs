//! The in-progress value tree the merger folds assignments into.

use vstd::prelude::*;

use crate::error::{Error, ErrorV};
use crate::value::{
    key_eq, key_eq_v, path_render_v, string_value, HoconValue, ValueV, values_view,
    lemma_values_view,
};
use crate::strings::{join_dots, push_dv};

verus! {

/// Whether a childless branch stands for an array or an object.
#[derive(Debug, Clone, Copy, PartialEq, Eq, Structural)]
pub enum KeyType {
    /// The branch was an explicit empty array.
    Int,
    /// The branch was an explicit empty object.
    String,
}

/// Mathematical model of a [`Node`].
pub enum NodeV {
    /// Model of [`Node::Leaf`].
    Leaf(ValueV),
    /// Model of [`Node::Branch`].
    Branch { children: Seq<(ValueV, NodeV)>, key_hint: Option<KeyType> },
}

/// One node of the tree: a leaf holding a raw value, or a branch
/// holding its children in document order, each keyed by an integer,
/// a string, or an anonymous-slot tag.
#[derive(Debug, PartialEq)]
pub enum Node {
    /// A leaf value, possibly still holding a resolution marker.
    Leaf(HoconValue),
    /// An inner node; `key_hint` records whether an empty branch was
    /// written as an array or as an object.
    Branch {
        /// The children in document order, each with its key.
        children: Vec<(HoconValue, Node)>,
        /// How to finalize the branch when it has no children.
        key_hint: Option<KeyType>,
    },
}

/// The model of a node.
pub open spec fn node_view(n: Node) -> NodeV
    decreases n,
{
    match n {
        Node::Leaf(v) => NodeV::Leaf(v@),
        Node::Branch { children, key_hint } => NodeV::Branch {
            children: children_view(children@),
            key_hint,
        },
    }
}

/// The models of a child list, element by element.
pub open spec fn children_view(s: Seq<(HoconValue, Node)>) -> Seq<(ValueV, NodeV)>
    decreases s,
{
    if s.len() == 0 {
        Seq::empty()
    } else {
        children_view(s.drop_last()).push(
            (s.last().0@, node_view(s.last().1)),
        )
    }
}

impl View for Node {
    type V = NodeV;

    open spec fn view(&self) -> NodeV {
        node_view(*self)
    }
}

/// The models of a node list, element by element.
pub open spec fn nodes_view(s: Seq<Node>) -> Seq<NodeV>
    decreases s,
{
    if s.len() == 0 {
        Seq::empty()
    } else {
        nodes_view(s.drop_last()).push(node_view(s.last()))
    }
}

/// `nodes_view` is the element-wise model of the node list.
pub broadcast proof fn lemma_nodes_view(s: Seq<Node>)
    ensures
        (#[trigger] nodes_view(s)).len() == s.len(),
        forall|i: int| 0 <= i < s.len() ==> nodes_view(s)[i] == node_view(s[i]),
    decreases s,
{
    if s.len() > 0 {
        lemma_nodes_view(s.drop_last());
    }
}

/// `children_view` is the element-wise model of the child list.
pub broadcast proof fn lemma_children_view(s: Seq<(HoconValue, Node)>)
    ensures
        (#[trigger] children_view(s)).len() == s.len(),
        forall|i: int| 0 <= i < s.len() ==> children_view(s)[i] == (
            s[i].0@,
            node_view(s[i].1),
        ),
    decreases s,
{
    if s.len() > 0 {
        lemma_children_view(s.drop_last());
    }
}

/// Clones a subtree; the copy has the same model. The tree holds no
/// sharing, so this is the deep copy substitution pastes in.
#[verifier::loop_isolation(false)]
pub fn deep_clone(n: &Node) -> (r: Node)
    ensures
        r@ == n@,
    decreases n,
{
    match n {
        Node::Leaf(v) => Node::Leaf(v.clone()),
        Node::Branch { children, key_hint } => {
            let mut out: Vec<(HoconValue, Node)> = Vec::new();
            let mut k: usize = 0;
            while k < children.len()
                invariant
                    0 <= k <= children@.len(),
                    children_view(out@).len() == k,
                    forall|i: int| 0 <= i < k ==> children_view(out@)[i] == children_view(
                        children@,
                    )[i],
                decreases children@.len() - k,
            {
                proof {
                    lemma_children_view(children@);
                    assert(decreases_to!(*n => n->Branch_children));
                    assert(decreases_to!(n->Branch_children => n->Branch_children[k as int]));
                }
                let key = children[k].0.clone();
                let sub = deep_clone(&children[k].1);
                let ghost oldout = out@;
                out.push((key, sub));
                proof {
                    assert(out@.drop_last() =~= oldout);
                    lemma_children_view(out@);
                }
                k = k + 1;
            }
            proof {
                lemma_children_view(children@);
                assert(children_view(out@) =~= children_view(children@));
            }
            Node::Branch { children: out, key_hint: *key_hint }
        },
    }
}

impl Clone for Node {
    /// Clones the subtree; the copy has the same model.
    fn clone(&self) -> (r: Self)
        ensures
            r@ == self@,
    {
        deep_clone(self)
    }
}

/// The first child of `children` whose key is `k`, if any.
pub open spec fn find_child_v(children: Seq<(ValueV, NodeV)>, k: ValueV) -> Option<NodeV>
    decreases children,
{
    if children.len() == 0 {
        None
    } else if key_eq_v(children[0].0, k) {
        Some(children[0].1)
    } else {
        find_child_v(children.drop_first(), k)
    }
}

/// What a failed lookup yields: the error in strict mode, an embedded
/// error marker otherwise.
pub open spec fn not_found_v(strict: bool, path: Seq<ValueV>) -> Result<NodeV, ErrorV> {
    let e = ErrorV::KeyNotFound { key: path_render_v(path) };
    if strict {
        Err(e)
    } else {
        Ok(NodeV::Leaf(ValueV::BadValue(e)))
    }
}

/// What looking `path` up under `n` returns: the subtree at that
/// path; a `KeyNotFound` outcome (per [`not_found_v`]) when a segment
/// is missing or a leaf is hit too early. In strict mode an error
/// found deeper in the walk aborts the lookup.
pub open spec fn find_key_v(n: NodeV, strict: bool, path: Seq<ValueV>) -> Result<
    NodeV,
    ErrorV,
>
    decreases path.len(),
{
    if path.len() == 0 {
        Ok(n)
    } else {
        match n {
            NodeV::Leaf(_) => not_found_v(strict, path),
            NodeV::Branch { children, .. } => match find_child_v(children, path[0]) {
                Some(child) => find_key_v(child, strict, path.drop_first()),
                None => not_found_v(strict, path),
            },
        }
    }
}

/// Renders the segments of `p` from `st` on, joined with dots.
pub fn path_render_from(p: &Vec<HoconValue>, st: usize) -> (r: String)
    requires
        st <= p@.len(),
    ensures
        r@ == path_render_v(values_view(p@).skip(st as int)),
{
    let mut parts: Vec<String> = Vec::new();
    let mut k: usize = st;
    proof {
        lemma_values_view(p@);
    }
    while k < p.len()
        invariant
            st <= k <= p@.len(),
            parts.deep_view().len() == k - st,
            forall|i: int| 0 <= i < k - st ==> parts.deep_view()[i]
                == crate::value::string_value_v(values_view(p@)[st + i]),
            values_view(p@).len() == p@.len(),
            forall|i: int| 0 <= i < p@.len() ==> values_view(p@)[i] == crate::value::value_view(
                p@[i],
            ),
        decreases p@.len() - k,
    {
        let s = string_value(&p[k]);
        push_dv(&mut parts, s);
        k = k + 1;
    }
    let r = join_dots(&parts);
    proof {
        assert(parts.deep_view() =~= values_view(p@).skip(st as int).map_values(
            |v: ValueV| crate::value::string_value_v(v),
        ));
    }
    r
}

/// Looks `path` up under `n` from segment `st` on; see
/// [`find_key_v`].
#[verifier::loop_isolation(false)]
pub fn find_key_at(n: &Node, strict: bool, path: &Vec<HoconValue>, st: usize) -> (r: Result<
    Node,
    Error,
>)
    requires
        st <= path@.len(),
    ensures
        ({
            let sr = find_key_v(n@, strict, values_view(path@).skip(st as int));
            match r {
                Ok(node) => sr matches Ok(m) && node@ == m,
                Err(e) => sr matches Err(f) && e@ == f,
            }
        }),
    decreases path@.len() - st,
{
    proof {
        lemma_values_view(path@);
    }
    let ghost rest = values_view(path@).skip(st as int);
    if st == path.len() {
        proof {
            assert(rest.len() == 0);
        }
        return Ok(deep_clone(n));
    }
    match n {
        Node::Leaf(_) => {
            let msg = path_render_from(path, st);
            let e = Error::KeyNotFound { key: msg };
            if strict {
                Err(e)
            } else {
                Ok(Node::Leaf(HoconValue::BadValue(e)))
            }
        },
        Node::Branch { children, .. } => {
            let mut j: usize = 0;
            let ghost cv = children_view(children@);
            proof {
                lemma_children_view(children@);
                assert(cv.skip(0) =~= cv);
            }
            while j < children.len()
                invariant
                    0 <= j <= children@.len(),
                    cv == children_view(children@),
                    find_child_v(cv, rest[0]) == find_child_v(
                        cv.skip(j as int),
                        rest[0],
                    ),
                decreases children@.len() - j,
            {
                proof {
                    lemma_children_view(children@);
                }
                if key_eq(&children[j].0, &path[st]) {
                    proof {
                        assert(cv.skip(j as int)[0] == cv[j as int]);
                        assert(rest[0] == values_view(path@)[st as int]);
                        assert(find_child_v(cv.skip(j as int), rest[0]) == Some(
                            cv[j as int].1,
                        ));
                        assert(decreases_to!(*n => n->Branch_children));
                        assert(decreases_to!(
                            n->Branch_children => n->Branch_children[j as int]));
                    }
                    let sub = find_key_at(&children[j].1, strict, path, st + 1);
                    proof {
                        assert(values_view(path@).skip(st as int + 1) =~= rest.drop_first());
                    }
                    return sub;
                }
                proof {
                    assert(cv.skip(j as int)[0] == cv[j as int]);
                    assert(cv.skip(j as int).drop_first() =~= cv.skip(j as int + 1));
                }
                j = j + 1;
            }
            proof {
                assert(cv.skip(children@.len() as int).len() == 0);
                assert(find_child_v(cv, rest[0]) is None);
            }
            let msg = path_render_from(path, st);
            let e = Error::KeyNotFound { key: msg };
            if strict {
                Err(e)
            } else {
                Ok(Node::Leaf(HoconValue::BadValue(e)))
            }
        },
    }
}

/// Looks a whole path up under `n`; see [`find_key_v`].
pub fn find_key(n: &Node, strict: bool, path: &Vec<HoconValue>) -> (r: Result<Node, Error>)
    ensures
        ({
            let sr = find_key_v(n@, strict, values_view(path@));
            match r {
                Ok(node) => sr matches Ok(m) && node@ == m,
                Err(e) => sr matches Err(f) && e@ == f,
            }
        }),
{
    proof {
        assert(values_view(path@).skip(0) =~= values_view(path@));
    }
    find_key_at(n, strict, path, 0)
}

} // verus!
