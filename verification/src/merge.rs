//! The tree merger: folds the flat assignment stream into one value
//! tree in document order, applying the collision, type-switch,
//! re-index and array-reset rules, and calling the resolver on each
//! assignment's value before storing it.

use vstd::prelude::*;

use crate::error::{Error, ErrorV};
use crate::node::{
    children_view, find_child_v, lemma_children_view, KeyType, Node, NodeV,
};
use crate::substitute::{subst_v, substitute};
use crate::value::{
    clone_value, clone_values, key_eq, key_eq_v, to_path, to_path_v, values_view,
    lemma_values_view, lemma_values_view_concat, HoconValue, Path, ValueV,
};
use crate::strings::{split_dots, split_dots_v, trim, trim_v};

verus! {

/// The model of the per-document bookkeeping for `+=` appends and
/// array concatenations: for each array path, the slot index handed
/// to each append identifier or literal index.
pub type ArraysV = Seq<(Seq<ValueV>, Seq<(ValueV, i64)>)>;

/// The model of the whole fold state.
pub struct MergeStateV {
    /// The tree built so far.
    pub tree: NodeV,
    /// The effective path of the previous assignment, which the
    /// array-reset rule compares against.
    pub last: Seq<ValueV>,
    /// The append bookkeeping.
    pub arrays: ArraysV,
}

/// Whether two paths are the same key sequence, segment by segment.
pub open spec fn path_key_eq_v(a: Seq<ValueV>, b: Seq<ValueV>) -> bool {
    a.len() == b.len() && forall|i: int| 0 <= i < a.len() ==> #[trigger] key_eq_v(a[i], b[i])
}

/// The slot map registered for path `k`, if any.
pub open spec fn arrays_find_v(m: ArraysV, k: Seq<ValueV>) -> Option<Seq<(ValueV, i64)>>
    decreases m,
{
    if m.len() == 0 {
        None
    } else if path_key_eq_v(m[0].0, k) {
        Some(m[0].1)
    } else {
        arrays_find_v(m.drop_first(), k)
    }
}

/// The bookkeeping with path `k` bound to `inner`: the first entry
/// for `k` replaced, or a new entry appended.
pub open spec fn arrays_set_v(m: ArraysV, k: Seq<ValueV>, inner: Seq<(ValueV, i64)>) -> ArraysV
    decreases m,
{
    if m.len() == 0 {
        seq![(k, inner)]
    } else if path_key_eq_v(m[0].0, k) {
        seq![(m[0].0, inner)] + m.drop_first()
    } else {
        seq![m[0]] + arrays_set_v(m.drop_first(), k, inner)
    }
}

/// The slot index bound to key `k`, if any.
pub open spec fn inner_find_v(m: Seq<(ValueV, i64)>, k: ValueV) -> Option<i64>
    decreases m,
{
    if m.len() == 0 {
        None
    } else if key_eq_v(m[0].0, k) {
        Some(m[0].1)
    } else {
        inner_find_v(m.drop_first(), k)
    }
}

/// A count clamped into an `i64` slot index.
pub open spec fn clamp_i64(n: int) -> i64 {
    if n <= i64::MAX as int {
        n as i64
    } else {
        i64::MAX
    }
}

/// The segments one raw path item contributes to the effective path:
/// an unquoted string is trimmed and split at its dots, anything else
/// stands as it is.
pub open spec fn expand_item_v(v: ValueV) -> Seq<ValueV> {
    match v {
        ValueV::UnquotedStr(s) => split_dots_v(trim_v(s)).map_values(|p: Seq<char>| ValueV::Str(p)),
        _ => seq![v],
    }
}

/// The effective path of an assignment: dotted unquoted keys expanded
/// into separate string segments.
pub open spec fn expand_path_v(p: Seq<ValueV>) -> Seq<ValueV>
    decreases p,
{
    if p.len() == 0 {
        Seq::empty()
    } else {
        expand_path_v(p.drop_last()) + expand_item_v(p.last())
    }
}

/// The array-reset rule: writing index `0` where the first existing
/// child is index `0`, along a path that does not extend the previous
/// assignment's path, discards the array built so far.
pub open spec fn reset_cond_v(
    children: Seq<(ValueV, NodeV)>,
    path: Seq<ValueV>,
    i: int,
    last: Seq<ValueV>,
) -> bool {
    &&& children.len() > 0
    &&& children[0].0 matches ValueV::Integer(z) && z == 0
    &&& path[i] matches ValueV::Integer(z) && z == 0
    &&& last.len() >= i + 1
    &&& !path_key_eq_v(path.take(i + 1), last.take(i + 1))
}

/// The key-kind switch: a new child whose key kind differs from the
/// existing children's key kind (or a fresh index `0`) discards the
/// old children wholesale.
pub open spec fn kind_switch_v(children: Seq<(ValueV, NodeV)>, item: ValueV) -> Seq<
    (ValueV, NodeV),
> {
    if children.len() == 0 {
        children
    } else if item matches ValueV::Integer(z) && z == 0 {
        Seq::empty()
    } else if children[0].0 matches ValueV::Integer(_) && item matches ValueV::Str(_) {
        Seq::empty()
    } else if children[0].0 matches ValueV::Str(_) && item matches ValueV::Integer(_) {
        Seq::empty()
    } else {
        children
    }
}

/// The index of the first child keyed `k`, or the child count when
/// there is none.
pub open spec fn child_index_v(children: Seq<(ValueV, NodeV)>, k: ValueV) -> int
    decreases children,
{
    if children.len() == 0 {
        0
    } else if key_eq_v(children[0].0, k) {
        0
    } else {
        1 + child_index_v(children.drop_first(), k)
    }
}

pub proof fn lemma_child_index_v(children: Seq<(ValueV, NodeV)>, k: ValueV)
    ensures
        0 <= child_index_v(children, k) <= children.len(),
        child_index_v(children, k) < children.len() ==> key_eq_v(
            children[child_index_v(children, k)].0,
            k,
        ),
        forall|i: int| 0 <= i < child_index_v(children, k) ==> !key_eq_v(
            #[trigger] children[i].0,
            k,
        ),
        (child_index_v(children, k) < children.len()) == (find_child_v(children, k) is Some),
        child_index_v(children, k) < children.len() ==> find_child_v(children, k) == Some(
            children[child_index_v(children, k)].1,
        ),
    decreases children,
{
    if children.len() > 0 && !key_eq_v(children[0].0, k) {
        lemma_child_index_v(children.drop_first(), k);
        let j = child_index_v(children.drop_first(), k);
        assert forall|i: int| 0 <= i < 1 + j implies !key_eq_v(
            #[trigger] children[i].0,
            k,
        ) by {
            if i > 0 {
                assert(children.drop_first()[i - 1] == children[i]);
            }
        }
    }
}

/// The value the walk to `path` displaces, kept so that an optional
/// substitution can fall back to it: the leaf the walk overwrites or
/// breaks apart on its way. A fresh path displaces nothing, and an
/// array discarded wholesale by the reset rule leaves no single
/// previous value.
pub open spec fn probe_old_v(
    node: NodeV,
    path: Seq<ValueV>,
    i: int,
    last: Seq<ValueV>,
) -> Option<ValueV>
    decreases path.len() - i,
{
    if i < 0 || i >= path.len() {
        None
    } else {
        match node {
            NodeV::Leaf(x) => Some(x),
            NodeV::Branch { children, .. } => {
                if reset_cond_v(children, path, i, last) {
                    None
                } else {
                    match find_child_v(children, path[i]) {
                        Some(child) => if i + 1 < path.len() {
                            probe_old_v(child, path, i + 1, last)
                        } else {
                            match child {
                                NodeV::Leaf(x) => Some(x),
                                _ => None,
                            }
                        },
                        None => None,
                    }
                }
            },
        }
    }
}

/// The tree after walking `path` from segment `i` under `node` and
/// storing `leaf` at its end: branches are created over displaced
/// leaves, the array-reset and key-kind-switch rules discard stale
/// children, and every walked node loses its empty-branch hint.
pub open spec fn insert_v(
    node: NodeV,
    path: Seq<ValueV>,
    i: int,
    last: Seq<ValueV>,
    leaf: NodeV,
) -> NodeV
    decreases path.len() - i,
{
    if i < 0 || i >= path.len() {
        leaf
    } else {
        match node {
            NodeV::Leaf(_) => NodeV::Branch {
                children: seq![
                    (path[i], insert_v(NodeV::Leaf(ValueV::Temp), path, i + 1, last, leaf)),
                ],
                key_hint: None,
            },
            NodeV::Branch { children, .. } => {
                if reset_cond_v(children, path, i, last) {
                    NodeV::Branch {
                        children: seq![
                            (
                                path[i],
                                insert_v(NodeV::Leaf(ValueV::Temp), path, i + 1, last, leaf),
                            ),
                        ],
                        key_hint: None,
                    }
                } else {
                    let j = child_index_v(children, path[i]);
                    if j < children.len() {
                        NodeV::Branch {
                            children: children.update(
                                j,
                                (children[j].0, insert_v(children[j].1, path, i + 1, last, leaf)),
                            ),
                            key_hint: None,
                        }
                    } else {
                        NodeV::Branch {
                            children: kind_switch_v(children, path[i]).push(
                                (
                                    path[i],
                                    insert_v(
                                        NodeV::Leaf(ValueV::Null(seq!['0'])),
                                        path,
                                        i + 1,
                                        last,
                                        leaf,
                                    ),
                                ),
                            ),
                            key_hint: None,
                        }
                    }
                }
            },
        }
    }
}

/// Registers the literal indices a path walks through, so that later
/// appends to the same arrays continue after them.
pub open spec fn register_indices_v(arrays: ArraysV, full: Seq<ValueV>, i: int) -> ArraysV
    decreases full.len() - i,
{
    if i < 0 || i >= full.len() {
        arrays
    } else {
        let arrays2 = match full[i] {
            ValueV::Integer(idx) => {
                let inner = match arrays_find_v(arrays, full.take(i)) {
                    Some(inner) => inner,
                    None => Seq::empty(),
                };
                let inner2 = match inner_find_v(inner, ValueV::Integer(idx)) {
                    Some(_) => inner,
                    None => inner.push((ValueV::Integer(idx), idx)),
                };
                arrays_set_v(arrays, full.take(i), inner2)
            },
            _ => arrays,
        };
        register_indices_v(arrays2, full, i + 1)
    }
}

/// A substitution marker keeps the first displaced value it saw, for
/// the optional-substitution fallback; other values store as they
/// are.
pub open spec fn patch_original_v(leaf: NodeV, old: Option<ValueV>) -> NodeV {
    match leaf {
        NodeV::Leaf(ValueV::PathSubstitution { target, optional, original }) => NodeV::Leaf(
            ValueV::PathSubstitution {
                target,
                optional,
                original: match original {
                    Some(o) => Some(o),
                    None => match old {
                        Some(o) => Some(Box::new(o)),
                        None => None,
                    },
                },
            },
        ),
        _ => leaf,
    }
}

/// One assignment folded into the state; see [`merge`] for the
/// dispatch on the assignment's kind.
pub open spec fn merge_step_v(
    st: MergeStateV,
    raw_path: Seq<ValueV>,
    item: ValueV,
    strict: bool,
) -> Result<MergeStateV, ErrorV> {
    if raw_path.len() == 0 {
        Ok(st)
    } else {
        let full = expand_path_v(raw_path);
        match item {
            ValueV::PathSubstitutionInParent(target) => {
                let marker = ValueV::PathSubstitution {
                    target,
                    optional: false,
                    original: None,
                };
                let leaf = subst_v(marker, strict, st.tree, full);
                let path = full.take(full.len() - 1);
                finish_step_v(st, path, leaf, strict)
            },
            ValueV::ToConcatToArray { value, original_path, item_id } => {
                let opl = original_path.len();
                let cut = if opl <= full.len() {
                    full.len() - opl
                } else {
                    0
                };
                let root = full.take(cut as int);
                let inner = match arrays_find_v(st.arrays, root) {
                    Some(inner) => inner,
                    None => Seq::empty(),
                };
                let idx = match inner_find_v(inner, ValueV::Str(item_id)) {
                    Some(idx) => idx,
                    None => clamp_i64(inner.len() as int),
                };
                let inner2 = match inner_find_v(inner, ValueV::Str(item_id)) {
                    Some(_) => inner,
                    None => inner.push((ValueV::Str(item_id), idx)),
                };
                let arrays2 = arrays_set_v(st.arrays, root, inner2);
                let leaf = subst_v(*value, strict, st.tree, full);
                let path = root + seq![ValueV::Integer(idx)] + expand_path_v(original_path);
                finish_step_v(
                    MergeStateV { arrays: arrays2, ..st },
                    path,
                    leaf,
                    strict,
                )
            },
            ValueV::PathSubstitution { target, .. } => {
                let tv = match arrays_find_v(st.arrays, to_path_v(*target)) {
                    Some(inner) => inner,
                    None => Seq::empty(),
                };
                let arrays2 = match arrays_find_v(st.arrays, full) {
                    Some(_) => st.arrays,
                    None => arrays_set_v(st.arrays, full, tv),
                };
                let leaf = subst_v(item, strict, st.tree, full);
                finish_step_v(MergeStateV { arrays: arrays2, ..st }, full, leaf, strict)
            },
            _ => {
                let arrays2 = register_indices_v(st.arrays, full, 0);
                let leaf = subst_v(item, strict, st.tree, full);
                finish_step_v(MergeStateV { arrays: arrays2, ..st }, full, leaf, strict)
            },
        }
    }
}

/// Stores a resolved assignment value: walks the tree, patches a kept
/// substitution marker with the displaced value, and remembers the
/// walked path for the array-reset rule.
pub open spec fn finish_step_v(
    st: MergeStateV,
    path: Seq<ValueV>,
    leaf: Result<NodeV, ErrorV>,
    strict: bool,
) -> Result<MergeStateV, ErrorV> {
    match leaf {
        Err(e) => Err(e),
        Ok(leafnode) => {
            let old = probe_old_v(st.tree, path, 0, st.last);
            let patched = patch_original_v(leafnode, old);
            Ok(
                MergeStateV {
                    tree: insert_v(st.tree, path, 0, st.last, patched),
                    last: path,
                    arrays: st.arrays,
                },
            )
        },
    }
}

/// The initial fold state: an empty unhinted branch, no previous
/// path, no append bookkeeping.
pub open spec fn init_state_v() -> MergeStateV {
    MergeStateV {
        tree: NodeV::Branch { children: Seq::empty(), key_hint: None },
        last: Seq::empty(),
        arrays: Seq::empty(),
    }
}

/// The whole stream folded in document order.
pub open spec fn merge_fold_v(
    stream: Seq<(Seq<ValueV>, ValueV)>,
    strict: bool,
) -> Result<MergeStateV, ErrorV>
    decreases stream,
{
    if stream.len() == 0 {
        Ok(init_state_v())
    } else {
        match merge_fold_v(stream.drop_last(), strict) {
            Err(e) => Err(e),
            Ok(st) => merge_step_v(st, stream.last().0, stream.last().1, strict),
        }
    }
}

/// What merging a stream returns: the finished tree, or in strict
/// mode the first resolution failure.
pub open spec fn merge_v(stream: Seq<(Seq<ValueV>, ValueV)>, strict: bool) -> Result<
    NodeV,
    ErrorV,
> {
    match merge_fold_v(stream, strict) {
        Ok(st) => Ok(st.tree),
        Err(e) => Err(e),
    }
}

/// The append bookkeeping, executably: association lists in
/// registration order.
pub type Arrays = Vec<(Vec<HoconValue>, Vec<(HoconValue, i64)>)>;

/// The model of one inner slot map.
pub open spec fn inner_view(s: Seq<(HoconValue, i64)>) -> Seq<(ValueV, i64)>
    decreases s,
{
    if s.len() == 0 {
        Seq::empty()
    } else {
        inner_view(s.drop_last()).push((s.last().0@, s.last().1))
    }
}

/// `inner_view` is the element-wise model of the slot map.
pub broadcast proof fn lemma_inner_view(s: Seq<(HoconValue, i64)>)
    ensures
        (#[trigger] inner_view(s)).len() == s.len(),
        forall|i: int| 0 <= i < s.len() ==> inner_view(s)[i] == (s[i].0@, s[i].1),
    decreases s,
{
    if s.len() > 0 {
        lemma_inner_view(s.drop_last());
    }
}

/// The model of the whole bookkeeping.
pub open spec fn arrays_view(s: Seq<(Vec<HoconValue>, Vec<(HoconValue, i64)>)>) -> ArraysV
    decreases s,
{
    if s.len() == 0 {
        Seq::empty()
    } else {
        arrays_view(s.drop_last()).push(
            (values_view(s.last().0@), inner_view(s.last().1@)),
        )
    }
}

/// `arrays_view` is the element-wise model of the bookkeeping.
pub broadcast proof fn lemma_arrays_view(s: Seq<(Vec<HoconValue>, Vec<(HoconValue, i64)>)>)
    ensures
        (#[trigger] arrays_view(s)).len() == s.len(),
        forall|i: int| 0 <= i < s.len() ==> arrays_view(s)[i] == (
            values_view(s[i].0@),
            inner_view(s[i].1@),
        ),
    decreases s,
{
    if s.len() > 0 {
        lemma_arrays_view(s.drop_last());
    }
}

/// Decides [`path_key_eq_v`].
pub fn path_key_eq(a: &Vec<HoconValue>, b: &Vec<HoconValue>) -> (r: bool)
    ensures
        r == path_key_eq_v(values_view(a@), values_view(b@)),
{
    proof {
        lemma_values_view(a@);
        lemma_values_view(b@);
    }
    if a.len() != b.len() {
        return false;
    }
    let mut i: usize = 0;
    while i < a.len()
        invariant
            0 <= i <= a@.len(),
            a@.len() == b@.len(),
            values_view(a@).len() == a@.len(),
            values_view(b@).len() == b@.len(),
            forall|j: int| 0 <= j < a@.len() ==> values_view(a@)[j] == crate::value::value_view(
                a@[j],
            ),
            forall|j: int| 0 <= j < b@.len() ==> values_view(b@)[j] == crate::value::value_view(
                b@[j],
            ),
            forall|j: int| 0 <= j < i ==> #[trigger] key_eq_v(
                values_view(a@)[j],
                values_view(b@)[j],
            ),
        decreases a@.len() - i,
    {
        if !key_eq(&a[i], &b[i]) {
            proof {
                assert(!key_eq_v(values_view(a@)[i as int], values_view(b@)[i as int]));
            }
            return false;
        }
        i = i + 1;
    }
    true
}

/// Finds the first bookkeeping entry for path `k`, as an index.
fn arrays_find(m: &Arrays, k: &Vec<HoconValue>) -> (r: Option<usize>)
    ensures
        ({
            let mv = arrays_view(m@);
            let kv = values_view(k@);
            match r {
                Some(j) => j < m@.len() && arrays_find_v(mv, kv) == Some(mv[j as int].1)
                    && path_key_eq_v(mv[j as int].0, kv) && forall|i: int|
                    0 <= i < j ==> !path_key_eq_v(#[trigger] mv[i].0, kv),
                None => arrays_find_v(mv, kv) is None,
            }
        }),
{
    let ghost mv = arrays_view(m@);
    let ghost kv = values_view(k@);
    proof {
        lemma_arrays_view(m@);
        assert(mv.skip(0) =~= mv);
    }
    let mut j: usize = 0;
    while j < m.len()
        invariant
            0 <= j <= m@.len(),
            mv == arrays_view(m@),
            kv == values_view(k@),
            mv.len() == m@.len(),
            forall|i: int| 0 <= i < m@.len() ==> mv[i] == (
                values_view(m@[i].0@),
                inner_view(m@[i].1@),
            ),
            arrays_find_v(mv, kv) == arrays_find_v(mv.skip(j as int), kv),
            forall|i: int| 0 <= i < j ==> !path_key_eq_v(#[trigger] mv[i].0, kv),
        decreases m@.len() - j,
    {
        proof {
            assert(mv.skip(j as int)[0] == mv[j as int]);
            assert(mv.skip(j as int).drop_first() =~= mv.skip(j as int + 1));
        }
        if path_key_eq(&m[j].0, k) {
            return Some(j);
        }
        j = j + 1;
    }
    proof {
        assert(mv.skip(m@.len() as int).len() == 0);
    }
    None
}

/// Finds the slot bound to key `k`, if any.
fn inner_find(m: &Vec<(HoconValue, i64)>, k: &HoconValue) -> (r: Option<i64>)
    ensures
        r == inner_find_v(inner_view(m@), k@),
{
    let ghost mv = inner_view(m@);
    proof {
        lemma_inner_view(m@);
        assert(mv.skip(0) =~= mv);
    }
    let mut j: usize = 0;
    while j < m.len()
        invariant
            0 <= j <= m@.len(),
            mv == inner_view(m@),
            mv.len() == m@.len(),
            forall|i: int| 0 <= i < m@.len() ==> mv[i] == (m@[i].0@, m@[i].1),
            inner_find_v(mv, k@) == inner_find_v(mv.skip(j as int), k@),
        decreases m@.len() - j,
    {
        proof {
            assert(mv.skip(j as int)[0] == mv[j as int]);
            assert(mv.skip(j as int).drop_first() =~= mv.skip(j as int + 1));
        }
        if key_eq(&m[j].0, k) {
            return Some(m[j].1);
        }
        j = j + 1;
    }
    proof {
        assert(mv.skip(m@.len() as int).len() == 0);
    }
    None
}

/// Clones one slot map.
fn clone_inner(m: &Vec<(HoconValue, i64)>) -> (r: Vec<(HoconValue, i64)>)
    ensures
        inner_view(r@) == inner_view(m@),
{
    let mut r: Vec<(HoconValue, i64)> = Vec::new();
    let mut j: usize = 0;
    proof {
        lemma_inner_view(m@);
    }
    while j < m.len()
        invariant
            0 <= j <= m@.len(),
            inner_view(r@).len() == j,
            forall|i: int| 0 <= i < j ==> inner_view(r@)[i] == (m@[i].0@, m@[i].1),
        decreases m@.len() - j,
    {
        let ghost pre = r@;
        r.push((clone_value(&m[j].0), m[j].1));
        proof {
            assert(r@.drop_last() =~= pre);
            lemma_inner_view(r@);
        }
        j = j + 1;
    }
    proof {
        lemma_inner_view(m@);
        lemma_inner_view(r@);
        assert(inner_view(r@) =~= inner_view(m@));
    }
    r
}

/// A failed lookup means no entry matches.
proof fn lemma_arrays_find_none(mv: ArraysV, kv: Seq<ValueV>)
    requires
        arrays_find_v(mv, kv) is None,
    ensures
        forall|i: int| 0 <= i < mv.len() ==> !path_key_eq_v(#[trigger] mv[i].0, kv),
    decreases mv.len(),
{
    if mv.len() > 0 {
        lemma_arrays_find_none(mv.drop_first(), kv);
        assert forall|i: int| 0 <= i < mv.len() implies !path_key_eq_v(
            #[trigger] mv[i].0,
            kv,
        ) by {
            if i > 0 {
                assert(mv.drop_first()[i - 1] == mv[i]);
            }
        }
    }
}

/// `arrays_set_v` replaces in place at the first match, or appends.
proof fn lemma_arrays_set_at(mv: ArraysV, kv: Seq<ValueV>, iv: Seq<(ValueV, i64)>, j: int)
    requires
        0 <= j <= mv.len(),
        forall|i: int| 0 <= i < j ==> !path_key_eq_v(#[trigger] mv[i].0, kv),
        j < mv.len() ==> path_key_eq_v(mv[j].0, kv),
    ensures
        j < mv.len() ==> arrays_set_v(mv, kv, iv) == mv.update(j, (mv[j].0, iv)),
        j == mv.len() ==> arrays_set_v(mv, kv, iv) == mv.push((kv, iv)),
    decreases mv.len(),
{
    if mv.len() == 0 {
        assert(arrays_set_v(mv, kv, iv) =~= mv.push((kv, iv)));
    } else if j == 0 {
        assert(arrays_set_v(mv, kv, iv) =~= mv.update(0, (mv[0].0, iv)));
    } else {
        assert(forall|i: int| 0 <= i < j - 1 ==> mv.drop_first()[i] == mv[i + 1]);
        lemma_arrays_set_at(mv.drop_first(), kv, iv, j - 1);
        if j < mv.len() {
            assert(arrays_set_v(mv, kv, iv) =~= mv.update(j, (mv[j].0, iv)));
        } else {
            assert(arrays_set_v(mv, kv, iv) =~= mv.push((kv, iv)));
        }
    }
}

/// Binds path `k` to `inner` in the bookkeeping; see
/// [`arrays_set_v`].
fn arrays_set(m: Arrays, k: &Vec<HoconValue>, inner: Vec<(HoconValue, i64)>) -> (r: Arrays)
    ensures
        arrays_view(r@) == arrays_set_v(arrays_view(m@), values_view(k@), inner_view(inner@)),
{
    let ghost mv = arrays_view(m@);
    let ghost kv = values_view(k@);
    let ghost iv = inner_view(inner@);
    proof {
        lemma_arrays_view(m@);
    }
    let found = arrays_find(&m, k);
    match found {
        Some(j) => {
            let mut r = m;
            let kept = r.remove(j);
            r.insert(j, (kept.0, inner));
            proof {
                lemma_arrays_set_at(mv, kv, iv, j as int);
                lemma_arrays_view(r@);
                assert(arrays_view(r@) =~= mv.update(j as int, (mv[j as int].0, iv)));
            }
            r
        },
        None => {
            let mut r = m;
            let path_clone = clone_values(k);
            r.push((path_clone, inner));
            proof {
                lemma_arrays_find_none(mv, kv);
                lemma_arrays_set_at(mv, kv, iv, mv.len() as int);
                assert(r@.drop_last() =~= m@);
                lemma_arrays_view(r@);
                assert(arrays_view(r@) =~= mv.push((kv, iv)));
            }
            r
        },
    }
}

/// Expands one raw path item; see [`expand_item_v`].
#[verifier::loop_isolation(false)]
fn expand_item(v: &HoconValue) -> (r: Vec<HoconValue>)
    ensures
        values_view(r@) == expand_item_v(v@),
{
    match v {
        HoconValue::UnquotedString(s) => {
            let t = trim(s.as_str());
            let parts = split_dots(t.as_str());
            let ghost partsv = split_dots_v(trim_v(s@));
            let mut r: Vec<HoconValue> = Vec::new();
            let mut k: usize = 0;
            proof {
                crate::strings::lemma_vec_deep_view(&parts);
            }
            while k < parts.len()
                invariant
                    0 <= k <= parts@.len(),
                    parts.deep_view() == partsv,
                    values_view(r@).len() == k,
                    forall|i: int| 0 <= i < k ==> values_view(r@)[i] == ValueV::Str(partsv[i]),
                decreases parts@.len() - k,
            {
                proof {
                    crate::strings::lemma_vec_deep_view(&parts);
                }
                let piece = parts[k].clone();
                let ghost pre = r@;
                r.push(HoconValue::String(piece));
                proof {
                    assert(r@.drop_last() =~= pre);
                    lemma_values_view(r@);
                }
                k = k + 1;
            }
            proof {
                assert(values_view(r@) =~= partsv.map_values(|p: Seq<char>| ValueV::Str(p)));
            }
            r
        },
        other => {
            let mut r: Vec<HoconValue> = Vec::new();
            r.push(clone_value(other));
            proof {
                lemma_values_view(r@);
                assert(values_view(r@) =~= seq![other@]);
            }
            r
        },
    }
}

/// Expands a raw path into the effective path; see
/// [`expand_path_v`].
#[verifier::loop_isolation(false)]
pub fn expand_path(p: &Vec<HoconValue>) -> (r: Vec<HoconValue>)
    ensures
        values_view(r@) == expand_path_v(values_view(p@)),
{
    let ghost pv = values_view(p@);
    proof {
        lemma_values_view(p@);
    }
    let mut r: Vec<HoconValue> = Vec::new();
    let mut k: usize = 0;
    while k < p.len()
        invariant
            0 <= k <= p@.len(),
            values_view(r@) == expand_path_v(pv.take(k as int)),
        decreases p@.len() - k,
    {
        proof {
            lemma_values_view(p@);
        }
        let mut piece = expand_item(&p[k]);
        let ghost pre = r@;
        let ghost piecev = piece@;
        r.append(&mut piece);
        proof {
            assert(r@ =~= pre + piecev);
            lemma_values_view_concat(pre, piecev);
            assert(pv.take(k as int + 1).drop_last() =~= pv.take(k as int));
            assert(pv.take(k as int + 1).last() == pv[k as int]);
        }
        k = k + 1;
    }
    proof {
        assert(pv.take(p@.len() as int) =~= pv);
    }
    r
}

/// Decides [`reset_cond_v`] at segment `i`.
#[verifier::loop_isolation(false)]
fn reset_cond(
    children: &Vec<(HoconValue, Node)>,
    path: &Vec<HoconValue>,
    i: usize,
    last: &Vec<HoconValue>,
) -> (r: bool)
    requires
        i < path@.len(),
    ensures
        r == reset_cond_v(
            children_view(children@),
            values_view(path@),
            i as int,
            values_view(last@),
        ),
{
    proof {
        lemma_children_view(children@);
        lemma_values_view(path@);
        lemma_values_view(last@);
    }
    if children.len() == 0 {
        return false;
    }
    let first_zero = match &children[0].0 {
        HoconValue::Integer(z) => *z == 0i64,
        _ => false,
    };
    let item_zero = match &path[i] {
        HoconValue::Integer(z) => *z == 0i64,
        _ => false,
    };
    if !(first_zero && item_zero && last.len() > i) {
        return false;
    }
    let mut alleq = true;
    let mut j: usize = 0;
    while j < i + 1
        invariant
            0 <= j <= i + 1,
            i < path@.len(),
            last@.len() >= i + 1,
            alleq == (forall|x: int| 0 <= x < j ==> #[trigger] key_eq_v(
                values_view(path@)[x],
                values_view(last@)[x],
            )),
        decreases i + 1 - j,
    {
        let e = key_eq(&path[j], &last[j]);
        proof {
            if alleq && !e {
                assert(!key_eq_v(values_view(path@)[j as int], values_view(last@)[j as int]));
            }
        }
        alleq = alleq && e;
        j = j + 1;
    }
    proof {
        let pv = values_view(path@);
        let lv = values_view(last@);
        let pt = pv.take(i as int + 1);
        let lt = lv.take(i as int + 1);
        if alleq {
            assert forall|x: int| 0 <= x < pt.len() implies #[trigger] key_eq_v(
                pt[x],
                lt[x],
            ) by {
                assert(key_eq_v(pv[x], lv[x]));
            }
            assert(path_key_eq_v(pt, lt));
        } else {
            let w = choose|x: int| 0 <= x < i + 1 && !key_eq_v(
                #[trigger] pv[x],
                #[trigger] lv[x],
            );
            assert(!key_eq_v(pt[w], lt[w]));
            assert(!path_key_eq_v(pt, lt));
        }
    }
    !alleq
}

/// The index of the first child keyed like `k`, or the child count.
#[verifier::loop_isolation(false)]
fn child_index(children: &Vec<(HoconValue, Node)>, k: &HoconValue) -> (r: usize)
    ensures
        r as int == child_index_v(children_view(children@), k@),
        r <= children@.len(),
{
    let ghost cv = children_view(children@);
    proof {
        lemma_children_view(children@);
        assert(cv.skip(0) =~= cv);
    }
    let mut j: usize = 0;
    while j < children.len()
        invariant
            0 <= j <= children@.len(),
            cv == children_view(children@),
            cv.len() == children@.len(),
            forall|i: int| 0 <= i < children@.len() ==> cv[i] == (
                children@[i].0@,
                crate::node::node_view(children@[i].1),
            ),
            child_index_v(cv, k@) == j + child_index_v(cv.skip(j as int), k@),
        decreases children@.len() - j,
    {
        proof {
            assert(cv.skip(j as int)[0] == cv[j as int]);
            assert(cv.skip(j as int).drop_first() =~= cv.skip(j as int + 1));
        }
        if key_eq(&children[j].0, k) {
            return j;
        }
        j = j + 1;
    }
    proof {
        assert(cv.skip(children@.len() as int).len() == 0);
    }
    j
}

/// Probes the value the walk to `path` displaces; see
/// [`probe_old_v`].
#[verifier::loop_isolation(false)]
fn probe_old(node: &Node, path: &Vec<HoconValue>, i: usize, last: &Vec<HoconValue>) -> (r:
    Option<HoconValue>)
    requires
        i <= path@.len(),
    ensures
        ({
            let sr = probe_old_v(node@, values_view(path@), i as int, values_view(last@));
            match r {
                Some(v) => sr matches Some(m) && v@ == m,
                None => sr is None,
            }
        }),
    decreases path@.len() - i,
{
    proof {
        lemma_values_view(path@);
    }
    if i >= path.len() {
        return None;
    }
    match node {
        Node::Leaf(x) => Some(clone_value(x)),
        Node::Branch { children, .. } => {
            proof {
                lemma_children_view(children@);
            }
            if reset_cond(children, path, i, last) {
                None
            } else {
                let j = child_index(children, &path[i]);
                proof {
                    lemma_child_index_v(children_view(children@), values_view(path@)[i as int]);
                }
                if j < children.len() {
                    if i + 1 < path.len() {
                        probe_old(&children[j].1, path, i + 1, last)
                    } else {
                        match &children[j].1 {
                            Node::Leaf(x) => Some(clone_value(x)),
                            _ => None,
                        }
                    }
                } else {
                    None
                }
            }
        },
    }
}

/// Walks `path` from segment `i` and stores `leaf` at its end; see
/// [`insert_v`].
#[verifier::loop_isolation(false)]
fn insert_at(node: Node, path: &Vec<HoconValue>, i: usize, last: &Vec<HoconValue>, leaf: Node)
    -> (r: Node)
    requires
        i <= path@.len(),
    ensures
        r@ == insert_v(node@, values_view(path@), i as int, values_view(last@), leaf@),
    decreases path@.len() - i,
{
    proof {
        lemma_values_view(path@);
    }
    if i >= path.len() {
        return leaf;
    }
    let is_leaf = match &node {
        Node::Leaf(_) => true,
        _ => false,
    };
    if is_leaf {
        let sub = insert_at(Node::Leaf(HoconValue::Temp), path, i + 1, last, leaf);
        let mut children: Vec<(HoconValue, Node)> = Vec::new();
        children.push((clone_value(&path[i]), sub));
        proof {
            lemma_children_view(children@);
            assert(children_view(children@) =~= seq![
                (
                    values_view(path@)[i as int],
                    insert_v(
                        NodeV::Leaf(ValueV::Temp),
                        values_view(path@),
                        i as int + 1,
                        values_view(last@),
                        leaf@,
                    ),
                ),
            ]);
        }
        return Node::Branch { children, key_hint: None };
    }
    match node {
        Node::Branch { children, .. } => {
            proof {
                lemma_children_view(children@);
            }
            let ghost cv = children_view(children@);
            if reset_cond(&children, path, i, last) {
                let sub = insert_at(Node::Leaf(HoconValue::Temp), path, i + 1, last, leaf);
                let mut out: Vec<(HoconValue, Node)> = Vec::new();
                out.push((clone_value(&path[i]), sub));
                proof {
                    lemma_children_view(out@);
                    assert(children_view(out@) =~= seq![
                        (
                            values_view(path@)[i as int],
                            insert_v(
                                NodeV::Leaf(ValueV::Temp),
                                values_view(path@),
                                i as int + 1,
                                values_view(last@),
                                leaf@,
                            ),
                        ),
                    ]);
                }
                Node::Branch { children: out, key_hint: None }
            } else {
                let j = child_index(&children, &path[i]);
                proof {
                    lemma_child_index_v(cv, values_view(path@)[i as int]);
                }
                if j < children.len() {
                    let sub = insert_at(children[j].1.clone(), path, i + 1, last, leaf);
                    let mut out: Vec<(HoconValue, Node)> = Vec::new();
                    let mut idx: usize = 0;
                    let ghost target = cv.update(
                        j as int,
                        (
                            cv[j as int].0,
                            insert_v(
                                cv[j as int].1,
                                values_view(path@),
                                i as int + 1,
                                values_view(last@),
                                leaf@,
                            ),
                        ),
                    );
                    while idx < children.len()
                        invariant
                            0 <= idx <= children@.len(),
                            children_view(out@).len() == idx,
                            forall|x: int| 0 <= x < idx ==> children_view(out@)[x] == target[x],
                        decreases children@.len() - idx,
                    {
                        proof {
                            lemma_children_view(children@);
                        }
                        let ghost pre = out@;
                        if idx == j {
                            let key = children[idx].0.clone();
                            let subc = sub.clone();
                            out.push((key, subc));
                        } else {
                            out.push((children[idx].0.clone(), children[idx].1.clone()));
                        }
                        proof {
                            assert(out@.drop_last() =~= pre);
                            lemma_children_view(out@);
                        }
                        idx = idx + 1;
                    }
                    proof {
                        lemma_children_view(out@);
                        assert(children_view(out@) =~= target);
                    }
                    Node::Branch { children: out, key_hint: None }
                } else {
                    let item_zero = match &path[i] {
                        HoconValue::Integer(z) => *z == 0i64,
                        _ => false,
                    };
                    let drop_all = if children.len() == 0 {
                        false
                    } else if item_zero {
                        true
                    } else {
                        let first_int = match &children[0].0 {
                            HoconValue::Integer(_) => true,
                            _ => false,
                        };
                        let first_str = match &children[0].0 {
                            HoconValue::String(_) => true,
                            _ => false,
                        };
                        let item_int = match &path[i] {
                            HoconValue::Integer(_) => true,
                            _ => false,
                        };
                        let item_str = match &path[i] {
                            HoconValue::String(_) => true,
                            _ => false,
                        };
                        (first_int && item_str) || (first_str && item_int)
                    };
                    let mut out: Vec<(HoconValue, Node)> = Vec::new();
                    if !drop_all {
                        let mut idx: usize = 0;
                        while idx < children.len()
                            invariant
                                0 <= idx <= children@.len(),
                                children_view(out@).len() == idx,
                                forall|x: int| 0 <= x < idx ==> children_view(out@)[x] == cv[x],
                            decreases children@.len() - idx,
                        {
                            proof {
                                lemma_children_view(children@);
                            }
                            let ghost pre = out@;
                            out.push((children[idx].0.clone(), children[idx].1.clone()));
                            proof {
                                assert(out@.drop_last() =~= pre);
                                lemma_children_view(out@);
                            }
                            idx = idx + 1;
                        }
                    }
                    proof {
                        lemma_children_view(out@);
                        assert(children_view(out@) =~= kind_switch_v(
                            cv,
                            values_view(path@)[i as int],
                        ));
                    }
                    let zero = "0".to_owned();
                    proof {
                        reveal_strlit("0");
                        assert(zero@ =~= seq!['0']);
                    }
                    let sub = insert_at(Node::Leaf(HoconValue::Null(zero)), path, i + 1, last, leaf);
                    let ghost pre = out@;
                    out.push((clone_value(&path[i]), sub));
                    proof {
                        assert(out@.drop_last() =~= pre);
                        lemma_children_view(out@);
                        assert(children_view(out@) =~= kind_switch_v(
                            cv,
                            values_view(path@)[i as int],
                        ).push(
                            (
                                values_view(path@)[i as int],
                                insert_v(
                                    NodeV::Leaf(ValueV::Null(seq!['0'])),
                                    values_view(path@),
                                    i as int + 1,
                                    values_view(last@),
                                    leaf@,
                                ),
                            ),
                        ));
                    }
                    Node::Branch { children: out, key_hint: None }
                }
            }
        },
        Node::Leaf(_) => leaf,
    }
}

/// Registers the literal indices along `full`; see
/// [`register_indices_v`].
#[verifier::loop_isolation(false)]
fn register_indices(arrays: Arrays, full: &Vec<HoconValue>) -> (r: Arrays)
    ensures
        arrays_view(r@) == register_indices_v(arrays_view(arrays@), values_view(full@), 0),
{
    let ghost a0 = arrays_view(arrays@);
    let ghost fv = values_view(full@);
    proof {
        lemma_values_view(full@);
        assert(fv.take(0) =~= Seq::<ValueV>::empty());
    }
    let mut cur = arrays;
    let mut checked: Vec<HoconValue> = Vec::new();
    let mut i: usize = 0;
    while i < full.len()
        invariant
            0 <= i <= full@.len(),
            fv == values_view(full@),
            fv.len() == full@.len(),
            forall|x: int| 0 <= x < full@.len() ==> fv[x] == crate::value::value_view(full@[x]),
            values_view(checked@) == fv.take(i as int),
            register_indices_v(a0, fv, 0) == register_indices_v(
                arrays_view(cur@),
                fv,
                i as int,
            ),
        decreases full@.len() - i,
    {
        match &full[i] {
            HoconValue::Integer(idx) => {
                let inner: Vec<(HoconValue, i64)> = match arrays_find(&cur, &checked) {
                    Some(j) => clone_inner(&cur[j].1),
                    None => Vec::new(),
                };
                proof {
                    lemma_arrays_view(cur@);
                }
                let key = HoconValue::Integer(*idx);
                let inner2: Vec<(HoconValue, i64)> = match inner_find(&inner, &key) {
                    Some(_) => inner,
                    None => {
                        let mut i2 = inner;
                        let ghost pre = i2@;
                        i2.push((key, *idx));
                        proof {
                            assert(i2@.drop_last() =~= pre);
                            lemma_inner_view(i2@);
                            assert(inner_view(i2@) =~= inner_view(pre).push(
                                (ValueV::Integer(*idx), *idx),
                            ));
                        }
                        i2
                    },
                };
                cur = arrays_set(cur, &checked, inner2);
            },
            _ => {},
        }
        let ghost prechecked = checked@;
        checked.push(clone_value(&full[i]));
        proof {
            assert(checked@.drop_last() =~= prechecked);
            lemma_values_view(checked@);
            assert(values_view(checked@) =~= fv.take(i as int + 1));
        }
        i = i + 1;
    }
    proof {
        assert(fv.take(full@.len() as int) =~= fv);
    }
    cur
}

/// The merged tree, before finalizing.
#[derive(Debug, PartialEq)]
pub struct HoconIntermediate {
    /// The finished tree.
    pub tree: Node,
}

impl View for HoconIntermediate {
    type V = NodeV;

    open spec fn view(&self) -> NodeV {
        self.tree@
    }
}

impl Clone for HoconIntermediate {
    /// Clones the intermediate tree; the copy has the same model.
    fn clone(&self) -> (r: Self)
        ensures
            r@ == self@,
    {
        HoconIntermediate { tree: self.tree.clone() }
    }
}

/// Folds the flat assignment stream into one tree, in document
/// order: dotted unquoted keys are expanded; a substitution first in
/// an array literal moves to the array's own slot; a `+=` append is
/// given a concrete index, one per distinct append identifier; every
/// value is resolved against the tree built so far before it is
/// stored, and a substitution marker that stays keeps the value it
/// displaced as its optional fallback. Returns exactly [`merge_v`]
/// of the stream's model; an `Err` can only arise in strict mode and
/// is the first resolution failure in document order.
#[verifier::loop_isolation(false)]
#[verifier::rlimit(100)]
pub fn merge(stream: &Vec<(Path, HoconValue)>, strict: bool) -> (r: Result<
    HoconIntermediate,
    Error,
>)
    ensures
        ({
            let sr = merge_v(crate::value::stream_view(stream@), strict);
            match r {
                Ok(t) => sr matches Ok(m) && t@ == m,
                Err(e) => sr matches Err(f) && e@ == f,
            }
        }),
{
    let ghost sv = crate::value::stream_view(stream@);
    proof {
        crate::value::lemma_stream_view(stream@);
        assert(sv.take(0) =~= Seq::<(Seq<ValueV>, ValueV)>::empty());
    }
    let mut tree: Node = Node::Branch { children: Vec::new(), key_hint: None };
    let mut last: Vec<HoconValue> = Vec::new();
    let mut arrays: Arrays = Vec::new();
    let mut k: usize = 0;
    proof {
        assert(children_view(Seq::<(HoconValue, Node)>::empty()) =~= Seq::<
            (ValueV, NodeV),
        >::empty());
        assert(values_view(Seq::<HoconValue>::empty()) =~= Seq::<ValueV>::empty());
        assert(arrays_view(Seq::<(Vec<HoconValue>, Vec<(HoconValue, i64)>)>::empty())
            =~= Seq::<(Seq<ValueV>, Seq<(ValueV, i64)>)>::empty());
    }
    while k < stream.len()
        invariant
            0 <= k <= stream@.len(),
            sv == crate::value::stream_view(stream@),
            sv.len() == stream@.len(),
            forall|x: int| 0 <= x < stream@.len() ==> sv[x] == (
                values_view(stream@[x].0@),
                crate::value::value_view(stream@[x].1),
            ),
            merge_fold_v(sv.take(k as int), strict) matches Ok(st) && st == (MergeStateV {
                tree: tree@,
                last: values_view(last@),
                arrays: arrays_view(arrays@),
            }),
        decreases stream@.len() - k,
    {
        proof {
            assert(sv.take(k as int + 1).drop_last() =~= sv.take(k as int));
            assert(sv.take(k as int + 1).last() == sv[k as int]);
        }
        let ghost st = MergeStateV {
            tree: tree@,
            last: values_view(last@),
            arrays: arrays_view(arrays@),
        };
        let raw_path = &stream[k].0;
        let item = &stream[k].1;
        proof {
            lemma_values_view(raw_path@);
        }
        if raw_path.len() > 0 {
            let full = expand_path(raw_path);
            let ghost fullv = expand_path_v(values_view(raw_path@));
            proof {
                lemma_values_view(full@);
            }
            let step: (Result<Node, Error>, Vec<HoconValue>) = match item {
                HoconValue::PathSubstitutionInParent(t) => {
                    let marker = HoconValue::PathSubstitution {
                        target: Box::new(clone_value(t)),
                        optional: false,
                        original: None,
                    };
                    let leaf = substitute(&marker, strict, &tree, &full);
                    let mut path = full;
                    if path.len() > 0 {
                        let ghost pre = path@;
                        path.pop();
                        proof {
                            assert(path@ =~= pre.drop_last());
                            assert(values_view(path@) =~= fullv.take(fullv.len() - 1));
                        }
                    }
                    (leaf, path)
                },
                HoconValue::ToConcatToArray { value, original_path, item_id } => {
                    let opl = original_path.len();
                    let cut: usize = if opl <= full.len() {
                        full.len() - opl
                    } else {
                        0
                    };
                    let mut root: Vec<HoconValue> = Vec::new();
                    let mut x: usize = 0;
                    while x < cut
                        invariant
                            0 <= x <= cut <= full@.len(),
                            values_view(full@) == fullv,
                            fullv.len() == full@.len(),
                            forall|y: int| 0 <= y < full@.len() ==> fullv[y]
                                == crate::value::value_view(full@[y]),
                            values_view(root@) == fullv.take(x as int),
                        decreases cut - x,
                    {
                        let ghost pre = root@;
                        root.push(clone_value(&full[x]));
                        proof {
                            assert(root@.drop_last() =~= pre);
                            lemma_values_view(root@);
                            assert(values_view(root@) =~= fullv.take(x as int + 1));
                        }
                        x = x + 1;
                    }
                    proof {
                        lemma_values_view(original_path@);
                    }
                    let inner: Vec<(HoconValue, i64)> = match arrays_find(&arrays, &root) {
                        Some(j) => {
                            proof {
                                lemma_arrays_view(arrays@);
                            }
                            clone_inner(&arrays[j].1)
                        },
                        None => Vec::new(),
                    };
                    let idkey = HoconValue::String(item_id.clone());
                    let found = inner_find(&inner, &idkey);
                    let idx: i64 = match found {
                        Some(x0) => x0,
                        None => {
                            let n = inner.len();
                            proof {
                                lemma_inner_view(inner@);
                            }
                            if (n as u64) <= (i64::MAX as u64) {
                                n as i64
                            } else {
                                i64::MAX
                            }
                        },
                    };
                    let inner2: Vec<(HoconValue, i64)> = match found {
                        Some(_) => inner,
                        None => {
                            let mut i2 = inner;
                            let ghost pre = i2@;
                            i2.push((idkey, idx));
                            proof {
                                assert(i2@.drop_last() =~= pre);
                                lemma_inner_view(i2@);
                                assert(inner_view(i2@) =~= inner_view(pre).push(
                                    (ValueV::Str(item_id@), idx),
                                ));
                            }
                            i2
                        },
                    };
                    arrays = arrays_set(arrays, &root, inner2);
                    let leaf = substitute(value, strict, &tree, &full);
                    let mut path = root;
                    let ghost rootv = values_view(path@);
                    let ghost preidx = path@;
                    path.push(HoconValue::Integer(idx));
                    proof {
                        assert(path@.drop_last() =~= preidx);
                        lemma_values_view(path@);
                        assert(values_view(path@) =~= rootv + seq![ValueV::Integer(idx)]);
                    }
                    let mut tailp = expand_path(original_path);
                    let ghost prev2 = path@;
                    let ghost tailv = tailp@;
                    path.append(&mut tailp);
                    proof {
                        assert(path@ =~= prev2 + tailv);
                        lemma_values_view_concat(prev2, tailv);
                    }
                    (leaf, path)
                },
                HoconValue::PathSubstitution { target, .. } => {
                    let tp = to_path(target);
                    let tv: Vec<(HoconValue, i64)> = match arrays_find(&arrays, &tp) {
                        Some(j) => {
                            proof {
                                lemma_arrays_view(arrays@);
                            }
                            clone_inner(&arrays[j].1)
                        },
                        None => Vec::new(),
                    };
                    match arrays_find(&arrays, &full) {
                        Some(_) => {},
                        None => {
                            arrays = arrays_set(arrays, &full, tv);
                        },
                    }
                    let leaf = substitute(item, strict, &tree, &full);
                    (leaf, full)
                },
                _ => {
                    arrays = register_indices(arrays, &full);
                    let leaf = substitute(item, strict, &tree, &full);
                    (leaf, full)
                },
            };
            let (leaf, path) = step;
            match leaf {
                Err(e) => {
                    proof {
                        assert(merge_fold_v(sv.take(k as int + 1), strict) is Err);
                        lemma_merge_fold_err(sv, k as int + 1, strict);
                        assert(sv.take(sv.len() as int) =~= sv);
                    }
                    return Err(e);
                },
                Ok(leafnode) => {
                    let old = probe_old(&tree, &path, 0, &last);
                    let patched: Node = match leafnode {
                        Node::Leaf(HoconValue::PathSubstitution { target, optional, original }) => {
                            let orig2: Option<Box<HoconValue>> = match original {
                                Some(o) => Some(o),
                                None => match old {
                                    Some(x) => Some(Box::new(x)),
                                    None => None,
                                },
                            };
                            Node::Leaf(
                                HoconValue::PathSubstitution {
                                    target,
                                    optional,
                                    original: orig2,
                                },
                            )
                        },
                        o => o,
                    };
                    let newtree = insert_at(tree, &path, 0, &last, patched);
                    tree = newtree;
                    last = path;
                },
            }
        }
        k = k + 1;
    }
    proof {
        assert(sv.take(stream@.len() as int) =~= sv);
    }
    Ok(HoconIntermediate { tree })
}

/// Once a prefix of the stream fails, the whole fold fails the same
/// way.
proof fn lemma_merge_fold_err(s: Seq<(Seq<ValueV>, ValueV)>, k: int, strict: bool)
    requires
        0 <= k <= s.len(),
        merge_fold_v(s.take(k), strict) is Err,
    ensures
        merge_fold_v(s, strict) == merge_fold_v(s.take(k), strict),
    decreases s.len(),
{
    if k < s.len() {
        assert(s.drop_last().take(k) =~= s.take(k));
        lemma_merge_fold_err(s.drop_last(), k, strict);
    } else {
        assert(s.take(k) =~= s);
    }
}

} // verus!
