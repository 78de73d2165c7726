//! The finalizer: one walk over the merged tree producing the public
//! value, resolving still-pending substitution markers (the second
//! pass, for forward references), applying the environment fallback
//! and the error policy.

use vstd::prelude::*;

use crate::error::{Error, ErrorV};
use crate::hocon::{
    entries_view, hocons_view, internal_string_v, lemma_entries_view, lemma_hocons_view, Hocon,
    HoconV,
};
use crate::node::{
    children_view, find_key_v, lemma_children_view, KeyType, Node, NodeV,
};
use crate::value::{
    path_render_v, string_value_v, to_path_v, to_paths_v, HoconValue, ValueV,
};
use crate::strings::{trim_end_v, trim_start_v, trim_v};

verus! {

/// Size of a node, the finalizer's structural termination measure.
pub open spec fn fsize_n(n: NodeV) -> nat
    decreases n,
{
    match n {
        NodeV::Leaf(v) => 1 + fsize_v(v),
        NodeV::Branch { children, .. } => 1 + fsize_cs(children),
    }
}

/// Size of a child list.
pub open spec fn fsize_cs(cs: Seq<(ValueV, NodeV)>) -> nat
    decreases cs,
{
    if cs.len() == 0 {
        0
    } else {
        fsize_cs(cs.drop_last()) + fsize_n(cs.last().1) + 1
    }
}

/// Size of a raw value.
pub open spec fn fsize_v(v: ValueV) -> nat
    decreases v,
{
    match v {
        ValueV::Concat(items) => 1 + fsize_vs(items),
        ValueV::Included { value, .. } => 1 + fsize_v(*value),
        _ => 1,
    }
}

/// Size of a list of raw values.
pub open spec fn fsize_vs(items: Seq<ValueV>) -> nat
    decreases items,
{
    if items.len() == 0 {
        0
    } else {
        fsize_vs(items.drop_last()) + fsize_v(items.last()) + 1
    }
}

/// The hop budget the finalizer starts with: the tree size, clamped
/// so that the executable walk can compute it. Any acyclic chain of
/// substitution hops is shorter than the number of tree nodes, so
/// the budget only cuts reference cycles short.
pub open spec fn fuel_n(n: NodeV) -> nat {
    clamp64(fsize_n(n) as int)
}

/// Clamps a count at `u64::MAX`.
pub open spec fn clamp64(n: int) -> nat {
    if n <= u64::MAX as int {
        n as nat
    } else {
        u64::MAX as nat
    }
}

/// The environment pairs, looked up by name.
pub open spec fn env_find_v(env: Seq<(Seq<char>, Seq<char>)>, k: Seq<char>) -> Option<Seq<char>>
    decreases env,
{
    if env.len() == 0 {
        None
    } else if env[0].0 == k {
        Some(env[0].1)
    } else {
        env_find_v(env.drop_first(), k)
    }
}

/// Whether a branch is the splice marker an included array leaves
/// behind: its first child is itself a branch whose first child is a
/// leaf wrapped by an include.
pub open spec fn array_leaf_included_v(n: NodeV) -> bool {
    match n {
        NodeV::Branch { children, .. } => children.len() > 0 && match children[0].1 {
            NodeV::Leaf(v) => v matches ValueV::Included { .. },
            _ => false,
        },
        _ => false,
    }
}

/// What a still-unresolved value finalizes to when it can only come
/// from a previous slot value: scalars stand, anything else is an
/// embedded parse-error marker.
pub open spec fn simple_finalize_v(v: ValueV) -> HoconV {
    match v {
        ValueV::Null(_) => HoconV::Null,
        ValueV::Boolean(b) => HoconV::Boolean(b),
        ValueV::Integer(i) => HoconV::Integer(i),
        ValueV::Real(s) => HoconV::Real(s),
        ValueV::Str(s) => HoconV::Str(s),
        ValueV::UnquotedStr(s) => if s == seq!['n', 'u', 'l', 'l'] {
            HoconV::Null
        } else {
            HoconV::Str(trim_v(s))
        },
        _ => HoconV::BadValue(ErrorV::Parse),
    }
}

/// An error under the policy: the error itself in strict mode, an
/// embedded marker otherwise.
pub open spec fn policy_v(strict: bool, e: ErrorV) -> Result<HoconV, ErrorV> {
    if strict {
        Err(e)
    } else {
        Ok(HoconV::BadValue(e))
    }
}

/// What finalizing a node yields; see [`HoconIntermediate::finalize`].
pub open spec fn fin_node_v(
    n: NodeV,
    root: NodeV,
    strict: bool,
    system: bool,
    env: Seq<(Seq<char>, Seq<char>)>,
    included: Option<Seq<ValueV>>,
    substituting: Option<Seq<ValueV>>,
    fuel: nat,
) -> Result<HoconV, ErrorV>
    decreases fuel, fsize_n(n), 1int,
{
    match n {
        NodeV::Leaf(v) => fin_value_v(
            v,
            root,
            strict,
            system,
            env,
            false,
            included,
            substituting,
            fuel,
        ),
        NodeV::Branch { children, key_hint } => {
            if children.len() == 0 {
                match key_hint {
                    Some(KeyType::Int) => Ok(HoconV::Array(Seq::empty())),
                    _ => Ok(HoconV::Hash(Seq::empty())),
                }
            } else if children[0].0 matches ValueV::Null(_) && array_leaf_included_v(
                children[0].1,
            ) {
                match fin_flat_v(children, root, strict, system, env, included, substituting, fuel) {
                    Ok(vs) => Ok(HoconV::Array(vs)),
                    Err(e) => Err(e),
                }
            } else if children[0].0 matches ValueV::Integer(_) || children[0].0 matches
                ValueV::Null(_) {
                match fin_arr_v(children, root, strict, system, env, included, substituting, fuel) {
                    Ok(vs) => Ok(HoconV::Array(vs)),
                    Err(e) => Err(e),
                }
            } else {
                match fin_hash_v(children, root, strict, system, env, included, substituting, fuel) {
                    Ok(es) => Ok(HoconV::Hash(es)),
                    Err(e) => Err(e),
                }
            }
        },
    }
}

/// The finalized elements of an array branch, in order; the first
/// failure aborts.
pub open spec fn fin_arr_v(
    children: Seq<(ValueV, NodeV)>,
    root: NodeV,
    strict: bool,
    system: bool,
    env: Seq<(Seq<char>, Seq<char>)>,
    included: Option<Seq<ValueV>>,
    substituting: Option<Seq<ValueV>>,
    fuel: nat,
) -> Result<Seq<HoconV>, ErrorV>
    decreases fuel, fsize_cs(children), 0int,
{
    if children.len() == 0 {
        Ok(Seq::empty())
    } else {
        match fin_arr_v(
            children.drop_last(),
            root,
            strict,
            system,
            env,
            included,
            substituting,
            fuel,
        ) {
            Err(e) => Err(e),
            Ok(front) => match fin_node_v(
                children.last().1,
                root,
                strict,
                system,
                env,
                included,
                substituting,
                fuel,
            ) {
                Ok(h) => Ok(front.push(h)),
                Err(e) => Err(e),
            },
        }
    }
}

/// Like [`fin_arr_v`], but an element that finalized to an array is
/// spliced in flat: what an array spliced out of an included file
/// finalizes to.
pub open spec fn fin_flat_v(
    children: Seq<(ValueV, NodeV)>,
    root: NodeV,
    strict: bool,
    system: bool,
    env: Seq<(Seq<char>, Seq<char>)>,
    included: Option<Seq<ValueV>>,
    substituting: Option<Seq<ValueV>>,
    fuel: nat,
) -> Result<Seq<HoconV>, ErrorV>
    decreases fuel, fsize_cs(children), 0int,
{
    if children.len() == 0 {
        Ok(Seq::empty())
    } else {
        match fin_flat_v(
            children.drop_last(),
            root,
            strict,
            system,
            env,
            included,
            substituting,
            fuel,
        ) {
            Err(e) => Err(e),
            Ok(front) => match fin_node_v(
                children.last().1,
                root,
                strict,
                system,
                env,
                included,
                substituting,
                fuel,
            ) {
                Ok(HoconV::Array(vs)) => Ok(front + vs),
                Ok(h) => Ok(front.push(h)),
                Err(e) => Err(e),
            },
        }
    }
}

/// The finalized entries of an object branch, keys rendered, in
/// order; the first failure aborts.
pub open spec fn fin_hash_v(
    children: Seq<(ValueV, NodeV)>,
    root: NodeV,
    strict: bool,
    system: bool,
    env: Seq<(Seq<char>, Seq<char>)>,
    included: Option<Seq<ValueV>>,
    substituting: Option<Seq<ValueV>>,
    fuel: nat,
) -> Result<Seq<(Seq<char>, HoconV)>, ErrorV>
    decreases fuel, fsize_cs(children), 0int,
{
    if children.len() == 0 {
        Ok(Seq::empty())
    } else {
        match fin_hash_v(
            children.drop_last(),
            root,
            strict,
            system,
            env,
            included,
            substituting,
            fuel,
        ) {
            Err(e) => Err(e),
            Ok(front) => match fin_node_v(
                children.last().1,
                root,
                strict,
                system,
                env,
                included,
                substituting,
                fuel,
            ) {
                Ok(h) => Ok(front.push((string_value_v(children.last().0), h))),
                Err(e) => Err(e),
            },
        }
    }
}

/// The boundary adjustment of one concatenation item: the first
/// unquoted fragment loses leading white space, the last one
/// trailing white space.
pub open spec fn concat_adjust_v(item: ValueV, idx: int, n_total: int) -> ValueV {
    match item {
        ValueV::UnquotedStr(s) => if idx == 0 {
            ValueV::UnquotedStr(trim_start_v(s))
        } else if idx == n_total - 1 {
            ValueV::UnquotedStr(trim_end_v(s))
        } else {
            item
        },
        _ => item,
    }
}

/// The characters a concatenation renders to: each item finalized in
/// concatenation position and rendered, items that fail or do not
/// render contributing nothing.
pub open spec fn fin_concat_v(
    items: Seq<ValueV>,
    n_total: int,
    root: NodeV,
    strict: bool,
    system: bool,
    env: Seq<(Seq<char>, Seq<char>)>,
    included: Option<Seq<ValueV>>,
    substituting: Option<Seq<ValueV>>,
    fuel: nat,
) -> Seq<char>
    decreases fuel, fsize_vs(items), 0int,
    via fin_concat_v_decreases
{
    if items.len() == 0 {
        Seq::empty()
    } else {
        let adj = concat_adjust_v(items.last(), items.len() - 1, n_total);
        let piece: Seq<char> = match fin_value_v(
            adj,
            root,
            strict,
            system,
            env,
            true,
            included,
            substituting,
            fuel,
        ) {
            Ok(h) => match internal_string_v(h) {
                Some(s) => s,
                None => Seq::empty(),
            },
            Err(_) => Seq::empty(),
        };
        fin_concat_v(
            items.drop_last(),
            n_total,
            root,
            strict,
            system,
            env,
            included,
            substituting,
            fuel,
        ) + piece
    }
}

/// What finalizing one raw value yields: scalars convert; an error
/// marker follows the policy; an unquoted string is trimmed unless it
/// sits inside a concatenation; a concatenation renders to a string;
/// a still-pending substitution is looked up once more against the
/// whole tree (rooted at its inclusion point if it came from an
/// included file); when that fails it falls back to the environment
/// (only while the environment fallback is enabled), then to the
/// value it displaced if it was optional, and otherwise follows the
/// policy with `KeyNotFound`; a construction marker that survived
/// resolution follows the policy with `Parse`.
pub open spec fn fin_value_v(
    v: ValueV,
    root: NodeV,
    strict: bool,
    system: bool,
    env: Seq<(Seq<char>, Seq<char>)>,
    in_concat: bool,
    included: Option<Seq<ValueV>>,
    substituting: Option<Seq<ValueV>>,
    fuel: nat,
) -> Result<HoconV, ErrorV>
    decreases fuel, fsize_v(v), 0int,
    via fin_value_v_decreases
{
    match v {
        ValueV::Null(_) => Ok(HoconV::Null),
        ValueV::BadValue(e) => policy_v(strict, e),
        ValueV::Boolean(b) => Ok(HoconV::Boolean(b)),
        ValueV::Integer(i) => Ok(HoconV::Integer(i)),
        ValueV::Real(s) => Ok(HoconV::Real(s)),
        ValueV::Str(s) => Ok(HoconV::Str(s)),
        ValueV::UnquotedStr(s) => if s == seq!['n', 'u', 'l', 'l'] {
            Ok(HoconV::Null)
        } else if in_concat {
            Ok(HoconV::Str(s))
        } else {
            Ok(HoconV::Str(trim_v(s)))
        },
        ValueV::Concat(items) => Ok(
            HoconV::Str(
                fin_concat_v(
                    items,
                    items.len() as int,
                    root,
                    strict,
                    system,
                    env,
                    included,
                    substituting,
                    fuel,
                ),
            ),
        ),
        ValueV::PathSubstitution { target, optional, original } => {
            let tpath = to_path_v(*target);
            let fixed = match included {
                Some(ip) => to_paths_v(ip) + tpath,
                None => tpath,
            };
            if substituting matches Some(sp) && crate::merge::path_key_eq_v(fixed, sp) {
                Ok(HoconV::Null)
            } else {
                let looked: Result<HoconV, ErrorV> = if fuel == 0 {
                    policy_v(strict, ErrorV::KeyNotFound { key: path_render_v(fixed) })
                } else {
                    match find_key_v(root, strict, fixed) {
                        Err(e) => Err(e),
                        Ok(found) => fin_node_v(
                            found,
                            root,
                            strict,
                            system,
                            env,
                            included,
                            Some(fixed),
                            (fuel - 1) as nat,
                        ),
                    }
                };
                let failure: Option<ErrorV> = match looked {
                    Err(e) => Some(e),
                    Ok(HoconV::BadValue(e)) => Some(e),
                    Ok(_) => None,
                };
                match failure {
                    None => looked,
                    Some(e) => {
                        let env_hit: Option<Seq<char>> = if system {
                            env_find_v(env, path_render_v(to_path_v(*target)))
                        } else {
                            None
                        };
                        match env_hit {
                            Some(val) => Ok(HoconV::Str(val)),
                            None => if optional && original is Some {
                                Ok(simple_finalize_v(*original->0))
                            } else {
                                policy_v(strict, e)
                            },
                        }
                    },
                }
            }
        },
        ValueV::Included { value, include_root, .. } => fin_value_v(
            *value,
            root,
            strict,
            system,
            env,
            in_concat,
            include_root,
            None,
            fuel,
        ),
        _ => policy_v(strict, ErrorV::Parse),
    }
}

/// Every raw value has positive size.
pub proof fn lemma_fsize_v_pos(v: ValueV)
    ensures
        fsize_v(v) >= 1,
    decreases v,
{
    match v {
        ValueV::Included { value, .. } => {
            lemma_fsize_v_pos(*value);
        },
        _ => {},
    }
}

#[via_fn]
proof fn fin_concat_v_decreases(
    items: Seq<ValueV>,
    n_total: int,
    root: NodeV,
    strict: bool,
    system: bool,
    env: Seq<(Seq<char>, Seq<char>)>,
    included: Option<Seq<ValueV>>,
    substituting: Option<Seq<ValueV>>,
    fuel: nat,
) {
    if items.len() > 0 {
        lemma_fsize_v_pos(items.last());
    }
}

#[via_fn]
proof fn fin_value_v_decreases(
    v: ValueV,
    root: NodeV,
    strict: bool,
    system: bool,
    env: Seq<(Seq<char>, Seq<char>)>,
    in_concat: bool,
    included: Option<Seq<ValueV>>,
    substituting: Option<Seq<ValueV>>,
    fuel: nat,
) {
    reveal_with_fuel(fsize_v, 3);
    reveal_with_fuel(fsize_vs, 3);
}

/// What finalizing the whole tree yields: [`fin_node_v`] of the root
/// against itself, with the full fuel.
pub open spec fn finalize_v(
    tree: NodeV,
    strict: bool,
    system: bool,
    env: Seq<(Seq<char>, Seq<char>)>,
) -> Result<HoconV, ErrorV> {
    fin_node_v(tree, tree, strict, system, env, None, None, fuel_n(tree))
}

/// Any child weighs less than its whole list.
proof fn lemma_fsize_cs_bound(cs: Seq<(ValueV, NodeV)>, i: int)
    requires
        0 <= i < cs.len(),
    ensures
        fsize_n(cs[i].1) < fsize_cs(cs) + 1,
    decreases cs,
{
    if cs.len() > 0 && i < cs.len() - 1 {
        lemma_fsize_cs_bound(cs.drop_last(), i);
    }
}

/// Any item weighs less than its whole list.
proof fn lemma_fsize_vs_bound(items: Seq<ValueV>, i: int)
    requires
        0 <= i < items.len(),
    ensures
        fsize_v(items[i]) < fsize_vs(items) + 1,
    decreases items,
{
    if items.len() > 0 && i < items.len() - 1 {
        lemma_fsize_vs_bound(items.drop_last(), i);
    }
}

/// Once a prefix of an array branch fails, the whole list fails the
/// same way.
proof fn lemma_fin_arr_err(
    children: Seq<(ValueV, NodeV)>,
    k: int,
    root: NodeV,
    strict: bool,
    system: bool,
    env: Seq<(Seq<char>, Seq<char>)>,
    included: Option<Seq<ValueV>>,
    substituting: Option<Seq<ValueV>>,
    fuel: nat,
)
    requires
        0 <= k <= children.len(),
        fin_arr_v(children.take(k), root, strict, system, env, included, substituting, fuel)
            is Err,
    ensures
        fin_arr_v(children, root, strict, system, env, included, substituting, fuel)
            == fin_arr_v(
            children.take(k),
            root,
            strict,
            system,
            env,
            included,
            substituting,
            fuel,
        ),
    decreases children.len(),
{
    if k < children.len() {
        assert(children.drop_last().take(k) =~= children.take(k));
        lemma_fin_arr_err(
            children.drop_last(),
            k,
            root,
            strict,
            system,
            env,
            included,
            substituting,
            fuel,
        );
    } else {
        assert(children.take(k) =~= children);
    }
}

/// Once a prefix of a spliced array branch fails, the whole list
/// fails the same way.
proof fn lemma_fin_flat_err(
    children: Seq<(ValueV, NodeV)>,
    k: int,
    root: NodeV,
    strict: bool,
    system: bool,
    env: Seq<(Seq<char>, Seq<char>)>,
    included: Option<Seq<ValueV>>,
    substituting: Option<Seq<ValueV>>,
    fuel: nat,
)
    requires
        0 <= k <= children.len(),
        fin_flat_v(children.take(k), root, strict, system, env, included, substituting, fuel)
            is Err,
    ensures
        fin_flat_v(children, root, strict, system, env, included, substituting, fuel)
            == fin_flat_v(
            children.take(k),
            root,
            strict,
            system,
            env,
            included,
            substituting,
            fuel,
        ),
    decreases children.len(),
{
    if k < children.len() {
        assert(children.drop_last().take(k) =~= children.take(k));
        lemma_fin_flat_err(
            children.drop_last(),
            k,
            root,
            strict,
            system,
            env,
            included,
            substituting,
            fuel,
        );
    } else {
        assert(children.take(k) =~= children);
    }
}

/// Once a prefix of an object branch fails, the whole list fails the
/// same way.
proof fn lemma_fin_hash_err(
    children: Seq<(ValueV, NodeV)>,
    k: int,
    root: NodeV,
    strict: bool,
    system: bool,
    env: Seq<(Seq<char>, Seq<char>)>,
    included: Option<Seq<ValueV>>,
    substituting: Option<Seq<ValueV>>,
    fuel: nat,
)
    requires
        0 <= k <= children.len(),
        fin_hash_v(children.take(k), root, strict, system, env, included, substituting, fuel)
            is Err,
    ensures
        fin_hash_v(children, root, strict, system, env, included, substituting, fuel)
            == fin_hash_v(
            children.take(k),
            root,
            strict,
            system,
            env,
            included,
            substituting,
            fuel,
        ),
    decreases children.len(),
{
    if k < children.len() {
        assert(children.drop_last().take(k) =~= children.take(k));
        lemma_fin_hash_err(
            children.drop_last(),
            k,
            root,
            strict,
            system,
            env,
            included,
            substituting,
            fuel,
        );
    } else {
        assert(children.take(k) =~= children);
    }
}

/// Laying two arrays of finalized values end to end models as the
/// two models end to end.
proof fn lemma_hocons_view_concat(a: Seq<Hocon>, b: Seq<Hocon>)
    ensures
        hocons_view(a + b) == hocons_view(a) + hocons_view(b),
{
    lemma_hocons_view(a);
    lemma_hocons_view(b);
    lemma_hocons_view(a + b);
    assert(hocons_view(a + b) =~= hocons_view(a) + hocons_view(b));
}

/// Saturating addition at `u64::MAX`.
fn sat_add(a: u64, b: u64) -> (r: u64)
    ensures
        r as nat == clamp64(a as int + b as int),
{
    if a <= u64::MAX - b {
        a + b
    } else {
        u64::MAX
    }
}

/// Computes the clamped size of a node.
#[verifier::loop_isolation(false)]
fn size_node(n: &Node) -> (r: u64)
    ensures
        r as nat == clamp64(fsize_n(n@) as int),
    decreases n,
{
    match n {
        Node::Leaf(v) => {
            let s = size_value(v);
            sat_add(1, s)
        },
        Node::Branch { children, .. } => {
            let ghost cv = children_view(children@);
            let mut acc: u64 = 0;
            let mut k: usize = 0;
            proof {
                lemma_children_view(children@);
            }
            while k < children.len()
                invariant
                    0 <= k <= children@.len(),
                    acc as nat == clamp64(fsize_cs(cv.take(k as int)) as int),
                decreases children@.len() - k,
            {
                proof {
                    lemma_children_view(children@);
                    assert(decreases_to!(*n => n->Branch_children));
                    assert(decreases_to!(n->Branch_children => n->Branch_children[k as int]));
                }
                let s = size_node(&children[k].1);
                let s1 = sat_add(s, 1);
                acc = sat_add(acc, s1);
                proof {
                    assert(cv.take(k as int + 1).drop_last() =~= cv.take(k as int));
                }
                k = k + 1;
            }
            proof {
                assert(cv.take(children@.len() as int) =~= cv);
            }
            sat_add(1, acc)
        },
    }
}

/// Computes the clamped size of a raw value.
#[verifier::loop_isolation(false)]
fn size_value(v: &HoconValue) -> (r: u64)
    ensures
        r as nat == clamp64(fsize_v(v@) as int),
    decreases v,
{
    match v {
        HoconValue::Concat(items) => {
            let ghost iv = crate::value::values_view(items@);
            let mut acc: u64 = 0;
            let mut k: usize = 0;
            proof {
                crate::value::lemma_values_view(items@);
            }
            while k < items.len()
                invariant
                    0 <= k <= items@.len(),
                    acc as nat == clamp64(fsize_vs(iv.take(k as int)) as int),
                decreases items@.len() - k,
            {
                proof {
                    crate::value::lemma_values_view(items@);
                    assert(decreases_to!(*v => v->Concat_0));
                    assert(decreases_to!(v->Concat_0 => v->Concat_0[k as int]));
                }
                let s = size_value(&items[k]);
                let s1 = sat_add(s, 1);
                acc = sat_add(acc, s1);
                proof {
                    assert(iv.take(k as int + 1).drop_last() =~= iv.take(k as int));
                }
                k = k + 1;
            }
            proof {
                assert(iv.take(items@.len() as int) =~= iv);
            }
            sat_add(1, acc)
        },
        HoconValue::Included { value, .. } => {
            let s = size_value(value);
            sat_add(1, s)
        },
        _ => 1,
    }
}

/// Looks a name up in the environment pairs; see [`env_find_v`].
#[verifier::loop_isolation(false)]
fn env_find(env: &Vec<(String, String)>, k: &str) -> (r: Option<String>)
    ensures
        ({
            let sr = env_find_v(env.deep_view(), k@);
            match r {
                Some(s) => sr matches Some(m) && s@ == m,
                None => sr is None,
            }
        }),
{
    let ghost ev = env.deep_view();
    proof {
        crate::strings::lemma_vec_deep_view(env);
        assert(ev.skip(0) =~= ev);
    }
    let mut j: usize = 0;
    while j < env.len()
        invariant
            0 <= j <= env@.len(),
            ev == env.deep_view(),
            ev.len() == env@.len(),
            forall|i: int| 0 <= i < env@.len() ==> ev[i] == (env@[i].0@, env@[i].1@),
            env_find_v(ev, k@) == env_find_v(ev.skip(j as int), k@),
        decreases env@.len() - j,
    {
        proof {
            assert(ev.skip(j as int)[0] == ev[j as int]);
            assert(ev.skip(j as int).drop_first() =~= ev.skip(j as int + 1));
        }
        if crate::strings::str_eq(env[j].0.as_str(), k) {
            return Some(env[j].1.clone());
        }
        j = j + 1;
    }
    proof {
        assert(ev.skip(env@.len() as int).len() == 0);
    }
    None
}

/// An error under the policy; see [`policy_v`].
fn policy(strict: bool, e: Error) -> (r: Result<Hocon, Error>)
    ensures
        ({
            let sr = policy_v(strict, e@);
            match r {
                Ok(h) => sr matches Ok(m) && h@ == m,
                Err(f) => sr matches Err(g) && f@ == g,
            }
        }),
{
    if strict {
        Err(e)
    } else {
        Ok(Hocon::BadValue(e))
    }
}

/// Finalizes a value that can only be a previous slot value; see
/// [`simple_finalize_v`].
fn simple_finalize(v: &HoconValue) -> (r: Hocon)
    ensures
        r@ == simple_finalize_v(v@),
{
    match v {
        HoconValue::Null(_) => Hocon::Null,
        HoconValue::Boolean(b) => Hocon::Boolean(*b),
        HoconValue::Integer(i) => Hocon::Integer(*i),
        HoconValue::Real(s) => Hocon::Real(s.clone()),
        HoconValue::String(s) => Hocon::String(s.clone()),
        HoconValue::UnquotedString(s) => {
            proof {
                reveal_strlit("null");
                assert("null"@ =~= seq!['n', 'u', 'l', 'l']);
            }
            if crate::strings::str_eq(s.as_str(), "null") {
                Hocon::Null
            } else {
                Hocon::String(crate::strings::trim(s.as_str()))
            }
        },
        _ => Hocon::BadValue(Error::Parse),
    }
}

/// The model of an optional path argument.
pub open spec fn opt_path_view(o: Option<Vec<HoconValue>>) -> Option<Seq<ValueV>> {
    match o {
        Some(p) => Some(crate::value::values_view(p@)),
        None => None,
    }
}

/// Expands a list of path items into one path; the loop body of
/// rooting a substitution at its inclusion point.
#[verifier::loop_isolation(false)]
fn expand_to_paths(items: &Vec<HoconValue>) -> (r: Vec<HoconValue>)
    ensures
        crate::value::values_view(r@) == to_paths_v(crate::value::values_view(items@)),
{
    let ghost iv = crate::value::values_view(items@);
    proof {
        crate::value::lemma_values_view(items@);
    }
    let mut r: Vec<HoconValue> = Vec::new();
    let mut k: usize = 0;
    while k < items.len()
        invariant
            0 <= k <= items@.len(),
            crate::value::values_view(r@) == to_paths_v(iv.take(k as int)),
        decreases items@.len() - k,
    {
        proof {
            crate::value::lemma_values_view(items@);
        }
        let mut piece = crate::value::to_path(&items[k]);
        let ghost pre = r@;
        let ghost piecev = piece@;
        r.append(&mut piece);
        proof {
            assert(r@ =~= pre + piecev);
            crate::value::lemma_values_view_concat(pre, piecev);
            assert(iv.take(k as int + 1).drop_last() =~= iv.take(k as int));
        }
        k = k + 1;
    }
    proof {
        assert(iv.take(items@.len() as int) =~= iv);
    }
    r
}

/// Finalizes one node; see [`fin_node_v`].
#[verifier::loop_isolation(false)]
#[verifier::rlimit(100)]
fn fin_node(
    n: &Node,
    root: &Node,
    strict: bool,
    system: bool,
    env: &Vec<(String, String)>,
    included: &Option<Vec<HoconValue>>,
    substituting: &Option<Vec<HoconValue>>,
    fuel: u64,
) -> (r: Result<Hocon, Error>)
    ensures
        ({
            let sr = fin_node_v(
                n@,
                root@,
                strict,
                system,
                env.deep_view(),
                opt_path_view(*included),
                opt_path_view(*substituting),
                fuel as nat,
            );
            match r {
                Ok(h) => sr matches Ok(m) && h@ == m,
                Err(e) => sr matches Err(f) && e@ == f,
            }
        }),
    decreases fuel, fsize_n(n@), 1int,
{
    let ghost envv = env.deep_view();
    let ghost incv = opt_path_view(*included);
    let ghost subv = opt_path_view(*substituting);
    match n {
        Node::Leaf(v) => fin_value(v, root, strict, system, env, false, included, substituting, fuel),
        Node::Branch { children, key_hint } => {
            let ghost cv = children_view(children@);
            proof {
                lemma_children_view(children@);
            }
            if children.len() == 0 {
                match key_hint {
                    Some(KeyType::Int) => Ok(Hocon::Array(Vec::new())),
                    _ => Ok(Hocon::Hash(Vec::new())),
                }
            } else {
                let first_null = match &children[0].0 {
                    HoconValue::Null(_) => true,
                    _ => false,
                };
                let first_int = match &children[0].0 {
                    HoconValue::Integer(_) => true,
                    _ => false,
                };
                let flat_marker = if first_null {
                    match &children[0].1 {
                        Node::Branch { children: gc, .. } => {
                            if gc.len() > 0 {
                                proof {
                                    lemma_children_view(gc@);
                                }
                                match &gc[0].1 {
                                    Node::Leaf(HoconValue::Included { .. }) => true,
                                    _ => false,
                                }
                            } else {
                                false
                            }
                        },
                        _ => false,
                    }
                } else {
                    false
                };
                if first_null && flat_marker {
                    let mut out: Vec<Hocon> = Vec::new();
                    let mut k: usize = 0;
                    while k < children.len()
                        invariant
                            0 <= k <= children@.len(),
                            fin_flat_v(
                                cv.take(k as int),
                                root@,
                                strict,
                                system,
                                envv,
                                incv,
                                subv,
                                fuel as nat,
                            ) matches Ok(vs) && vs == hocons_view(out@),
                        decreases children@.len() - k,
                    {
                        proof {
                            lemma_children_view(children@);
                            lemma_fsize_cs_bound(cv, k as int);
                            assert(cv.take(k as int + 1).drop_last() =~= cv.take(k as int));
                        }
                        let sub = fin_node(
                            &children[k].1,
                            root,
                            strict,
                            system,
                            env,
                            included,
                            substituting,
                            fuel,
                        );
                        match sub {
                            Err(e) => {
                                proof {
                                    lemma_fin_flat_err(
                                        cv,
                                        k as int + 1,
                                        root@,
                                        strict,
                                        system,
                                        envv,
                                        incv,
                                        subv,
                                        fuel as nat,
                                    );
                                    assert(cv.take(cv.len() as int) =~= cv);
                                }
                                return Err(e);
                            },
                            Ok(h) => {
                                match h {
                                    Hocon::Array(mut vs) => {
                                        let ghost pre = out@;
                                        let ghost vsv = vs@;
                                        out.append(&mut vs);
                                        proof {
                                            assert(out@ =~= pre + vsv);
                                            lemma_hocons_view_concat(pre, vsv);
                                        }
                                    },
                                    other => {
                                        let ghost pre = out@;
                                        out.push(other);
                                        proof {
                                            assert(out@.drop_last() =~= pre);
                                            lemma_hocons_view(out@);
                                        }
                                    },
                                }
                            },
                        }
                        k = k + 1;
                    }
                    proof {
                        assert(cv.take(children@.len() as int) =~= cv);
                    }
                    Ok(Hocon::Array(out))
                } else if first_int || first_null {
                    let mut out: Vec<Hocon> = Vec::new();
                    let mut k: usize = 0;
                    while k < children.len()
                        invariant
                            0 <= k <= children@.len(),
                            fin_arr_v(
                                cv.take(k as int),
                                root@,
                                strict,
                                system,
                                envv,
                                incv,
                                subv,
                                fuel as nat,
                            ) matches Ok(vs) && vs == hocons_view(out@),
                        decreases children@.len() - k,
                    {
                        proof {
                            lemma_children_view(children@);
                            lemma_fsize_cs_bound(cv, k as int);
                            assert(cv.take(k as int + 1).drop_last() =~= cv.take(k as int));
                        }
                        let sub = fin_node(
                            &children[k].1,
                            root,
                            strict,
                            system,
                            env,
                            included,
                            substituting,
                            fuel,
                        );
                        match sub {
                            Err(e) => {
                                proof {
                                    lemma_fin_arr_err(
                                        cv,
                                        k as int + 1,
                                        root@,
                                        strict,
                                        system,
                                        envv,
                                        incv,
                                        subv,
                                        fuel as nat,
                                    );
                                    assert(cv.take(cv.len() as int) =~= cv);
                                }
                                return Err(e);
                            },
                            Ok(h) => {
                                let ghost pre = out@;
                                out.push(h);
                                proof {
                                    assert(out@.drop_last() =~= pre);
                                    lemma_hocons_view(out@);
                                }
                            },
                        }
                        k = k + 1;
                    }
                    proof {
                        assert(cv.take(children@.len() as int) =~= cv);
                    }
                    Ok(Hocon::Array(out))
                } else {
                    let mut out: Vec<(String, Hocon)> = Vec::new();
                    let mut k: usize = 0;
                    while k < children.len()
                        invariant
                            0 <= k <= children@.len(),
                            fin_hash_v(
                                cv.take(k as int),
                                root@,
                                strict,
                                system,
                                envv,
                                incv,
                                subv,
                                fuel as nat,
                            ) matches Ok(es) && es == entries_view(out@),
                        decreases children@.len() - k,
                    {
                        proof {
                            lemma_children_view(children@);
                            lemma_fsize_cs_bound(cv, k as int);
                            assert(cv.take(k as int + 1).drop_last() =~= cv.take(k as int));
                        }
                        let key = crate::value::string_value(&children[k].0);
                        let sub = fin_node(
                            &children[k].1,
                            root,
                            strict,
                            system,
                            env,
                            included,
                            substituting,
                            fuel,
                        );
                        match sub {
                            Err(e) => {
                                proof {
                                    lemma_fin_hash_err(
                                        cv,
                                        k as int + 1,
                                        root@,
                                        strict,
                                        system,
                                        envv,
                                        incv,
                                        subv,
                                        fuel as nat,
                                    );
                                    assert(cv.take(cv.len() as int) =~= cv);
                                }
                                return Err(e);
                            },
                            Ok(h) => {
                                let ghost pre = out@;
                                out.push((key, h));
                                proof {
                                    assert(out@.drop_last() =~= pre);
                                    lemma_entries_view(out@);
                                }
                            },
                        }
                        k = k + 1;
                    }
                    proof {
                        assert(cv.take(children@.len() as int) =~= cv);
                    }
                    Ok(Hocon::Hash(out))
                }
            }
        },
    }
}

/// Finalizes one raw value; see [`fin_value_v`].
#[verifier::loop_isolation(false)]
#[verifier::rlimit(100)]
fn fin_value(
    v: &HoconValue,
    root: &Node,
    strict: bool,
    system: bool,
    env: &Vec<(String, String)>,
    in_concat: bool,
    included: &Option<Vec<HoconValue>>,
    substituting: &Option<Vec<HoconValue>>,
    fuel: u64,
) -> (r: Result<Hocon, Error>)
    ensures
        ({
            let sr = fin_value_v(
                v@,
                root@,
                strict,
                system,
                env.deep_view(),
                in_concat,
                opt_path_view(*included),
                opt_path_view(*substituting),
                fuel as nat,
            );
            match r {
                Ok(h) => sr matches Ok(m) && h@ == m,
                Err(e) => sr matches Err(f) && e@ == f,
            }
        }),
    decreases fuel, fsize_v(v@), 0int,
{
    let ghost envv = env.deep_view();
    let ghost incv = opt_path_view(*included);
    let ghost subv = opt_path_view(*substituting);
    match v {
        HoconValue::Null(_) => Ok(Hocon::Null),
        HoconValue::BadValue(e) => policy(strict, e.clone()),
        HoconValue::Boolean(b) => Ok(Hocon::Boolean(*b)),
        HoconValue::Integer(i) => Ok(Hocon::Integer(*i)),
        HoconValue::Real(s) => Ok(Hocon::Real(s.clone())),
        HoconValue::String(s) => Ok(Hocon::String(s.clone())),
        HoconValue::UnquotedString(s) => {
            proof {
                reveal_strlit("null");
                assert("null"@ =~= seq!['n', 'u', 'l', 'l']);
            }
            if crate::strings::str_eq(s.as_str(), "null") {
                Ok(Hocon::Null)
            } else if in_concat {
                Ok(Hocon::String(s.clone()))
            } else {
                Ok(Hocon::String(crate::strings::trim(s.as_str())))
            }
        },
        HoconValue::Concat(items) => {
            let ghost iv = crate::value::values_view(items@);
            proof {
                crate::value::lemma_values_view(items@);
            }
            let n_total = items.len();
            let mut acc = String::new();
            let mut k: usize = 0;
            while k < n_total
                invariant
                    0 <= k <= items@.len(),
                    n_total == items@.len(),
                    acc@ == fin_concat_v(
                        iv.take(k as int),
                        n_total as int,
                        root@,
                        strict,
                        system,
                        envv,
                        incv,
                        subv,
                        fuel as nat,
                    ),
                decreases items@.len() - k,
            {
                proof {
                    crate::value::lemma_values_view(items@);
                    lemma_fsize_vs_bound(iv, k as int);
                    assert(iv.take(k as int + 1).drop_last() =~= iv.take(k as int));
                }
                let adj: HoconValue = match &items[k] {
                    HoconValue::UnquotedString(s) => {
                        if k == 0 {
                            HoconValue::UnquotedString(crate::strings::trim_start(s.as_str()))
                        } else if k + 1 == n_total {
                            HoconValue::UnquotedString(crate::strings::trim_end(s.as_str()))
                        } else {
                            HoconValue::UnquotedString(s.clone())
                        }
                    },
                    other => crate::value::clone_value(other),
                };
                proof {
                    assert(adj@ == concat_adjust_v(iv[k as int], k as int, n_total as int));
                }
                let sub = fin_value(&adj, root, strict, system, env, true, included, substituting, fuel);
                let piece: String = match sub {
                    Ok(h) => match h.as_internal_string() {
                        Some(s) => s,
                        None => String::new(),
                    },
                    Err(_) => String::new(),
                };
                acc.append(piece.as_str());
                k = k + 1;
            }
            proof {
                assert(iv.take(items@.len() as int) =~= iv);
            }
            Ok(Hocon::String(acc))
        },
        HoconValue::PathSubstitution { target, optional, original } => {
            let tp = crate::value::to_path(target);
            let fixed: Vec<HoconValue> = match included {
                Some(ip) => {
                    let mut f = expand_to_paths(ip);
                    let mut tail = tp;
                    let ghost pre = f@;
                    let ghost tailv = tail@;
                    f.append(&mut tail);
                    proof {
                        assert(f@ =~= pre + tailv);
                        crate::value::lemma_values_view_concat(pre, tailv);
                    }
                    f
                },
                None => tp,
            };
            let is_self = match substituting {
                Some(sp) => crate::merge::path_key_eq(&fixed, sp),
                None => false,
            };
            if is_self {
                Ok(Hocon::Null)
            } else {
                let looked: Result<Hocon, Error> = if fuel == 0 {
                    policy(strict, Error::KeyNotFound { key: crate::value::path_render(&fixed) })
                } else {
                    match crate::node::find_key(root, strict, &fixed) {
                        Err(e) => Err(e),
                        Ok(found) => {
                            let sub2: Option<Vec<HoconValue>> = Some(fixed);
                            fin_node(&found, root, strict, system, env, included, &sub2, fuel - 1)
                        },
                    }
                };
                let failed: Option<Error> = match &looked {
                    Err(e) => Some(e.clone()),
                    Ok(Hocon::BadValue(e)) => Some(e.clone()),
                    Ok(_) => None,
                };
                match failed {
                    None => looked,
                    Some(e) => {
                        let env_hit: Option<String> = if system {
                            let tp2 = crate::value::to_path(target);
                            let name = crate::value::path_render(&tp2);
                            env_find(env, name.as_str())
                        } else {
                            None
                        };
                        match env_hit {
                            Some(val) => Ok(Hocon::String(val)),
                            None => {
                                let fallback = if *optional {
                                    match original {
                                        Some(o) => Some(simple_finalize(o)),
                                        None => None,
                                    }
                                } else {
                                    None
                                };
                                match fallback {
                                    Some(h) => Ok(h),
                                    None => policy(strict, e),
                                }
                            },
                        }
                    },
                }
            }
        },
        HoconValue::Included { value, include_root, .. } => {
            let none_path: Option<Vec<HoconValue>> = None;
            fin_value(value, root, strict, system, env, in_concat, include_root, &none_path, fuel)
        },
        _ => policy(strict, Error::Parse),
    }
}

impl crate::merge::HoconIntermediate {
    /// Finalizes the merged tree into the public value: resolves the
    /// still-pending forward references against the whole tree,
    /// classifies branches as arrays or objects, applies the
    /// environment fallback when `system` is set, and the error
    /// policy when `strict` is set. Returns exactly [`finalize_v`]
    /// of the tree's model.
    pub fn finalize(&self, strict: bool, system: bool, env: &Vec<(String, String)>) -> (r:
        Result<Hocon, Error>)
        ensures
            ({
                let sr = finalize_v(self@, strict, system, env.deep_view());
                match r {
                    Ok(h) => sr matches Ok(m) && h@ == m,
                    Err(e) => sr matches Err(f) && e@ == f,
                }
            }),
    {
        let fuel = size_node(&self.tree);
        let none_path: Option<Vec<HoconValue>> = None;
        fin_node(&self.tree, &self.tree, strict, system, env, &none_path, &none_path, fuel)
    }
}

} // verus!
