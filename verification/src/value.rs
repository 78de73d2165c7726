//! The raw value model: every right-hand-side kind the syntax layer
//! can produce, including the transient markers the resolution engine
//! rewrites away.

use vstd::prelude::*;

use crate::error::{Error, ErrorV};
use crate::strings::{
    i64_str_v, i64_to_string, join_dots, join_dots_v, str_eq, trim,
    lemma_vec_deep_view, push_dv, split_dots, split_dots_v, str_is_blank, trim_v,
};

verus! {

/// Mathematical model of a [`HoconValue`].
pub enum ValueV {
    /// Model of [`HoconValue::Real`].
    Real(Seq<char>),
    /// Model of [`HoconValue::Integer`].
    Integer(i64),
    /// Model of [`HoconValue::String`].
    Str(Seq<char>),
    /// Model of [`HoconValue::UnquotedString`].
    UnquotedStr(Seq<char>),
    /// Model of [`HoconValue::Boolean`].
    Boolean(bool),
    /// Model of [`HoconValue::Concat`].
    Concat(Seq<ValueV>),
    /// Model of [`HoconValue::PathSubstitution`].
    PathSubstitution { target: Box<ValueV>, optional: bool, original: Option<Box<ValueV>> },
    /// Model of [`HoconValue::PathSubstitutionInParent`].
    PathSubstitutionInParent(Box<ValueV>),
    /// Model of [`HoconValue::ToConcatToArray`].
    ToConcatToArray { value: Box<ValueV>, original_path: Seq<ValueV>, item_id: Seq<char> },
    /// Model of [`HoconValue::Null`].
    Null(Seq<char>),
    /// Model of [`HoconValue::Temp`].
    Temp,
    /// Model of [`HoconValue::BadValue`].
    BadValue(ErrorV),
    /// Model of [`HoconValue::EmptyObject`].
    EmptyObject,
    /// Model of [`HoconValue::EmptyArray`].
    EmptyArray,
    /// Model of [`HoconValue::Included`].
    Included { value: Box<ValueV>, include_root: Option<Seq<ValueV>>, original_path: Seq<ValueV> },
}

/// One raw right-hand-side value of an assignment, as handed over by
/// the syntax layer or produced while resolving.
#[derive(Debug, PartialEq)]
pub enum HoconValue {
    /// A floating-point scalar, carried as its canonical decimal
    /// rendering (what `f64::to_string` returns for it).
    Real(String),
    /// An integer scalar.
    Integer(i64),
    /// A quoted string scalar.
    String(String),
    /// An unquoted string scalar; trimmed differently at the
    /// boundaries of a concatenation.
    UnquotedString(String),
    /// A boolean scalar.
    Boolean(bool),
    /// Adjacent tokens to join into one string, or to merge when one
    /// of them resolves to a branch.
    Concat(Vec<HoconValue>),
    /// A `${target}` or `${?target}` reference. `original` is the
    /// value previously occupying the slot, used as the fallback when
    /// `optional` and the target stays missing.
    PathSubstitution {
        /// The referenced path, before expansion.
        target: Box<HoconValue>,
        /// Whether the reference was written `${?...}`.
        optional: bool,
        /// The value the slot held before this assignment, if any.
        original: Option<Box<HoconValue>>,
    },
    /// A substitution standing first in an array literal, extending
    /// the referenced array: `a: ${b} [1, 2]`.
    PathSubstitutionInParent(Box<HoconValue>),
    /// A value assigned with `+=`; the synthetic array slot becomes a
    /// concrete index, one per distinct `item_id`.
    ToConcatToArray {
        /// The appended value.
        value: Box<HoconValue>,
        /// The path of the value below the array.
        original_path: Vec<HoconValue>,
        /// Identifier that keeps re-folds of the same append from
        /// allocating a second slot.
        item_id: String,
    },
    /// The null scalar; the string tags anonymous array slots apart.
    Null(String),
    /// Placeholder for a value that is replaced before the document
    /// is returned.
    Temp,
    /// Marker for a failure when not resolving strictly.
    BadValue(Error),
    /// Placeholder for an explicit empty object.
    EmptyObject,
    /// Placeholder for an explicit empty array.
    EmptyArray,
    /// A value that came from an included document.
    Included {
        /// The wrapped value.
        value: Box<HoconValue>,
        /// The path of the inclusion point, once known.
        include_root: Option<Vec<HoconValue>>,
        /// The value's path inside the included document.
        original_path: Vec<HoconValue>,
    },
}

/// The model of a raw value.
pub open spec fn value_view(v: HoconValue) -> ValueV
    decreases v,
{
    match v {
        HoconValue::Real(s) => ValueV::Real(s@),
        HoconValue::Integer(i) => ValueV::Integer(i),
        HoconValue::String(s) => ValueV::Str(s@),
        HoconValue::UnquotedString(s) => ValueV::UnquotedStr(s@),
        HoconValue::Boolean(b) => ValueV::Boolean(b),
        HoconValue::Concat(items) => ValueV::Concat(values_view(items@)),
        HoconValue::PathSubstitution { target, optional, original } => ValueV::PathSubstitution {
            target: Box::new(value_view(*target)),
            optional,
            original: match original {
                Some(o) => Some(Box::new(value_view(*o))),
                None => None,
            },
        },
        HoconValue::PathSubstitutionInParent(t) => ValueV::PathSubstitutionInParent(
            Box::new(value_view(*t)),
        ),
        HoconValue::ToConcatToArray { value, original_path, item_id } => ValueV::ToConcatToArray {
            value: Box::new(value_view(*value)),
            original_path: values_view(original_path@),
            item_id: item_id@,
        },
        HoconValue::Null(s) => ValueV::Null(s@),
        HoconValue::Temp => ValueV::Temp,
        HoconValue::BadValue(e) => ValueV::BadValue(e@),
        HoconValue::EmptyObject => ValueV::EmptyObject,
        HoconValue::EmptyArray => ValueV::EmptyArray,
        HoconValue::Included { value, include_root, original_path } => ValueV::Included {
            value: Box::new(value_view(*value)),
            include_root: match include_root {
                Some(r) => Some(values_view(r@)),
                None => None,
            },
            original_path: values_view(original_path@),
        },
    }
}

/// The models of a sequence of raw values, element by element.
pub open spec fn values_view(s: Seq<HoconValue>) -> Seq<ValueV>
    decreases s,
{
    if s.len() == 0 {
        Seq::empty()
    } else {
        values_view(s.drop_last()).push(value_view(s.last()))
    }
}

impl View for HoconValue {
    type V = ValueV;

    open spec fn view(&self) -> ValueV {
        value_view(*self)
    }
}

/// `values_view` is the element-wise model of the sequence.
pub broadcast proof fn lemma_values_view(s: Seq<HoconValue>)
    ensures
        (#[trigger] values_view(s)).len() == s.len(),
        forall|i: int| 0 <= i < s.len() ==> values_view(s)[i] == value_view(s[i]),
    decreases s,
{
    if s.len() > 0 {
        lemma_values_view(s.drop_last());
    }
}

/// A path: the ordered key segments identifying a tree location.
pub type Path = Vec<HoconValue>;

/// A flat assignment stream: ordered `(path, value)` pairs.
pub type Hash = Vec<(Path, HoconValue)>;

/// The model of a path.
pub open spec fn path_view(p: Path) -> Seq<ValueV> {
    values_view(p@)
}

/// The model of an assignment stream.
pub open spec fn stream_view(h: Seq<(Path, HoconValue)>) -> Seq<(Seq<ValueV>, ValueV)>
    decreases h,
{
    if h.len() == 0 {
        Seq::empty()
    } else {
        stream_view(h.drop_last()).push(
            (path_view(h.last().0), value_view(h.last().1)),
        )
    }
}

/// `stream_view` is the element-wise model of the stream.
pub broadcast proof fn lemma_stream_view(h: Seq<(Path, HoconValue)>)
    ensures
        (#[trigger] stream_view(h)).len() == h.len(),
        forall|i: int| 0 <= i < h.len() ==> stream_view(h)[i] == (
            path_view(h[i].0),
            value_view(h[i].1),
        ),
    decreases h,
{
    if h.len() > 0 {
        lemma_stream_view(h.drop_last());
    }
}

/// Clones one raw value; the copy has the same model.
pub fn clone_value(v: &HoconValue) -> (r: HoconValue)
    ensures
        r@ == v@,
    decreases v,
{
    match v {
        HoconValue::Real(s) => HoconValue::Real(s.clone()),
        HoconValue::Integer(i) => HoconValue::Integer(*i),
        HoconValue::String(s) => HoconValue::String(s.clone()),
        HoconValue::UnquotedString(s) => HoconValue::UnquotedString(s.clone()),
        HoconValue::Boolean(b) => HoconValue::Boolean(*b),
        HoconValue::Concat(items) => HoconValue::Concat(clone_values(items)),
        HoconValue::PathSubstitution { target, optional, original } => {
            HoconValue::PathSubstitution {
                target: Box::new(clone_value(target)),
                optional: *optional,
                original: match original {
                    Some(o) => Some(Box::new(clone_value(o))),
                    None => None,
                },
            }
        },
        HoconValue::PathSubstitutionInParent(t) => HoconValue::PathSubstitutionInParent(
            Box::new(clone_value(t)),
        ),
        HoconValue::ToConcatToArray { value, original_path, item_id } => {
            HoconValue::ToConcatToArray {
                value: Box::new(clone_value(value)),
                original_path: clone_values(original_path),
                item_id: item_id.clone(),
            }
        },
        HoconValue::Null(s) => HoconValue::Null(s.clone()),
        HoconValue::Temp => HoconValue::Temp,
        HoconValue::BadValue(e) => HoconValue::BadValue(e.clone()),
        HoconValue::EmptyObject => HoconValue::EmptyObject,
        HoconValue::EmptyArray => HoconValue::EmptyArray,
        HoconValue::Included { value, include_root, original_path } => HoconValue::Included {
            value: Box::new(clone_value(value)),
            include_root: match include_root {
                Some(r) => Some(clone_values(r)),
                None => None,
            },
            original_path: clone_values(original_path),
        },
    }
}

/// Clones a vector of raw values; the copy has the same model.
pub fn clone_values(vs: &Vec<HoconValue>) -> (r: Vec<HoconValue>)
    ensures
        values_view(r@) == values_view(vs@),
    decreases vs,
{
    let mut r: Vec<HoconValue> = Vec::new();
    let mut k: usize = 0;
    proof {
        lemma_values_view(vs@);
    }
    while k < vs.len()
        invariant
            0 <= k <= vs@.len(),
            values_view(r@).len() == k,
            forall|i: int| 0 <= i < k ==> values_view(r@)[i] == value_view(vs@[i]),
        decreases vs@.len() - k,
    {
        let c = clone_value(&vs[k]);
        let ghost oldr = r@;
        r.push(c);
        proof {
            assert(r@.drop_last() =~= oldr);
            lemma_values_view(r@);
        }
        k = k + 1;
    }
    proof {
        lemma_values_view(vs@);
        lemma_values_view(r@);
        assert(values_view(r@) =~= values_view(vs@));
    }
    r
}

impl Clone for HoconValue {
    /// Clones the value; the copy has the same model.
    fn clone(&self) -> (r: Self)
        ensures
            r@ == self@,
    {
        clone_value(self)
    }
}

/// Whether two values are the same tree key: integer keys by value,
/// string keys by characters, anonymous slots by their tag, error
/// markers by their error. A value of any other kind — a boolean or
/// a number with a fraction used as a path segment — matches no
/// slot, not even its own: later assignments and lookups through
/// such a segment always miss.
pub open spec fn key_eq_v(a: ValueV, b: ValueV) -> bool {
    match (a, b) {
        (ValueV::Integer(x), ValueV::Integer(y)) => x == y,
        (ValueV::Str(x), ValueV::Str(y)) => x == y,
        (ValueV::BadValue(x), ValueV::BadValue(y)) => x == y,
        (ValueV::Null(x), ValueV::Null(y)) => x == y,
        _ => false,
    }
}

/// Decides [`key_eq_v`].
pub fn key_eq(a: &HoconValue, b: &HoconValue) -> (r: bool)
    ensures
        r == key_eq_v(a@, b@),
{
    match (a, b) {
        (HoconValue::Integer(x), HoconValue::Integer(y)) => *x == *y,
        (HoconValue::String(x), HoconValue::String(y)) => *x == *y,
        (HoconValue::BadValue(x), HoconValue::BadValue(y)) => x.same_as(y),
        (HoconValue::Null(x), HoconValue::Null(y)) => *x == *y,
        _ => false,
    }
}

/// Whether `v` is an unquoted string of white space alone; such
/// fragments are suppressed at concatenation boundaries.
pub open spec fn is_blank_unquoted(v: ValueV) -> bool {
    match v {
        ValueV::UnquotedStr(s) => trim_v(s).len() == 0,
        _ => false,
    }
}

/// Concatenation items without a leading or trailing white-space-only
/// unquoted fragment.
pub open spec fn trim_concat_items_v(items: Seq<ValueV>) -> Seq<ValueV> {
    let after = if items.len() > 0 && is_blank_unquoted(items[0]) {
        items.drop_first()
    } else {
        items
    };
    if after.len() > 0 && is_blank_unquoted(after.last()) {
        after.drop_last()
    } else {
        after
    }
}

/// What [`maybe_concat`] returns: the single remaining item, or a
/// concatenation of all of them.
pub open spec fn maybe_concat_v(items: Seq<ValueV>) -> ValueV {
    let t = trim_concat_items_v(items);
    if t.len() == 1 {
        t[0]
    } else {
        ValueV::Concat(t)
    }
}

fn value_is_blank_unquoted(v: &HoconValue) -> (r: bool)
    ensures
        r == is_blank_unquoted(v@),
{
    match v {
        HoconValue::UnquotedString(s) => str_is_blank(s.as_str()),
        _ => false,
    }
}

/// Joins adjacent tokens into one value: drops a white-space-only
/// unquoted fragment at either boundary, and keeps a single remaining
/// item bare rather than wrapping it in a concatenation.
pub fn maybe_concat(values: Vec<HoconValue>) -> (r: HoconValue)
    ensures
        r@ == maybe_concat_v(values_view(values@)),
{
    proof {
        lemma_values_view(values@);
    }
    let mut v = values;
    if v.len() > 0 && value_is_blank_unquoted(&v[0]) {
        let ghost pre = v@;
        v.remove(0);
        proof {
            assert(v@ =~= pre.drop_first());
            lemma_values_view_drop_first(pre);
        }
    }
    proof {
        lemma_values_view(v@);
    }
    if v.len() > 0 && value_is_blank_unquoted(&v[v.len() - 1]) {
        let ghost pre = v@;
        v.pop();
        proof {
            assert(v@ =~= pre.drop_last());
        }
    }
    proof {
        lemma_values_view(v@);
        assert(values_view(v@) =~= trim_concat_items_v(values_view(values@)));
    }
    if v.len() == 1 {
        match v.pop() {
            Some(single) => single,
            None => HoconValue::Temp,
        }
    } else {
        HoconValue::Concat(v)
    }
}

proof fn lemma_values_view_drop_first(s: Seq<HoconValue>)
    requires
        s.len() > 0,
    ensures
        values_view(s.drop_first()) == values_view(s).drop_first(),
{
    lemma_values_view(s);
    lemma_values_view(s.drop_first());
    assert(values_view(s.drop_first()) =~= values_view(s).drop_first());
}

/// The path a substitution target denotes: a lone `.` is the empty
/// path, an unquoted string is trimmed and split at its dots, a
/// quoted string is one segment kept whole, a concatenation
/// contributes the paths of its items in order, and any other value
/// stands for itself.
pub open spec fn to_path_v(v: ValueV) -> Seq<ValueV>
    decreases v,
{
    match v {
        ValueV::UnquotedStr(s) => if s == seq!['.'] {
            Seq::empty()
        } else {
            split_dots_v(trim_v(s)).map_values(|p: Seq<char>| ValueV::Str(p))
        },
        ValueV::Str(s) => seq![ValueV::Str(s)],
        ValueV::Concat(items) => to_paths_v(items),
        _ => seq![v],
    }
}

/// The concatenated paths of the items, in order.
pub open spec fn to_paths_v(items: Seq<ValueV>) -> Seq<ValueV>
    decreases items,
{
    if items.len() == 0 {
        Seq::empty()
    } else {
        to_paths_v(items.drop_last()) + to_path_v(items.last())
    }
}

/// Computes the path a substitution target denotes; see
/// [`to_path_v`].
#[verifier::loop_isolation(false)]
pub fn to_path(v: &HoconValue) -> (r: Vec<HoconValue>)
    ensures
        values_view(r@) == to_path_v(v@),
    decreases v,
{
    match v {
        HoconValue::UnquotedString(s) => {
            if str_eq(s.as_str(), ".") {
                proof {
                    reveal_strlit(".");
                    assert(s@ =~= seq!['.']);
                }
                let r: Vec<HoconValue> = Vec::new();
                proof {
                    assert(values_view(r@) =~= Seq::<ValueV>::empty());
                }
                r
            } else {
                proof {
                    reveal_strlit(".");
                    assert("."@ =~= seq!['.']);
                    assert(s@ != seq!['.']);
                }
                let t = trim(s.as_str());
                let parts = split_dots(t.as_str());
                let ghost partsv = split_dots_v(trim_v(s@));
                let mut r: Vec<HoconValue> = Vec::new();
                let mut k: usize = 0;
                proof {
                    lemma_vec_deep_view(&parts);
                }
                while k < parts.len()
                    invariant
                        0 <= k <= parts@.len(),
                        parts.deep_view() == partsv,
                        values_view(r@).len() == k,
                        forall|i: int| 0 <= i < k ==> values_view(r@)[i] == ValueV::Str(
                            partsv[i],
                        ),
                    decreases parts@.len() - k,
                {
                    proof {
                        lemma_vec_deep_view(&parts);
                    }
                    let piece = parts[k].clone();
                    let ghost oldr = r@;
                    r.push(HoconValue::String(piece));
                    proof {
                        assert(r@.drop_last() =~= oldr);
                        lemma_values_view(r@);
                    }
                    k = k + 1;
                }
                proof {
                    assert(values_view(r@) =~= partsv.map_values(
                        |p: Seq<char>| ValueV::Str(p),
                    ));
                }
                r
            }
        },
        HoconValue::String(s) => {
            let mut r: Vec<HoconValue> = Vec::new();
            r.push(HoconValue::String(s.clone()));
            proof {
                lemma_values_view(r@);
                assert(values_view(r@) =~= seq![ValueV::Str(s@)]);
            }
            r
        },
        HoconValue::Concat(items) => {
            proof {
                lemma_values_view(items@);
            }
            let mut r: Vec<HoconValue> = Vec::new();
            let mut k: usize = 0;
            while k < items.len()
                invariant
                    0 <= k <= items@.len(),
                    values_view(r@) == to_paths_v(values_view(items@).take(k as int)),
                decreases items@.len() - k,
            {
                proof {
                    lemma_values_view(items@);
                    assert(decreases_to!(*v => v->Concat_0));
                    assert(decreases_to!(v->Concat_0 => v->Concat_0[k as int]));
                    assert(v->Concat_0[k as int] == items@[k as int]);
                }
                let mut piece = to_path(&items[k]);
                let ghost oldr = r@;
                let ghost piecev = piece@;
                r.append(&mut piece);
                proof {
                    assert(r@ =~= oldr + piecev);
                    lemma_values_view_concat(oldr, piecev);
                    let pv = values_view(items@);
                    assert(pv.take(k as int + 1).drop_last() =~= pv.take(k as int));
                    assert(pv.take(k as int + 1).last() == value_view(items@[k as int]));
                }
                k = k + 1;
            }
            proof {
                assert(values_view(items@).take(items@.len() as int) =~= values_view(items@));
            }
            r
        },
        other => {
            let mut r: Vec<HoconValue> = Vec::new();
            r.push(clone_value(other));
            proof {
                lemma_values_view(r@);
                assert(values_view(r@) =~= seq![other@]);
            }
            r
        },
    }
}

/// The model of two value vectors laid end to end is the two models
/// laid end to end.
pub proof fn lemma_values_view_concat(a: Seq<HoconValue>, b: Seq<HoconValue>)
    ensures
        values_view(a + b) == values_view(a) + values_view(b),
{
    lemma_values_view(a);
    lemma_values_view(b);
    lemma_values_view(a + b);
    assert(values_view(a + b) =~= values_view(a) + values_view(b));
}

/// The characters a key value contributes to a dotted-path rendering:
/// strings stand for themselves, the null scalar renders as `null`,
/// integers in decimal, booleans as `true`/`false`, reals as their
/// carried rendering; marker values render empty.
pub open spec fn string_value_v(v: ValueV) -> Seq<char> {
    match v {
        ValueV::Str(s) => s,
        ValueV::UnquotedStr(s) => s,
        ValueV::Null(_) => seq!['n', 'u', 'l', 'l'],
        ValueV::Integer(i) => i64_str_v(i as int),
        ValueV::Boolean(b) => if b {
            seq!['t', 'r', 'u', 'e']
        } else {
            seq!['f', 'a', 'l', 's', 'e']
        },
        ValueV::Real(s) => s,
        _ => Seq::empty(),
    }
}

/// Renders a key value for a dotted-path message; see
/// [`string_value_v`].
pub fn string_value(v: &HoconValue) -> (r: String)
    ensures
        r@ == string_value_v(v@),
{
    match v {
        HoconValue::String(s) => s.clone(),
        HoconValue::UnquotedString(s) => s.clone(),
        HoconValue::Null(_) => {
            let r = "null".to_owned();
            proof {
                reveal_strlit("null");
                assert(r@ =~= seq!['n', 'u', 'l', 'l']);
            }
            r
        },
        HoconValue::Integer(i) => i64_to_string(*i),
        HoconValue::Boolean(b) => {
            if *b {
                let r = "true".to_owned();
                proof {
                    reveal_strlit("true");
                    assert(r@ =~= seq!['t', 'r', 'u', 'e']);
                }
                r
            } else {
                let r = "false".to_owned();
                proof {
                    reveal_strlit("false");
                    assert(r@ =~= seq!['f', 'a', 'l', 's', 'e']);
                }
                r
            }
        },
        HoconValue::Real(s) => s.clone(),
        _ => String::new(),
    }
}

/// Renders a path as its segments joined with dots, as substitution
/// error messages show it.
pub open spec fn path_render_v(p: Seq<ValueV>) -> Seq<char> {
    join_dots_v(p.map_values(|v: ValueV| string_value_v(v)))
}

/// Renders a path for an error message; see [`path_render_v`].
pub fn path_render(p: &Vec<HoconValue>) -> (r: String)
    ensures
        r@ == path_render_v(values_view(p@)),
{
    let mut parts: Vec<String> = Vec::new();
    let mut k: usize = 0;
    proof {
        lemma_values_view(p@);
    }
    while k < p.len()
        invariant
            0 <= k <= p@.len(),
            parts.deep_view().len() == k,
            forall|i: int| 0 <= i < k ==> parts.deep_view()[i] == string_value_v(
                values_view(p@)[i],
            ),
            values_view(p@).len() == p@.len(),
            forall|i: int| 0 <= i < p@.len() ==> values_view(p@)[i] == value_view(p@[i]),
        decreases p@.len() - k,
    {
        let s = string_value(&p[k]);
        push_dv(&mut parts, s);
        k = k + 1;
    }
    let r = join_dots(&parts);
    proof {
        assert(parts.deep_view() =~= values_view(p@).map_values(
            |v: ValueV| string_value_v(v),
        ));
    }
    r
}

} // verus!
