//! The loader: buffers parsed assignment streams, carries the
//! resolution options, and drives merge and finalize. The syntax
//! layer and all file access stay outside; they hand streams in and
//! take streams back through [`HoconInternal`].

use vstd::prelude::*;

use crate::error::{Error, ErrorV};
use crate::finalize::finalize_v;
use crate::hocon::Hocon;
use crate::merge::{merge, merge_v};
use crate::strings::{dec_str_nat, u64_to_string, lemma_vec_deep_view, split_dots, split_dots_v};
use crate::value::{
    clone_value, clone_values, path_view, stream_view, values_view, lemma_values_view,
    lemma_stream_view, lemma_values_view_concat, HoconValue, Path, ValueV,
};

verus! {

/// An include directive's source: a local file path or a URL.
pub enum Include<'a> {
    /// `include "..."` or `include file("...")`.
    File(&'a str),
    /// `include url("...")`.
    Url(&'a str),
}

impl<'a> Include<'a> {
    /// The included location, whichever kind it is.
    pub fn included(&self) -> (r: &'a str)
        ensures
            r@ == self.included_v(),
    {
        match self {
            Include::File(s) => s,
            Include::Url(s) => s,
        }
    }

    /// The included location's characters.
    pub open spec fn included_v(&self) -> Seq<char> {
        match *self {
            Include::File(s) => s@,
            Include::Url(s) => s@,
        }
    }
}

/// An ordered flat assignment stream, the sole interface between the
/// syntax layer and the resolution engine.
#[derive(Debug, PartialEq)]
pub struct HoconInternal {
    /// The assignments, in document order.
    pub internal: crate::value::Hash,
}

impl View for HoconInternal {
    type V = Seq<(Seq<ValueV>, ValueV)>;

    open spec fn view(&self) -> Seq<(Seq<ValueV>, ValueV)> {
        stream_view(self.internal@)
    }
}

/// Laying two streams end to end models as the two models end to
/// end.
pub proof fn lemma_stream_view_concat(a: Seq<(Path, HoconValue)>, b: Seq<(Path, HoconValue)>)
    ensures
        stream_view(a + b) == stream_view(a) + stream_view(b),
{
    lemma_stream_view(a);
    lemma_stream_view(b);
    lemma_stream_view(a + b);
    assert(stream_view(a + b) =~= stream_view(a) + stream_view(b));
}

/// Clones one assignment stream; the copy has the same model.
fn clone_stream(h: &Vec<(Path, HoconValue)>) -> (r: Vec<(Path, HoconValue)>)
    ensures
        stream_view(r@) == stream_view(h@),
{
    let mut r: Vec<(Path, HoconValue)> = Vec::new();
    let mut k: usize = 0;
    proof {
        lemma_stream_view(h@);
    }
    while k < h.len()
        invariant
            0 <= k <= h@.len(),
            stream_view(r@).len() == k,
            forall|i: int| 0 <= i < k ==> stream_view(r@)[i] == (
                path_view(h@[i].0),
                crate::value::value_view(h@[i].1),
            ),
        decreases h@.len() - k,
    {
        let p = clone_values(&h[k].0);
        let v = clone_value(&h[k].1);
        let ghost pre = r@;
        r.push((p, v));
        proof {
            assert(r@.drop_last() =~= pre);
            lemma_stream_view(r@);
        }
        k = k + 1;
    }
    proof {
        lemma_stream_view(h@);
        lemma_stream_view(r@);
        assert(stream_view(r@) =~= stream_view(h@));
    }
    r
}

impl Clone for HoconInternal {
    /// Clones the stream; the copy has the same model.
    fn clone(&self) -> (r: Self)
        ensures
            r@ == self@,
    {
        HoconInternal { internal: clone_stream(&self.internal) }
    }
}

/// An assignment's value with its inclusion point marked: when it
/// came from an included document, the paths before its own record
/// where it was spliced in.
pub open spec fn add_root_v(k: Seq<ValueV>, v: ValueV) -> (Seq<ValueV>, ValueV) {
    match v {
        ValueV::Included { value, original_path, .. } => {
            let cut = if original_path.len() <= k.len() {
                k.len() - original_path.len()
            } else {
                0
            };
            (
                k,
                ValueV::Included {
                    value,
                    include_root: Some(k.take(cut as int)),
                    original_path,
                },
            )
        },
        _ => (k, v),
    }
}

fn add_root_to_includes(k: Path, v: HoconValue) -> (r: (Path, HoconValue))
    ensures
        (path_view(r.0), r.1@) == add_root_v(path_view(k), v@),
{
    proof {
        lemma_values_view(k@);
    }
    match v {
        HoconValue::Included { value, original_path, .. } => {
            proof {
                lemma_values_view(original_path@);
            }
            let cut: usize = if original_path.len() <= k.len() {
                k.len() - original_path.len()
            } else {
                0
            };
            let mut root: Vec<HoconValue> = Vec::new();
            let mut x: usize = 0;
            while x < cut
                invariant
                    0 <= x <= cut <= k@.len(),
                    values_view(root@) == values_view(k@).take(x as int),
                    values_view(k@).len() == k@.len(),
                    forall|i: int| 0 <= i < k@.len() ==> values_view(k@)[i]
                        == crate::value::value_view(k@[i]),
                decreases cut - x,
            {
                let ghost pre = root@;
                root.push(clone_value(&k[x]));
                proof {
                    assert(root@.drop_last() =~= pre);
                    lemma_values_view(root@);
                    assert(values_view(root@) =~= values_view(k@).take(x as int + 1));
                }
                x = x + 1;
            }
            (
                k,
                HoconValue::Included {
                    value,
                    include_root: Some(root),
                    original_path,
                },
            )
        },
        other => (k, other),
    }
}

/// A whole stream with inclusion points marked; see [`add_root_v`].
pub open spec fn add_roots_v(s: Seq<(Seq<ValueV>, ValueV)>) -> Seq<(Seq<ValueV>, ValueV)> {
    s.map_values(|e: (Seq<ValueV>, ValueV)| add_root_v(e.0, e.1))
}

impl HoconInternal {
    /// The empty stream.
    pub fn empty() -> (r: Self)
        ensures
            r@ == Seq::<(Seq<ValueV>, ValueV)>::empty(),
    {
        let r = HoconInternal { internal: Vec::new() };
        proof {
            assert(r@ =~= Seq::<(Seq<ValueV>, ValueV)>::empty());
        }
        r
    }

    /// This stream followed by `other`.
    pub fn add(self, other: HoconInternal) -> (r: Self)
        ensures
            r@ == self@ + other@,
    {
        let mut elems = self.internal;
        let mut tail = other.internal;
        let ghost pre = elems@;
        let ghost tailv = tail@;
        elems.append(&mut tail);
        proof {
            assert(elems@ =~= pre + tailv);
            lemma_stream_view_concat(pre, tailv);
        }
        HoconInternal { internal: elems }
    }

    /// A stream of one anonymous assignment.
    pub fn from_value(v: HoconValue) -> (r: Self)
        ensures
            r@ == seq![(Seq::<ValueV>::empty(), v@)],
    {
        let mut internal: Vec<(Path, HoconValue)> = Vec::new();
        internal.push((Vec::new(), v));
        let r = HoconInternal { internal };
        proof {
            lemma_stream_view(r.internal@);
            assert(path_view(r.internal@[0].0) =~= Seq::<ValueV>::empty());
            assert(r@ =~= seq![(Seq::<ValueV>::empty(), crate::value::value_view(r.internal@[0].1))]);
        }
        r
    }

    /// The stream of an object literal: empty objects leave a typed
    /// placeholder; otherwise each assignment has its inclusion point
    /// marked now that its path is known.
    pub fn from_object(h: crate::value::Hash) -> (r: Self)
        ensures
            h@.len() == 0 ==> r@ == seq![(Seq::<ValueV>::empty(), ValueV::EmptyObject)],
            h@.len() > 0 ==> r@ == add_roots_v(stream_view(h@)),
    {
        if h.len() == 0 {
            let mut internal: Vec<(Path, HoconValue)> = Vec::new();
            internal.push((Vec::new(), HoconValue::EmptyObject));
            let r = HoconInternal { internal };
            proof {
                lemma_stream_view(r.internal@);
                assert(path_view(r.internal@[0].0) =~= Seq::<ValueV>::empty());
                assert(r@ =~= seq![(Seq::<ValueV>::empty(), ValueV::EmptyObject)]);
            }
            r
        } else {
            let ghost hv = stream_view(h@);
            proof {
                lemma_stream_view(h@);
            }
            let mut out: Vec<(Path, HoconValue)> = Vec::new();
            let mut h = h;
            let mut k: usize = 0;
            let n = h.len();
            while k < n
                invariant
                    0 <= k <= n,
                    h@.len() == n - k,
                    hv.len() == n,
                    forall|i: int| 0 <= i < h@.len() ==> hv[k + i] == (
                        path_view(h@[i].0),
                        crate::value::value_view(h@[i].1),
                    ),
                    stream_view(out@).len() == k,
                    forall|i: int| 0 <= i < k ==> stream_view(out@)[i] == add_root_v(
                        hv[i].0,
                        hv[i].1,
                    ),
                decreases n - k,
            {
                let ghost hpre = h@;
                let (p, v) = h.remove(0);
                proof {
                    assert(h@ =~= hpre.drop_first());
                    assert(path_view(p) == hv[k as int].0 && v@ == hv[k as int].1);
                }
                let entry = add_root_to_includes(p, v);
                let ghost pre = out@;
                out.push(entry);
                proof {
                    assert(out@.drop_last() =~= pre);
                    lemma_stream_view(out@);
                }
                k = k + 1;
            }
            let r = HoconInternal { internal: out };
            proof {
                lemma_stream_view(r.internal@);
                assert(r@ =~= add_roots_v(hv));
            }
            r
        }
    }

    /// Each assignment's path prefixed with `p`.
    pub fn add_to_path(self, p: Path) -> (r: Self)
        ensures
            r@.len() == self@.len(),
            forall|i: int| 0 <= i < self@.len() ==> r@[i] == (
                path_view(p) + self@[i].0,
                self@[i].1,
            ),
    {
        let ghost sv = self@;
        let ghost pv = path_view(p);
        proof {
            lemma_stream_view(self.internal@);
            lemma_values_view(p@);
        }
        let mut out: Vec<(Path, HoconValue)> = Vec::new();
        let mut h = self.internal;
        let mut k: usize = 0;
        let n = h.len();
        proof {
            assert(sv.len() == n);
        }
        while k < n
            invariant
                0 <= k <= n,
                h@.len() == n - k,
                sv.len() == n,
                pv == path_view(p),
                forall|i: int| 0 <= i < h@.len() ==> sv[k + i] == (
                    path_view(h@[i].0),
                    crate::value::value_view(h@[i].1),
                ),
                stream_view(out@).len() == k,
                forall|i: int| 0 <= i < k ==> stream_view(out@)[i] == (
                    pv + sv[i].0,
                    sv[i].1,
                ),
            decreases n - k,
        {
            let ghost hpre = h@;
            let (kpath, v) = h.remove(0);
            proof {
                assert(h@ =~= hpre.drop_first());
                assert(path_view(kpath) == sv[k as int].0 && v@ == sv[k as int].1);
            }
            let mut newpath = clone_values(&p);
            let mut tail = kpath;
            let ghost prefix = newpath@;
            let ghost tailv = tail@;
            newpath.append(&mut tail);
            proof {
                assert(newpath@ =~= prefix + tailv);
                lemma_values_view_concat(prefix, tailv);
            }
            let ghost pre = out@;
            out.push((newpath, v));
            proof {
                assert(out@.drop_last() =~= pre);
                lemma_stream_view(out@);
            }
            k = k + 1;
        }
        let r = HoconInternal { internal: out };
        proof {
            lemma_stream_view(r.internal@);
        }
        r
    }

    /// Each assignment's value marked as a `+=` append sharing one
    /// append identifier, its own path remembered below the array.
    pub fn mark_append(self, item_id: &str) -> (r: Self)
        ensures
            r@.len() == self@.len(),
            forall|i: int| 0 <= i < self@.len() ==> r@[i] == (
                self@[i].0,
                ValueV::ToConcatToArray {
                    value: Box::new(self@[i].1),
                    original_path: self@[i].0,
                    item_id: item_id@,
                },
            ),
    {
        let ghost sv = self@;
        proof {
            lemma_stream_view(self.internal@);
        }
        let mut out: Vec<(Path, HoconValue)> = Vec::new();
        let mut h = self.internal;
        let mut k: usize = 0;
        let n = h.len();
        while k < n
            invariant
                0 <= k <= n,
                h@.len() == n - k,
                sv.len() == n,
                forall|i: int| 0 <= i < h@.len() ==> sv[k + i] == (
                    path_view(h@[i].0),
                    crate::value::value_view(h@[i].1),
                ),
                stream_view(out@).len() == k,
                forall|i: int| 0 <= i < k ==> stream_view(out@)[i] == (
                    sv[i].0,
                    ValueV::ToConcatToArray {
                        value: Box::new(sv[i].1),
                        original_path: sv[i].0,
                        item_id: item_id@,
                    },
                ),
            decreases n - k,
        {
            let ghost hpre = h@;
            let (kpath, v) = h.remove(0);
            proof {
                assert(h@ =~= hpre.drop_first());
                assert(path_view(kpath) == sv[k as int].0 && v@ == sv[k as int].1);
            }
            let opath = clone_values(&kpath);
            let marked = HoconValue::ToConcatToArray {
                value: Box::new(v),
                original_path: opath,
                item_id: item_id.to_owned(),
            };
            let ghost pre = out@;
            out.push((kpath, marked));
            proof {
                assert(out@.drop_last() =~= pre);
                lemma_stream_view(out@);
            }
            k = k + 1;
        }
        let r = HoconInternal { internal: out };
        proof {
            lemma_stream_view(r.internal@);
        }
        r
    }

    /// The stream of a parsed `.properties` document: one assignment
    /// per pair, the key split at its dots.
    pub fn from_properties(properties: Vec<(String, String)>) -> (r: Self)
        ensures
            r@.len() == properties@.len(),
            forall|i: int| 0 <= i < properties@.len() ==> r@[i] == (
                split_dots_v(properties@[i].0@).map_values(|s: Seq<char>| ValueV::Str(s)),
                ValueV::Str(properties@[i].1@),
            ),
    {
        let mut out: Vec<(Path, HoconValue)> = Vec::new();
        let mut k: usize = 0;
        while k < properties.len()
            invariant
                0 <= k <= properties@.len(),
                stream_view(out@).len() == k,
                forall|i: int| 0 <= i < k ==> stream_view(out@)[i] == (
                    split_dots_v(properties@[i].0@).map_values(|s: Seq<char>| ValueV::Str(s)),
                    ValueV::Str(properties@[i].1@),
                ),
            decreases properties@.len() - k,
        {
            let parts = split_dots(properties[k].0.as_str());
            let ghost partsv = parts.deep_view();
            proof {
                lemma_vec_deep_view(&parts);
            }
            let mut kpath: Vec<HoconValue> = Vec::new();
            let mut j: usize = 0;
            while j < parts.len()
                invariant
                    0 <= j <= parts@.len(),
                    parts.deep_view() == partsv,
                    values_view(kpath@).len() == j,
                    forall|i: int| 0 <= i < j ==> values_view(kpath@)[i] == ValueV::Str(
                        partsv[i],
                    ),
                decreases parts@.len() - j,
            {
                proof {
                    lemma_vec_deep_view(&parts);
                }
                let piece = parts[j].clone();
                let ghost pre = kpath@;
                kpath.push(HoconValue::String(piece));
                proof {
                    assert(kpath@.drop_last() =~= pre);
                    lemma_values_view(kpath@);
                }
                j = j + 1;
            }
            let ghost pre = out@;
            out.push((kpath, HoconValue::String(properties[k].1.clone())));
            proof {
                assert(out@.drop_last() =~= pre);
                lemma_stream_view(out@);
                assert(values_view(out@.last().0@) =~= partsv.map_values(
                    |s: Seq<char>| ValueV::Str(s),
                ));
            }
            k = k + 1;
        }
        let r = HoconInternal { internal: out };
        proof {
            lemma_stream_view(r.internal@);
        }
        r
    }

    /// Every assignment wrapped as included content, its own path
    /// remembered; the inclusion point is filled in later, once the
    /// wrapped assignments' absolute paths are known.
    pub fn wrap_include(self) -> (r: Self)
        ensures
            r@.len() == self@.len(),
            forall|i: int| 0 <= i < self@.len() ==> r@[i] == (
                self@[i].0,
                ValueV::Included {
                    value: Box::new(self@[i].1),
                    include_root: None,
                    original_path: self@[i].0,
                },
            ),
    {
        let ghost sv = self@;
        proof {
            lemma_stream_view(self.internal@);
        }
        let mut out: Vec<(Path, HoconValue)> = Vec::new();
        let mut h = self.internal;
        let mut k: usize = 0;
        let n = h.len();
        while k < n
            invariant
                0 <= k <= n,
                h@.len() == n - k,
                sv.len() == n,
                forall|i: int| 0 <= i < h@.len() ==> sv[k + i] == (
                    path_view(h@[i].0),
                    crate::value::value_view(h@[i].1),
                ),
                stream_view(out@).len() == k,
                forall|i: int| 0 <= i < k ==> stream_view(out@)[i] == (
                    sv[i].0,
                    ValueV::Included {
                        value: Box::new(sv[i].1),
                        include_root: None,
                        original_path: sv[i].0,
                    },
                ),
            decreases n - k,
        {
            let ghost hpre = h@;
            let (kpath, v) = h.remove(0);
            proof {
                assert(h@ =~= hpre.drop_first());
                assert(path_view(kpath) == sv[k as int].0 && v@ == sv[k as int].1);
            }
            let opath = clone_values(&kpath);
            let wrapped = HoconValue::Included {
                value: Box::new(v),
                include_root: None,
                original_path: opath,
            };
            let ghost pre = out@;
            out.push((kpath, wrapped));
            proof {
                assert(out@.drop_last() =~= pre);
                lemma_stream_view(out@);
            }
            k = k + 1;
        }
        let r = HoconInternal { internal: out };
        proof {
            lemma_stream_view(r.internal@);
        }
        r
    }

    /// A one-assignment stream marking a failed or refused include
    /// at the directive's own key; in strict mode the error aborts
    /// instead.
    pub fn include_error(name: &str, e: Error, strict: bool) -> (r: Result<Self, Error>)
        ensures
            strict ==> (r matches Err(f) && f@ == e@),
            !strict ==> (r matches Ok(h) && h@ == seq![
                (
                    seq![ValueV::Str(name@)],
                    ValueV::BadValue(e@),
                ),
            ]),
    {
        if strict {
            Err(e)
        } else {
            let mut kpath: Vec<HoconValue> = Vec::new();
            kpath.push(HoconValue::String(name.to_owned()));
            let mut internal: Vec<(Path, HoconValue)> = Vec::new();
            internal.push((kpath, HoconValue::BadValue(e)));
            let r = HoconInternal { internal };
            proof {
                lemma_stream_view(r.internal@);
                lemma_values_view(r.internal@[0].0@);
                assert(path_view(r.internal@[0].0) =~= seq![ValueV::Str(name@)]);
                assert(r@ =~= seq![(seq![ValueV::Str(name@)], crate::value::value_view(
                    r.internal@[0].1,
                ))]);
            }
            Ok(r)
        }
    }

    /// Whether an include directive may proceed, and the refusal it
    /// yields when it may not: an include chain deeper than the
    /// configured maximum yields `TooManyIncludes` at the directive's
    /// key, an include in a document with no file context yields
    /// `IncludeNotAllowedFromStr`; in strict mode either refusal
    /// aborts instead.
    pub fn from_include_refused(
        included: &Include,
        include_depth: u8,
        max_include_depth: u8,
        has_file_context: bool,
        strict: bool,
    ) -> (r: Result<Option<Self>, Error>)
        ensures
            include_depth > max_include_depth ==> (if strict {
                r matches Err(f) && f@ == ErrorV::TooManyIncludes
            } else {
                r matches Ok(o) && o matches Some(h) && h@ == seq![
                    (
                        seq![ValueV::Str(included.included_v())],
                        ValueV::BadValue(ErrorV::TooManyIncludes),
                    ),
                ]
            }),
            include_depth <= max_include_depth && !has_file_context ==> (if strict {
                r matches Err(f) && f@ == ErrorV::IncludeNotAllowedFromStr
            } else {
                r matches Ok(o) && o matches Some(h) && h@ == seq![
                    (
                        seq![ValueV::Str(included.included_v())],
                        ValueV::BadValue(ErrorV::IncludeNotAllowedFromStr),
                    ),
                ]
            }),
            include_depth <= max_include_depth && has_file_context ==> (r matches Ok(o) && o
                is None),
    {
        if include_depth > max_include_depth {
            match Self::include_error(included.included(), Error::TooManyIncludes, strict) {
                Ok(h) => Ok(Some(h)),
                Err(e) => Err(e),
            }
        } else if !has_file_context {
            match Self::include_error(
                included.included(),
                Error::IncludeNotAllowedFromStr,
                strict,
            ) {
                Ok(h) => Ok(Some(h)),
                Err(e) => Err(e),
            }
        } else {
            Ok(None)
        }
    }

    /// An included document's stream spliced in before this one.
    pub fn add_include(self, included: HoconInternal) -> (r: Self)
        ensures
            r@ == included@ + self@,
    {
        included.add(self)
    }

    /// Folds the stream into a tree; see [`merge`].
    pub fn merge(&self, strict: bool) -> (r: Result<crate::merge::HoconIntermediate, Error>)
        ensures
            ({
                let sr = merge_v(self@, strict);
                match r {
                    Ok(t) => sr matches Ok(m) && t@ == m,
                    Err(e) => sr matches Err(f) && e@ == f,
                }
            }),
    {
        merge(&self.internal, strict)
    }
}

/// The models of a list of streams, element by element.
pub open spec fn internals_view(s: Seq<HoconInternal>) -> Seq<Seq<(Seq<ValueV>, ValueV)>>
    decreases s,
{
    if s.len() == 0 {
        Seq::empty()
    } else {
        internals_view(s.drop_last()).push(s.last()@)
    }
}

/// `internals_view` is the element-wise model of the list.
pub broadcast proof fn lemma_internals_view(s: Seq<HoconInternal>)
    ensures
        (#[trigger] internals_view(s)).len() == s.len(),
        forall|i: int| 0 <= i < s.len() ==> internals_view(s)[i] == s[i]@,
    decreases s,
{
    if s.len() > 0 {
        lemma_internals_view(s.drop_last());
    }
}

/// Whether an array literal starts with a bare substitution, which
/// extends the referenced array instead of starting at index zero;
/// its elements then sit in anonymous tagged slots.
pub open spec fn array_uses_tags_v(ss: Seq<Seq<(Seq<ValueV>, ValueV)>>) -> bool {
    ss.len() > 0 && ss[0].len() == 1 && ss[0][0].1 matches ValueV::PathSubstitutionInParent(_)
}

/// The key of the array slot at position `i`: an anonymous tagged
/// slot when the array extends a substitution, the literal index
/// otherwise.
pub open spec fn array_key_v(use_tags: bool, tag: Seq<char>, i: int) -> ValueV {
    if use_tags {
        ValueV::Null(tag + seq!['-'] + dec_str_nat(i))
    } else {
        ValueV::Integer(crate::merge::clamp_i64(i))
    }
}

/// One element's assignments moved under its array slot, inclusion
/// points marked.
pub open spec fn array_element_v(e: Seq<(Seq<ValueV>, ValueV)>, key: ValueV) -> Seq<
    (Seq<ValueV>, ValueV),
> {
    e.map_values(|p: (Seq<ValueV>, ValueV)| add_root_v(seq![key] + p.0, p.1))
}

/// The whole array literal's stream, element by element.
pub open spec fn from_array_items_v(
    ss: Seq<Seq<(Seq<ValueV>, ValueV)>>,
    use_tags: bool,
    tag: Seq<char>,
) -> Seq<(Seq<ValueV>, ValueV)>
    decreases ss,
{
    if ss.len() == 0 {
        Seq::empty()
    } else {
        from_array_items_v(ss.drop_last(), use_tags, tag) + array_element_v(
            ss.last(),
            array_key_v(use_tags, tag, ss.len() - 1),
        )
    }
}

/// Relies on `uuid::Uuid::new_v4`: a freshly drawn random
/// identifier, rendered in its hyphenated form. Nothing is promised
/// of the characters; the engine works whatever they are.
#[verifier::external_body]
fn fresh_id() -> String {
    uuid::Uuid::new_v4().hyphenated().to_string()
}

impl HoconInternal {
    /// The stream of an array literal: an empty array leaves a typed
    /// placeholder; otherwise every element's assignments move under
    /// the element's slot, counted slots normally, anonymous tagged
    /// slots when the array extends a substitution (the tag is drawn
    /// fresh, so distinct array literals never share slots).
    pub fn from_array(a: Vec<HoconInternal>) -> (r: Self)
        ensures
            a@.len() == 0 ==> r@ == seq![(Seq::<ValueV>::empty(), ValueV::EmptyArray)],
            a@.len() > 0 ==> exists|tag: Seq<char>|
                r@ == from_array_items_v(
                    internals_view(a@),
                    array_uses_tags_v(internals_view(a@)),
                    tag,
                ),
    {
        proof {
            lemma_internals_view(a@);
        }
        if a.len() == 0 {
            let mut internal: Vec<(Path, HoconValue)> = Vec::new();
            internal.push((Vec::new(), HoconValue::EmptyArray));
            let r = HoconInternal { internal };
            proof {
                lemma_stream_view(r.internal@);
                assert(path_view(r.internal@[0].0) =~= Seq::<ValueV>::empty());
                assert(r@ =~= seq![(Seq::<ValueV>::empty(), ValueV::EmptyArray)]);
            }
            return r;
        }
        let ghost ssv = internals_view(a@);
        let use_tags = if a[0].internal.len() == 1 {
            proof {
                lemma_stream_view(a@[0].internal@);
            }
            match &a[0].internal[0].1 {
                HoconValue::PathSubstitutionInParent(_) => true,
                _ => false,
            }
        } else {
            false
        };
        proof {
            lemma_stream_view(a@[0].internal@);
            assert(use_tags == array_uses_tags_v(ssv));
        }
        let prefix: String = if use_tags {
            fresh_id()
        } else {
            String::new()
        };
        let ghost tag = prefix@;
        let mut out: Vec<(Path, HoconValue)> = Vec::new();
        let mut i: usize = 0;
        while i < a.len()
            invariant
                0 <= i <= a@.len(),
                ssv == internals_view(a@),
                ssv.len() == a@.len(),
                forall|x: int| 0 <= x < a@.len() ==> ssv[x] == a@[x]@,
                tag == prefix@,
                stream_view(out@) == from_array_items_v(ssv.take(i as int), use_tags, tag),
            decreases a@.len() - i,
        {
            proof {
                lemma_internals_view(a@);
            }
            let key: HoconValue = if use_tags {
                let mut name = prefix.clone();
                name.append("-");
                let num = u64_to_string(i as u64);
                name.append(num.as_str());
                proof {
                    reveal_strlit("-");
                    assert(name@ =~= tag + seq!['-'] + dec_str_nat(i as int));
                }
                HoconValue::Null(name)
            } else {
                let idx: i64 = if (i as u64) <= (i64::MAX as u64) {
                    i as i64
                } else {
                    i64::MAX
                };
                HoconValue::Integer(idx)
            };
            proof {
                assert(key@ == array_key_v(use_tags, tag, i as int));
            }
            let ghost keyv = key@;
            let ghost ev = a@[i as int]@;
            let elem = a[i].clone();
            let mut src = elem.internal;
            let mut j: usize = 0;
            let n = src.len();
            proof {
                lemma_stream_view(src@);
                assert(stream_view(src@) == ev);
            }
            let ghost outbase = stream_view(out@);
            while j < n
                invariant
                    0 <= j <= n,
                    src@.len() == n - j,
                    ev.len() == n,
                    keyv == key@,
                    forall|x: int| 0 <= x < src@.len() ==> ev[j + x] == (
                        path_view(src@[x].0),
                        crate::value::value_view(src@[x].1),
                    ),
                    stream_view(out@).len() == outbase.len() + j,
                    forall|x: int| 0 <= x < outbase.len() ==> stream_view(out@)[x] == outbase[x],
                    forall|x: int| 0 <= x < j ==> stream_view(out@)[outbase.len() + x]
                        == add_root_v(seq![keyv] + ev[x].0, ev[x].1),
                decreases n - j,
            {
                let ghost spre = src@;
                let (p, v) = src.remove(0);
                proof {
                    assert(src@ =~= spre.drop_first());
                    assert(path_view(p) == ev[j as int].0 && v@ == ev[j as int].1);
                }
                let mut newpath: Vec<HoconValue> = Vec::new();
                newpath.push(clone_value(&key));
                let mut tailp = p;
                let ghost prefix2 = newpath@;
                let ghost tailv = tailp@;
                newpath.append(&mut tailp);
                proof {
                    assert(newpath@ =~= prefix2 + tailv);
                    lemma_values_view_concat(prefix2, tailv);
                    lemma_values_view(prefix2);
                    assert(values_view(prefix2) =~= seq![keyv]);
                }
                let entry = add_root_to_includes(newpath, v);
                let ghost pre = out@;
                out.push(entry);
                proof {
                    assert(out@.drop_last() =~= pre);
                    lemma_stream_view(out@);
                }
                j = j + 1;
            }
            proof {
                assert(ssv.take(i as int + 1).drop_last() =~= ssv.take(i as int));
                assert(array_element_v(ev, keyv).len() == ev.len());
                assert(stream_view(out@) =~= from_array_items_v(
                    ssv.take(i as int + 1),
                    use_tags,
                    tag,
                ));
            }
            i = i + 1;
        }
        proof {
            assert(ssv.take(a@.len() as int) =~= ssv);
        }
        let r = HoconInternal { internal: out };
        proof {
            lemma_stream_view(r.internal@);
            assert(r@ == from_array_items_v(ssv, use_tags, tag));
        }
        r
    }
}

/// Clones the environment pairs; the copy has the same model.
fn clone_env(env: &Vec<(String, String)>) -> (r: Vec<(String, String)>)
    ensures
        r.deep_view() == env.deep_view(),
{
    let mut r: Vec<(String, String)> = Vec::new();
    let mut k: usize = 0;
    proof {
        lemma_vec_deep_view(env);
    }
    while k < env.len()
        invariant
            0 <= k <= env@.len(),
            r.deep_view().len() == k,
            forall|i: int| 0 <= i < k ==> r.deep_view()[i] == (env@[i].0@, env@[i].1@),
        decreases env@.len() - k,
    {
        let pair = (env[k].0.clone(), env[k].1.clone());
        crate::strings::push_dv(&mut r, pair);
        k = k + 1;
    }
    proof {
        lemma_vec_deep_view(env);
        lemma_vec_deep_view(&r);
        assert(r.deep_view() =~= env.deep_view());
    }
    r
}

/// Loads HOCON documents: buffers the parsed assignment streams and
/// the resolution options, then resolves them all as one document.
#[derive(Debug)]
pub struct HoconLoader {
    /// Return the first error instead of embedding error markers.
    pub strict: bool,
    /// Try the environment pairs for unresolved substitutions.
    pub system: bool,
    /// Whether includes may fetch URLs.
    pub external_url: bool,
    /// How many includes deep this loader already is.
    pub include_depth: u8,
    /// The deepest include chain allowed.
    pub max_include_depth: u8,
    /// The environment pairs substitutions may fall back to.
    pub env: Vec<(String, String)>,
    /// The buffered assignments of all loaded documents.
    pub internal: HoconInternal,
}

impl Clone for HoconLoader {
    /// Clones the loader; options, environment and buffered
    /// assignments keep their models.
    fn clone(&self) -> (r: Self)
        ensures
            r.strict == self.strict,
            r.system == self.system,
            r.external_url == self.external_url,
            r.include_depth == self.include_depth,
            r.max_include_depth == self.max_include_depth,
            r.env.deep_view() == self.env.deep_view(),
            r.internal@ == self.internal@,
    {
        HoconLoader {
            strict: self.strict,
            system: self.system,
            external_url: self.external_url,
            include_depth: self.include_depth,
            max_include_depth: self.max_include_depth,
            env: clone_env(&self.env),
            internal: self.internal.clone(),
        }
    }
}

impl HoconLoader {
    /// A new loader with the default options: lenient, environment
    /// fallback on, URL includes allowed, include depth capped at
    /// ten, nothing loaded.
    pub fn new() -> (r: Self)
        ensures
            r.strict == false,
            r.system == true,
            r.external_url == true,
            r.include_depth == 0,
            r.max_include_depth == 10,
            r.env.deep_view() == Seq::<(Seq<char>, Seq<char>)>::empty(),
            r.internal@ == Seq::<(Seq<ValueV>, ValueV)>::empty(),
    {
        let r = HoconLoader {
            strict: false,
            system: true,
            external_url: true,
            include_depth: 0,
            max_include_depth: 10,
            env: Vec::new(),
            internal: HoconInternal::empty(),
        };
        proof {
            assert(r.env.deep_view() =~= Seq::<(Seq<char>, Seq<char>)>::empty());
        }
        r
    }

    /// The same loader with the environment fallback disabled.
    pub fn no_system(&self) -> (r: Self)
        ensures
            r.system == false,
            r.strict == self.strict,
            r.external_url == self.external_url,
            r.include_depth == self.include_depth,
            r.max_include_depth == self.max_include_depth,
            r.env.deep_view() == self.env.deep_view(),
            r.internal@ == self.internal@,
    {
        let mut r = self.clone();
        r.system = false;
        r
    }

    /// The same loader with URL includes disabled.
    pub fn no_url_include(&self) -> (r: Self)
        ensures
            r.external_url == false,
            r.strict == self.strict,
            r.system == self.system,
            r.include_depth == self.include_depth,
            r.max_include_depth == self.max_include_depth,
            r.env.deep_view() == self.env.deep_view(),
            r.internal@ == self.internal@,
    {
        let mut r = self.clone();
        r.external_url = false;
        r
    }

    /// The same loader in strict mode: the first resolution failure
    /// is returned instead of being embedded in the document.
    pub fn strict(&self) -> (r: Self)
        ensures
            r.strict == true,
            r.system == self.system,
            r.external_url == self.external_url,
            r.include_depth == self.include_depth,
            r.max_include_depth == self.max_include_depth,
            r.env.deep_view() == self.env.deep_view(),
            r.internal@ == self.internal@,
    {
        let mut r = self.clone();
        r.strict = true;
        r
    }

    /// The same loader with a new maximum include depth.
    pub fn max_include_depth(&self, new_max_depth: u8) -> (r: Self)
        ensures
            r.max_include_depth == new_max_depth,
            r.strict == self.strict,
            r.system == self.system,
            r.external_url == self.external_url,
            r.include_depth == self.include_depth,
            r.env.deep_view() == self.env.deep_view(),
            r.internal@ == self.internal@,
    {
        let mut r = self.clone();
        r.max_include_depth = new_max_depth;
        r
    }

    /// The same loader with the given environment pairs; unresolved
    /// substitutions fall back to them while the environment
    /// fallback is enabled.
    pub fn with_env(&self, env: Vec<(String, String)>) -> (r: Self)
        ensures
            r.env.deep_view() == env.deep_view(),
            r.strict == self.strict,
            r.system == self.system,
            r.external_url == self.external_url,
            r.include_depth == self.include_depth,
            r.max_include_depth == self.max_include_depth,
            r.internal@ == self.internal@,
    {
        let mut r = self.clone();
        r.env = env;
        r
    }

    /// The loader with one more parsed document's assignments
    /// buffered after the ones already loaded.
    pub fn load_parsed(self, doc: HoconInternal) -> (r: Self)
        ensures
            r.internal@ == self.internal@ + doc@,
            r.strict == self.strict,
            r.system == self.system,
            r.external_url == self.external_url,
            r.include_depth == self.include_depth,
            r.max_include_depth == self.max_include_depth,
            r.env.deep_view() == self.env.deep_view(),
    {
        let internal = self.internal.add(doc);
        HoconLoader {
            strict: self.strict,
            system: self.system,
            external_url: self.external_url,
            include_depth: self.include_depth,
            max_include_depth: self.max_include_depth,
            env: self.env,
            internal,
        }
    }

    /// Resolves everything loaded into one document value: the
    /// stream is merged in document order and the tree finalized,
    /// under this loader's strict mode and environment fallback.
    /// Returns exactly the merge and finalize models composed; in
    /// lenient mode failures come back as embedded
    /// [`Hocon::BadValue`] leaves instead of errors.
    pub fn hocon(&self) -> (r: Result<Hocon, Error>)
        ensures
            ({
                let m = merge_v(self.internal@, self.strict);
                match m {
                    Err(e) => r matches Err(f) && f@ == e,
                    Ok(tree) => {
                        let f = finalize_v(tree, self.strict, self.system, self.env.deep_view());
                        match r {
                            Ok(h) => f matches Ok(m2) && h@ == m2,
                            Err(e2) => f matches Err(g) && e2@ == g,
                        }
                    },
                }
            }),
    {
        match self.internal.merge(self.strict) {
            Err(e) => Err(e),
            Ok(tree) => tree.finalize(self.strict, self.system, &self.env),
        }
    }
}

impl Default for HoconLoader {
    /// The default loader is [`HoconLoader::new`].
    fn default() -> (r: Self)
        ensures
            r.strict == false && r.system == true && r.external_url == true,
            r.include_depth == 0 && r.max_include_depth == 10,
            r.env.deep_view() == Seq::<(Seq<char>, Seq<char>)>::empty(),
            r.internal@ == Seq::<(Seq<ValueV>, ValueV)>::empty(),
    {
        HoconLoader::new()
    }
}

#[verifier::external_type_specification]
#[verifier::external_body]
/// The error `java_properties` reports for a malformed document.
pub struct ExPropertiesError(java_properties::PropertiesError);

/// The key-to-value map a `.properties` document parses to, or
/// nothing when the document is malformed. Whether the parse
/// succeeds, and which value each key ends up with (a later
/// duplicate key overwrites an earlier one), depend on the text
/// alone; only the order the pairs are handed out in follows a hash
/// map's iteration.
pub uninterp spec fn properties_of(s: Seq<char>) -> Option<Map<Seq<char>, Seq<char>>>;

/// Whether `pairs` lays the map `m` out as a list: every pair is a
/// binding of `m`, every key of `m` occurs, and no key twice.
pub open spec fn pairs_of_map(
    pairs: Seq<(Seq<char>, Seq<char>)>,
    m: Map<Seq<char>, Seq<char>>,
) -> bool {
    &&& forall|i: int| 0 <= i < pairs.len() ==> m.contains_key((#[trigger] pairs[i]).0)
        && m[pairs[i].0] == pairs[i].1
    &&& forall|k: Seq<char>| #[trigger] m.contains_key(k) ==> exists|i: int|
        0 <= i < pairs.len() && (#[trigger] pairs[i]).0 == k
    &&& forall|i: int, j: int| 0 <= i < j < pairs.len() ==> (#[trigger] pairs[i]).0 != (
    #[trigger] pairs[j]).0
}

/// Relies on `java_properties::read`: parses a `.properties`
/// document into its key/value pairs, succeeding and binding each
/// key exactly as [`properties_of`] says of the text; the pair
/// order follows a hash map's iteration and is not promised.
#[verifier::external_body]
fn read_properties(s: &str) -> (r: Result<
    Vec<(String, String)>,
    java_properties::PropertiesError,
>)
    ensures
        (r is Ok) == (properties_of(s@) is Some),
        r matches Ok(pairs) ==> pairs_of_map(pairs.deep_view(), properties_of(s@)->0),
{
    java_properties::read(s.as_bytes()).map(|m| m.into_iter().collect())
}

/// Whether stream `h` is the assignment stream of the key/value
/// `pairs`: one assignment per pair, the key split at its dots.
pub open spec fn models_properties(
    h: Seq<(Seq<ValueV>, ValueV)>,
    pairs: Seq<(Seq<char>, Seq<char>)>,
) -> bool {
    &&& h.len() == pairs.len()
    &&& forall|i: int| 0 <= i < pairs.len() ==> h[i] == (
        split_dots_v((#[trigger] pairs[i]).0).map_values(|p: Seq<char>| ValueV::Str(p)),
        ValueV::Str(pairs[i].1),
    )
}

/// Parses a `.properties` document into an assignment stream: one
/// assignment per parsed pair, the key split at its dots, succeeding
/// exactly when the text parses and carrying exactly the parsed
/// bindings in some order; a malformed document is a parse error.
pub fn from_properties_str(s: &str) -> (r: Result<HoconInternal, Error>)
    ensures
        (r is Ok) == (properties_of(s@) is Some),
        r matches Ok(h) ==> exists|pairs: Seq<(Seq<char>, Seq<char>)>|
            models_properties(h@, pairs) && pairs_of_map(pairs, properties_of(s@)->0),
        r matches Err(e) ==> e@ == ErrorV::Parse,
{
    match read_properties(s) {
        Ok(pairs) => {
            proof {
                lemma_vec_deep_view(&pairs);
            }
            let ghost pv = pairs.deep_view();
            let h = HoconInternal::from_properties(pairs);
            proof {
                assert(models_properties(h@, pv));
            }
            let r: Result<HoconInternal, Error> = Ok(h);
            proof {
                assert(r matches Ok(hh) && models_properties(hh@, pv) && pairs_of_map(
                    pv,
                    properties_of(s@)->0,
                ));
            }
            r
        },
        Err(_) => {
            let e = Error::Parse;
            proof {
                assert(e@ == ErrorV::Parse);
            }
            Err(e)
        },
    }
}

} // verus!
