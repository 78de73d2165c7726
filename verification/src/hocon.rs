//! The public, fully resolved value tree a client reads.

use vstd::prelude::*;

use crate::error::{Error, ErrorV};
use crate::strings::{
    i64_str_v, i64_to_string, parse_i64, parse_i64_v, parse_usize, parse_usize_v, str_eq,
};

verus! {

/// Mathematical model of a [`Hocon`] value.
pub enum HoconV {
    /// Model of [`Hocon::Real`].
    Real(Seq<char>),
    /// Model of [`Hocon::Integer`].
    Integer(i64),
    /// Model of [`Hocon::String`].
    Str(Seq<char>),
    /// Model of [`Hocon::Boolean`].
    Boolean(bool),
    /// Model of [`Hocon::Array`].
    Array(Seq<HoconV>),
    /// Model of [`Hocon::Hash`].
    Hash(Seq<(Seq<char>, HoconV)>),
    /// Model of [`Hocon::Null`].
    Null,
    /// Model of [`Hocon::BadValue`].
    BadValue(ErrorV),
}

/// A finalized HOCON document value: acyclic, immutable, with every
/// resolution failure embedded as a [`Hocon::BadValue`] leaf when the
/// document was loaded leniently.
#[derive(Debug, PartialEq)]
pub enum Hocon {
    /// A floating-point value, carried as its canonical decimal
    /// rendering (what `f64::to_string` returns for it).
    Real(String),
    /// An integer value.
    Integer(i64),
    /// A string value.
    String(String),
    /// A boolean value.
    Boolean(bool),
    /// An array of values.
    Array(Vec<Hocon>),
    /// An object: keyed values in document order, keys unique.
    Hash(Vec<(String, Hocon)>),
    /// A null value.
    Null,
    /// A marker for an error in resolution or a missing value.
    BadValue(Error),
}

/// The model of a finalized value.
pub open spec fn hocon_view(h: Hocon) -> HoconV
    decreases h,
{
    match h {
        Hocon::Real(s) => HoconV::Real(s@),
        Hocon::Integer(i) => HoconV::Integer(i),
        Hocon::String(s) => HoconV::Str(s@),
        Hocon::Boolean(b) => HoconV::Boolean(b),
        Hocon::Array(items) => HoconV::Array(hocons_view(items@)),
        Hocon::Hash(entries) => HoconV::Hash(entries_view(entries@)),
        Hocon::Null => HoconV::Null,
        Hocon::BadValue(e) => HoconV::BadValue(e@),
    }
}

/// The models of an array's elements, element by element.
pub open spec fn hocons_view(s: Seq<Hocon>) -> Seq<HoconV>
    decreases s,
{
    if s.len() == 0 {
        Seq::empty()
    } else {
        hocons_view(s.drop_last()).push(hocon_view(s.last()))
    }
}

/// The models of an object's entries, entry by entry.
pub open spec fn entries_view(s: Seq<(String, Hocon)>) -> Seq<(Seq<char>, HoconV)>
    decreases s,
{
    if s.len() == 0 {
        Seq::empty()
    } else {
        entries_view(s.drop_last()).push((s.last().0@, hocon_view(s.last().1)))
    }
}

impl View for Hocon {
    type V = HoconV;

    open spec fn view(&self) -> HoconV {
        hocon_view(*self)
    }
}

/// `hocons_view` is the element-wise model of the array.
pub broadcast proof fn lemma_hocons_view(s: Seq<Hocon>)
    ensures
        (#[trigger] hocons_view(s)).len() == s.len(),
        forall|i: int| 0 <= i < s.len() ==> hocons_view(s)[i] == hocon_view(s[i]),
    decreases s,
{
    if s.len() > 0 {
        lemma_hocons_view(s.drop_last());
    }
}

/// `entries_view` is the entry-wise model of the object.
pub broadcast proof fn lemma_entries_view(s: Seq<(String, Hocon)>)
    ensures
        (#[trigger] entries_view(s)).len() == s.len(),
        forall|i: int| 0 <= i < s.len() ==> entries_view(s)[i] == (
            s[i].0@,
            hocon_view(s[i].1),
        ),
    decreases s,
{
    if s.len() > 0 {
        lemma_entries_view(s.drop_last());
    }
}

/// Clones a finalized value; the copy has the same model.
#[verifier::loop_isolation(false)]
pub fn clone_hocon(h: &Hocon) -> (r: Hocon)
    ensures
        r@ == h@,
    decreases h,
{
    match h {
        Hocon::Real(s) => Hocon::Real(s.clone()),
        Hocon::Integer(i) => Hocon::Integer(*i),
        Hocon::String(s) => Hocon::String(s.clone()),
        Hocon::Boolean(b) => Hocon::Boolean(*b),
        Hocon::Null => Hocon::Null,
        Hocon::BadValue(e) => Hocon::BadValue(e.clone()),
        Hocon::Array(items) => {
            let mut out: Vec<Hocon> = Vec::new();
            let mut k: usize = 0;
            while k < items.len()
                invariant
                    0 <= k <= items@.len(),
                    hocons_view(out@).len() == k,
                    forall|i: int| 0 <= i < k ==> hocons_view(out@)[i] == hocons_view(
                        items@,
                    )[i],
                decreases items@.len() - k,
            {
                proof {
                    lemma_hocons_view(items@);
                    assert(decreases_to!(*h => h->Array_0));
                    assert(decreases_to!(h->Array_0 => h->Array_0[k as int]));
                }
                let c = clone_hocon(&items[k]);
                let ghost pre = out@;
                out.push(c);
                proof {
                    assert(out@.drop_last() =~= pre);
                    lemma_hocons_view(out@);
                }
                k = k + 1;
            }
            proof {
                lemma_hocons_view(items@);
                assert(hocons_view(out@) =~= hocons_view(items@));
            }
            Hocon::Array(out)
        },
        Hocon::Hash(entries) => {
            let mut out: Vec<(String, Hocon)> = Vec::new();
            let mut k: usize = 0;
            while k < entries.len()
                invariant
                    0 <= k <= entries@.len(),
                    entries_view(out@).len() == k,
                    forall|i: int| 0 <= i < k ==> entries_view(out@)[i] == entries_view(
                        entries@,
                    )[i],
                decreases entries@.len() - k,
            {
                proof {
                    lemma_entries_view(entries@);
                    assert(decreases_to!(*h => h->Hash_0));
                    assert(decreases_to!(h->Hash_0 => h->Hash_0[k as int]));
                }
                let key = entries[k].0.clone();
                let val = clone_hocon(&entries[k].1);
                let ghost pre = out@;
                out.push((key, val));
                proof {
                    assert(out@.drop_last() =~= pre);
                    lemma_entries_view(out@);
                }
                k = k + 1;
            }
            proof {
                lemma_entries_view(entries@);
                assert(entries_view(out@) =~= entries_view(entries@));
            }
            Hocon::Hash(out)
        },
    }
}

impl Clone for Hocon {
    /// Clones the value; the copy has the same model.
    fn clone(&self) -> (r: Self)
        ensures
            r@ == self@,
    {
        clone_hocon(self)
    }
}

/// What a value renders as inside a string concatenation: scalars
/// render canonically, `null` included; containers and error markers
/// do not render.
pub open spec fn internal_string_v(h: HoconV) -> Option<Seq<char>> {
    match h {
        HoconV::Str(s) => Some(s),
        HoconV::Boolean(b) => if b {
            Some(seq!['t', 'r', 'u', 'e'])
        } else {
            Some(seq!['f', 'a', 'l', 's', 'e'])
        },
        HoconV::Integer(i) => Some(i64_str_v(i as int)),
        HoconV::Real(s) => Some(s),
        HoconV::Null => Some(seq!['n', 'u', 'l', 'l']),
        _ => None,
    }
}

/// What [`Hocon::as_string`] returns: like the concatenation
/// rendering, but `null` and non-scalars give nothing.
pub open spec fn as_string_v(h: HoconV) -> Option<Seq<char>> {
    match h {
        HoconV::Str(s) => Some(s),
        HoconV::Boolean(b) => if b {
            Some(seq!['t', 'r', 'u', 'e'])
        } else {
            Some(seq!['f', 'a', 'l', 's', 'e'])
        },
        HoconV::Integer(i) => Some(i64_str_v(i as int)),
        HoconV::Real(s) => Some(s),
        _ => None,
    }
}

/// What [`Hocon::as_i64`] returns: an integer itself, or a string
/// that parses as one.
pub open spec fn as_i64_v(h: HoconV) -> Option<i64> {
    match h {
        HoconV::Integer(i) => Some(i),
        HoconV::Str(s) => parse_i64_v(s),
        _ => None,
    }
}

/// What [`Hocon::as_bool`] returns: a boolean itself, or one of the
/// words `yes`/`true`/`on` and `no`/`false`/`off`.
pub open spec fn as_bool_v(h: HoconV) -> Option<bool> {
    match h {
        HoconV::Boolean(b) => Some(b),
        HoconV::Str(s) => if s == "yes"@ || s == "true"@ || s == "on"@ {
            Some(true)
        } else if s == "no"@ || s == "false"@ || s == "off"@ {
            Some(false)
        } else {
            None
        },
        _ => None,
    }
}

/// The first entry of `entries` keyed `k`, if any.
pub open spec fn entry_find_v(entries: Seq<(Seq<char>, HoconV)>, k: Seq<char>) -> Option<HoconV>
    decreases entries,
{
    if entries.len() == 0 {
        None
    } else if entries[0].0 == k {
        Some(entries[0].1)
    } else {
        entry_find_v(entries.drop_first(), k)
    }
}

impl Hocon {
    fn render_bool(b: bool) -> (r: String)
        ensures
            b ==> r@ == seq!['t', 'r', 'u', 'e'],
            !b ==> r@ == seq!['f', 'a', 'l', 's', 'e'],
    {
        if b {
            let r = "true".to_owned();
            proof {
                reveal_strlit("true");
                assert(r@ =~= seq!['t', 'r', 'u', 'e']);
            }
            r
        } else {
            let r = "false".to_owned();
            proof {
                reveal_strlit("false");
                assert(r@ =~= seq!['f', 'a', 'l', 's', 'e']);
            }
            r
        }
    }

    /// Renders the value for a concatenation; see
    /// [`internal_string_v`].
    pub fn as_internal_string(&self) -> (r: Option<String>)
        ensures
            ({
                let sr = internal_string_v(self@);
                match r {
                    Some(s) => sr matches Some(m) && s@ == m,
                    None => sr is None,
                }
            }),
    {
        match self {
            Hocon::String(s) => Some(s.clone()),
            Hocon::Boolean(b) => Some(Self::render_bool(*b)),
            Hocon::Integer(i) => Some(i64_to_string(*i)),
            Hocon::Real(s) => Some(s.clone()),
            Hocon::Null => {
                let r = "null".to_owned();
                proof {
                    reveal_strlit("null");
                    assert(r@ =~= seq!['n', 'u', 'l', 'l']);
                }
                Some(r)
            },
            _ => None,
        }
    }

    /// Casts the value to a string; see [`as_string_v`].
    pub fn as_string(&self) -> (r: Option<String>)
        ensures
            ({
                let sr = as_string_v(self@);
                match r {
                    Some(s) => sr matches Some(m) && s@ == m,
                    None => sr is None,
                }
            }),
    {
        match self {
            Hocon::String(s) => Some(s.clone()),
            Hocon::Boolean(b) => Some(Self::render_bool(*b)),
            Hocon::Integer(i) => Some(i64_to_string(*i)),
            Hocon::Real(s) => Some(s.clone()),
            _ => None,
        }
    }

    /// Casts the value to an integer; see [`as_i64_v`].
    pub fn as_i64(&self) -> (r: Option<i64>)
        ensures
            r == as_i64_v(self@),
    {
        match self {
            Hocon::Integer(i) => Some(*i),
            Hocon::String(s) => parse_i64(s.as_str()),
            _ => None,
        }
    }

    /// Casts the value to a boolean; see [`as_bool_v`].
    pub fn as_bool(&self) -> (r: Option<bool>)
        ensures
            r == as_bool_v(self@),
    {
        match self {
            Hocon::Boolean(b) => Some(*b),
            Hocon::String(s) => {
                if str_eq(s.as_str(), "yes") || str_eq(s.as_str(), "true") || str_eq(
                    s.as_str(),
                    "on",
                ) {
                    Some(true)
                } else if str_eq(s.as_str(), "no") || str_eq(s.as_str(), "false") || str_eq(
                    s.as_str(),
                    "off",
                ) {
                    Some(false)
                } else {
                    None
                }
            },
            _ => None,
        }
    }

    /// What indexing with a string returns: the value under that key
    /// of an object, a missing-key marker when the key is absent, and
    /// an invalid-key marker on anything that is not an object.
    pub open spec fn get_key_v(&self, k: Seq<char>) -> HoconV {
        match self@ {
            HoconV::Hash(entries) => match entry_find_v(entries, k) {
                Some(v) => v,
                None => HoconV::BadValue(ErrorV::MissingKey),
            },
            _ => HoconV::BadValue(ErrorV::InvalidKey),
        }
    }

    /// Indexes the value with a string key; see [`get_key_v`].
    #[verifier::loop_isolation(false)]
    pub fn get_key(&self, k: &str) -> (r: Hocon)
        ensures
            r@ == self.get_key_v(k@),
    {
        match self {
            Hocon::Hash(entries) => {
                let ghost ev = entries_view(entries@);
                proof {
                    lemma_entries_view(entries@);
                    assert(ev.skip(0) =~= ev);
                }
                let mut j: usize = 0;
                while j < entries.len()
                    invariant
                        0 <= j <= entries@.len(),
                        ev == entries_view(entries@),
                        ev.len() == entries@.len(),
                        forall|i: int| 0 <= i < entries@.len() ==> ev[i] == (
                            entries@[i].0@,
                            hocon_view(entries@[i].1),
                        ),
                        entry_find_v(ev, k@) == entry_find_v(ev.skip(j as int), k@),
                    decreases entries@.len() - j,
                {
                    proof {
                        assert(ev.skip(j as int)[0] == ev[j as int]);
                        assert(ev.skip(j as int).drop_first() =~= ev.skip(j as int + 1));
                    }
                    if str_eq(entries[j].0.as_str(), k) {
                        return clone_hocon(&entries[j].1);
                    }
                    j = j + 1;
                }
                proof {
                    assert(ev.skip(entries@.len() as int).len() == 0);
                }
                Hocon::BadValue(Error::MissingKey)
            },
            _ => Hocon::BadValue(Error::InvalidKey),
        }
    }

    /// What indexing an array with a position returns: the element,
    /// or a missing-key marker past the end.
    pub open spec fn get_index_v(&self, idx: int) -> HoconV {
        match self@ {
            HoconV::Array(items) => if 0 <= idx < items.len() {
                items[idx]
            } else {
                HoconV::BadValue(ErrorV::MissingKey)
            },
            _ => HoconV::BadValue(ErrorV::InvalidKey),
        }
    }

    /// Indexes the value with a position; see [`get_index_v`]. An
    /// object whose keys are numbers can be read as an array through
    /// [`Hocon::get_at`]; this accessor takes arrays only.
    pub fn get_index(&self, idx: usize) -> (r: Hocon)
        ensures
            r@ == self.get_index_v(idx as int),
    {
        match self {
            Hocon::Array(items) => {
                proof {
                    lemma_hocons_view(items@);
                }
                if idx < items.len() {
                    clone_hocon(&items[idx])
                } else {
                    Hocon::BadValue(Error::MissingKey)
                }
            },
            _ => Hocon::BadValue(Error::InvalidKey),
        }
    }

    /// What indexing with a position returns: an array's element, or
    /// for an object the value of its `idx`-th key in increasing
    /// numeric key order (ties by document order), reading an object
    /// whose keys are numbers as an array.
    pub open spec fn get_at_v(&self, idx: int) -> HoconV {
        match self@ {
            HoconV::Array(items) => if 0 <= idx < items.len() {
                items[idx]
            } else {
                HoconV::BadValue(ErrorV::MissingKey)
            },
            HoconV::Hash(entries) => match nth_numeric_v(entries, idx) {
                Some(pick) => if 0 <= pick.1 < entries.len() {
                    entries[pick.1].1
                } else {
                    HoconV::BadValue(ErrorV::InvalidKey)
                },
                None => HoconV::BadValue(ErrorV::InvalidKey),
            },
            _ => HoconV::BadValue(ErrorV::InvalidKey),
        }
    }

    /// Indexes the value with a position, an object keyed by numbers
    /// read as an array; see [`get_at_v`].
    #[verifier::loop_isolation(false)]
    pub fn get_at(&self, idx: usize) -> (r: Hocon)
        ensures
            r@ == self.get_at_v(idx as int),
    {
        match self {
            Hocon::Array(items) => {
                proof {
                    lemma_hocons_view(items@);
                }
                if idx < items.len() {
                    clone_hocon(&items[idx])
                } else {
                    Hocon::BadValue(Error::MissingKey)
                }
            },
            Hocon::Hash(entries) => {
                let ghost ev = entries_view(entries@);
                proof {
                    lemma_entries_view(entries@);
                }
                let none_pick: Option<(usize, usize)> = None;
                let first = Self::best_numeric_after(entries, &none_pick);
                let mut cur: (usize, usize) = match first {
                    None => {
                        proof {
                            lemma_nth_none_persists(ev, 0, idx as int);
                        }
                        return Hocon::BadValue(Error::InvalidKey);
                    },
                    Some(b) => b,
                };
                let mut r: usize = 0;
                while r < idx
                    invariant
                        r <= idx,
                        ev == entries_view(entries@),
                        nth_numeric_v(ev, r as int) == Some((cur.0 as int, cur.1 as int)),
                        cur.1 < entries@.len(),
                    decreases idx - r,
                {
                    let prev = Some(cur);
                    let nxt = Self::best_numeric_after(entries, &prev);
                    match nxt {
                        None => {
                            proof {
                                lemma_nth_none_persists(ev, r as int + 1, idx as int);
                            }
                            return Hocon::BadValue(Error::InvalidKey);
                        },
                        Some(b) => {
                            cur = b;
                        },
                    }
                    r = r + 1;
                }
                clone_hocon(&entries[cur.1].1)
            },
            _ => Hocon::BadValue(Error::InvalidKey),
        }
    }

    /// Scans for the smallest numeric key strictly after `prev` in
    /// (number, position) order; see [`best_after_v`].
    #[verifier::loop_isolation(false)]
    fn best_numeric_after(entries: &Vec<(String, Hocon)>, prev: &Option<(usize, usize)>) -> (r:
        Option<(usize, usize)>)
        ensures
            ({
                let sr = best_after_v(
                    entries_view(entries@),
                    entries@.len() as int,
                    pick_view(*prev),
                );
                match r {
                    Some(b) => sr == Some((b.0 as int, b.1 as int)) && b.1 < entries@.len(),
                    None => sr is None,
                }
            }),
    {
        let ghost ev = entries_view(entries@);
        proof {
            lemma_entries_view(entries@);
        }
        let mut best: Option<(usize, usize)> = None;
        let mut j: usize = 0;
        while j < entries.len()
            invariant
                0 <= j <= entries@.len(),
                ev == entries_view(entries@),
                best_after_v(ev, j as int, pick_view(*prev)) == pick_view(best),
                best matches Some(b) ==> b.1 < entries@.len(),
            decreases entries@.len() - j,
        {
            proof {
                lemma_entries_view(entries@);
            }
            let cand: Option<(usize, usize)> = match crate::strings::parse_usize(
                entries[j].0.as_str(),
            ) {
                Some(num) => {
                    let after_prev = match prev {
                        None => true,
                        Some(p) => num > p.0 || (num == p.0 && j > p.1),
                    };
                    if after_prev {
                        Some((num, j))
                    } else {
                        None
                    }
                },
                None => None,
            };
            let better = match (&best, &cand) {
                (_, None) => false,
                (None, Some(_)) => true,
                (Some(b), Some(c)) => c.0 < b.0 || (c.0 == b.0 && c.1 < b.1),
            };
            if better {
                best = cand;
            }
            j = j + 1;
        }
        best
    }
}

/// The model of one picked (number, position) pair.
pub open spec fn pick_view(o: Option<(usize, usize)>) -> Option<(int, int)> {
    match o {
        Some(c) => Some((c.0 as int, c.1 as int)),
        None => None,
    }
}

/// Whether `c` comes strictly after `prev` in (number, position)
/// order.
pub open spec fn lex_after(c: (int, int), prev: Option<(int, int)>) -> bool {
    match prev {
        None => true,
        Some(p) => c.0 > p.0 || (c.0 == p.0 && c.1 > p.1),
    }
}

/// The smaller of two optional picks in (number, position) order.
pub open spec fn lex_min_opt(a: Option<(int, int)>, b: Option<(int, int)>) -> Option<(int, int)> {
    match (a, b) {
        (None, x) => x,
        (x, None) => x,
        (Some(x), Some(y)) => if y.0 < x.0 || (y.0 == x.0 && y.1 < x.1) {
            Some(y)
        } else {
            Some(x)
        },
    }
}

/// The smallest (number, position) pick strictly after `prev` among
/// the first `n` entries whose keys parse as positions.
pub open spec fn best_after_v(
    entries: Seq<(Seq<char>, HoconV)>,
    n: int,
    prev: Option<(int, int)>,
) -> Option<(int, int)>
    decreases n,
{
    if n <= 0 {
        None
    } else {
        let rest = best_after_v(entries, n - 1, prev);
        let cand: Option<(int, int)> = match parse_usize_v(entries[n - 1].0) {
            Some(num) => if lex_after((num as int, n - 1), prev) {
                Some((num as int, n - 1))
            } else {
                None
            },
            None => None,
        };
        lex_min_opt(rest, cand)
    }
}

/// The `idx`-th pick of the numeric keys in increasing (number,
/// position) order: the stable numeric ordering of an object read as
/// an array.
pub open spec fn nth_numeric_v(entries: Seq<(Seq<char>, HoconV)>, idx: int) -> Option<(int, int)>
    decreases idx,
{
    if idx <= 0 {
        best_after_v(entries, entries.len() as int, None)
    } else {
        match nth_numeric_v(entries, idx - 1) {
            None => None,
            Some(p) => best_after_v(entries, entries.len() as int, Some(p)),
        }
    }
}

/// Once the picks run out, every later position is out too.
proof fn lemma_nth_none_persists(entries: Seq<(Seq<char>, HoconV)>, i: int, j: int)
    requires
        0 <= i <= j,
        nth_numeric_v(entries, i) is None,
    ensures
        nth_numeric_v(entries, j) is None,
    decreases j - i,
{
    if i < j {
        lemma_nth_none_persists(entries, i + 1, j);
    }
}

} // verus!
