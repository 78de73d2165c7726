//! Character-level string operations the resolution engine needs,
//! each with an exact specification over `Seq<char>`.

use vstd::prelude::*;

verus! {

/// The deep view of a vector is the sequence of its elements' deep
/// views, element by element.
pub proof fn lemma_vec_deep_view<T: DeepView>(v: &Vec<T>)
    ensures
        v.deep_view().len() == v@.len(),
        forall|i: int| 0 <= i < v@.len() ==> #[trigger] v.deep_view()[i] == v@[i].deep_view(),
{
}

/// Pushes an element, stated over the vector's deep view.
pub fn push_dv<T: DeepView>(v: &mut Vec<T>, x: T)
    ensures
        final(v).deep_view() == old(v).deep_view().push(x.deep_view()),
{
    let ghost oldseq: Seq<T> = v@;
    v.push(x);
    proof {
        assert forall|i: int| 0 <= i < v@.len() implies #[trigger] v.deep_view()[i]
            == oldseq.push(x).index(i).deep_view() by {
        }
        assert(v.deep_view() =~= Seq::new(oldseq.len(), |i: int| oldseq[i].deep_view()).push(
            x.deep_view(),
        ));
    }
}

/// Whether `c` has the Unicode `White_Space` property, the set of
/// characters that string trimming removes.
pub open spec fn is_space_char(c: char) -> bool {
    c == '\u{0009}' || c == '\u{000A}' || c == '\u{000B}' || c == '\u{000C}' || c == '\u{000D}'
        || c == '\u{0020}' || c == '\u{0085}' || c == '\u{00A0}' || c == '\u{1680}'
        || ('\u{2000}' <= c && c <= '\u{200A}') || c == '\u{2028}' || c == '\u{2029}'
        || c == '\u{202F}' || c == '\u{205F}' || c == '\u{3000}'
}

/// Decides [`is_space_char`].
pub fn char_is_space(c: char) -> (r: bool)
    ensures
        r == is_space_char(c),
{
    c == '\u{0009}' || c == '\u{000A}' || c == '\u{000B}' || c == '\u{000C}' || c == '\u{000D}'
        || c == '\u{0020}' || c == '\u{0085}' || c == '\u{00A0}' || c == '\u{1680}'
        || ('\u{2000}' <= c && c <= '\u{200A}') || c == '\u{2028}' || c == '\u{2029}'
        || c == '\u{202F}' || c == '\u{205F}' || c == '\u{3000}'
}

/// `s` without its leading white space.
pub open spec fn trim_start_v(s: Seq<char>) -> Seq<char>
    decreases s.len(),
{
    if s.len() > 0 && is_space_char(s[0]) {
        trim_start_v(s.drop_first())
    } else {
        s
    }
}

/// `s` without its trailing white space.
pub open spec fn trim_end_v(s: Seq<char>) -> Seq<char>
    decreases s.len(),
{
    if s.len() > 0 && is_space_char(s[s.len() - 1]) {
        trim_end_v(s.drop_last())
    } else {
        s
    }
}

/// `s` without leading and trailing white space: what `str::trim`
/// returns.
pub open spec fn trim_v(s: Seq<char>) -> Seq<char> {
    trim_end_v(trim_start_v(s))
}

/// Whether `s` is made of white space alone.
pub open spec fn all_space(s: Seq<char>) -> bool {
    forall|i: int| 0 <= i < s.len() ==> is_space_char(s[i])
}

proof fn lemma_trim_start_skip(s: Seq<char>, i: int)
    requires
        0 <= i <= s.len(),
        forall|j: int| 0 <= j < i ==> is_space_char(s[j]),
    ensures
        trim_start_v(s) == trim_start_v(s.skip(i)),
    decreases i,
{
    if i > 0 {
        assert(trim_start_v(s) == trim_start_v(s.drop_first()));
        assert(s.drop_first().skip(i - 1) =~= s.skip(i));
        lemma_trim_start_skip(s.drop_first(), i - 1);
    } else {
        assert(s.skip(0) =~= s);
    }
}

proof fn lemma_trim_end_take(s: Seq<char>, i: int)
    requires
        0 <= i <= s.len(),
        forall|j: int| i <= j < s.len() ==> is_space_char(s[j]),
    ensures
        trim_end_v(s) == trim_end_v(s.take(i)),
    decreases s.len() - i,
{
    if i < s.len() {
        assert(trim_end_v(s) == trim_end_v(s.drop_last()));
        assert(s.drop_last().take(i) =~= s.take(i));
        lemma_trim_end_take(s.drop_last(), i);
    } else {
        assert(s.take(i) =~= s);
    }
}

/// Removes leading white space; what `str::trim_start` returns.
pub fn trim_start(s: &str) -> (r: String)
    ensures
        r@ == trim_start_v(s@),
{
    let n: usize = s.unicode_len();
    let mut i: usize = 0;
    while i < n && char_is_space(s.get_char(i))
        invariant
            0 <= i <= n,
            n == s@.len(),
            forall|j: int| 0 <= j < i ==> is_space_char(s@[j]),
        decreases n - i,
    {
        i = i + 1;
    }
    proof {
        lemma_trim_start_skip(s@, i as int);
        if i < n {
            assert(s@.skip(i as int)[0] == s@[i as int]);
            assert(trim_start_v(s@.skip(i as int)) == s@.skip(i as int));
        } else {
            assert(s@.skip(i as int).len() == 0);
        }
    }
    let r = s.substring_char(i, n);
    proof {
        assert(r@ =~= s@.skip(i as int));
    }
    r.to_owned()
}

/// Removes trailing white space; what `str::trim_end` returns.
pub fn trim_end(s: &str) -> (r: String)
    ensures
        r@ == trim_end_v(s@),
{
    let n: usize = s.unicode_len();
    let mut i: usize = n;
    while i > 0 && char_is_space(s.get_char(i - 1))
        invariant
            0 <= i <= n,
            n == s@.len(),
            forall|j: int| i <= j < n ==> is_space_char(s@[j]),
        decreases i,
    {
        i = i - 1;
    }
    proof {
        lemma_trim_end_take(s@, i as int);
        if i > 0 {
            assert(s@.take(i as int)[i - 1] == s@[i - 1]);
            assert(trim_end_v(s@.take(i as int)) == s@.take(i as int));
        } else {
            assert(s@.take(0).len() == 0);
        }
    }
    let r = s.substring_char(0, i);
    proof {
        assert(r@ =~= s@.take(i as int));
    }
    r.to_owned()
}

/// Removes leading and trailing white space; what `str::trim` returns.
pub fn trim(s: &str) -> (r: String)
    ensures
        r@ == trim_v(s@),
{
    let t = trim_start(s);
    trim_end(t.as_str())
}

/// Whether the two strings hold the same characters.
pub fn str_eq(a: &str, b: &str) -> (r: bool)
    ensures
        r == (a@ == b@),
{
    let na: usize = a.unicode_len();
    let nb: usize = b.unicode_len();
    if na != nb {
        return false;
    }
    let mut i: usize = 0;
    while i < na
        invariant
            0 <= i <= na,
            na == a@.len(),
            na == b@.len(),
            forall|j: int| 0 <= j < i ==> a@[j] == b@[j],
        decreases na - i,
    {
        if a.get_char(i) != b.get_char(i) {
            return false;
        }
        i = i + 1;
    }
    proof {
        assert(a@ =~= b@);
    }
    true
}

/// Whether the string is white space alone (in particular, empty).
pub fn str_is_blank(s: &str) -> (r: bool)
    ensures
        r == (trim_v(s@).len() == 0),
        r == all_space(s@),
{
    proof {
        lemma_trim_blank(s@);
    }
    let n: usize = s.unicode_len();
    let mut i: usize = 0;
    while i < n
        invariant
            0 <= i <= n,
            n == s@.len(),
            forall|j: int| 0 <= j < i ==> is_space_char(s@[j]),
        decreases n - i,
    {
        if !char_is_space(s.get_char(i)) {
            proof {
                assert(!is_space_char(s@[i as int]));
                assert(!all_space(s@));
                lemma_trim_blank(s@);
                assert(trim_v(s@).len() != 0);
            }
            return false;
        }
        i = i + 1;
    }
    true
}

/// A string is all white space exactly when its trim is empty.
proof fn lemma_trim_blank(s: Seq<char>)
    ensures
        (trim_v(s).len() == 0) == all_space(s),
    decreases s.len(),
{
    if s.len() > 0 && is_space_char(s[0]) {
        lemma_trim_blank(s.drop_first());
        assert(trim_start_v(s) == trim_start_v(s.drop_first()));
        assert(all_space(s) == all_space(s.drop_first())) by {
            if all_space(s.drop_first()) {
                assert forall|i: int| 0 <= i < s.len() implies is_space_char(s[i]) by {
                    if i > 0 {
                        assert(s.drop_first()[i - 1] == s[i]);
                    }
                }
            } else {
                let i = choose|i: int| 0 <= i < s.drop_first().len()
                    && !is_space_char(s.drop_first()[i]);
                assert(s[i + 1] == s.drop_first()[i]);
            }
        }
    } else if s.len() > 0 {
        assert(trim_start_v(s) == s);
        assert(trim_end_v(s).len() >= 1) by {
            lemma_trim_end_keeps_first(s);
        }
        assert(!all_space(s));
    }
}

/// Trimming the end keeps the first character when it is no space.
proof fn lemma_trim_end_keeps_first(s: Seq<char>)
    requires
        s.len() > 0,
        !is_space_char(s[0]),
    ensures
        trim_end_v(s).len() >= 1,
        trim_end_v(s)[0] == s[0],
    decreases s.len(),
{
    if s.len() > 0 && is_space_char(s[s.len() - 1]) {
        assert(s.drop_last()[0] == s[0]);
        lemma_trim_end_keeps_first(s.drop_last());
    }
}

/// Index of the first `.` in `s`, or `s.len()` when there is none.
pub open spec fn first_dot(s: Seq<char>) -> int
    decreases s.len(),
{
    if s.len() == 0 {
        0
    } else if s[0] == '.' {
        0
    } else {
        1 + first_dot(s.drop_first())
    }
}

pub proof fn lemma_first_dot_bounds(s: Seq<char>)
    ensures
        0 <= first_dot(s) <= s.len(),
        first_dot(s) < s.len() ==> s[first_dot(s)] == '.',
        forall|j: int| 0 <= j < first_dot(s) ==> s[j] != '.',
    decreases s.len(),
{
    if s.len() > 0 && s[0] != '.' {
        lemma_first_dot_bounds(s.drop_first());
        assert forall|j: int| 0 <= j < first_dot(s) implies s[j] != '.' by {
            if j > 0 {
                assert(s.drop_first()[j - 1] == s[j]);
            }
        }
    }
}

proof fn lemma_first_dot_at(s: Seq<char>, i: int)
    requires
        0 <= i <= s.len(),
        forall|j: int| 0 <= j < i ==> s[j] != '.',
        i < s.len() ==> s[i] == '.',
    ensures
        first_dot(s) == i,
    decreases i,
{
    if i > 0 {
        assert(forall|j: int| 0 <= j < i - 1 ==> s.drop_first()[j] == s[j + 1]);
        if i - 1 < s.drop_first().len() {
            assert(s.drop_first()[i - 1] == s[i]);
        }
        lemma_first_dot_at(s.drop_first(), i - 1);
    }
}

/// The pieces of `s` between its `.` separators, in order, empty
/// pieces kept: what `str::split('.')` yields.
pub open spec fn split_dots_v(s: Seq<char>) -> Seq<Seq<char>>
    decreases s.len(),
{
    let i = first_dot(s);
    if i == s.len() {
        seq![s]
    } else if 0 <= i < s.len() {
        seq![s.take(i)] + split_dots_v(s.skip(i + 1))
    } else {
        seq![s]
    }
}

/// Splits `s` at every `.`, keeping empty pieces.
pub fn split_dots(s: &str) -> (r: Vec<String>)
    ensures
        r.deep_view() == split_dots_v(s@),
    decreases s@.len(),
{
    let n: usize = s.unicode_len();
    let mut i: usize = 0;
    while i < n && s.get_char(i) != '.'
        invariant
            0 <= i <= n,
            n == s@.len(),
            forall|j: int| 0 <= j < i ==> s@[j] != '.',
        decreases n - i,
    {
        i = i + 1;
    }
    proof {
        lemma_first_dot_at(s@, i as int);
    }
    if i == n {
        let mut r: Vec<String> = Vec::new();
        r.push(s.to_owned());
        proof {
            assert(r.deep_view() =~= split_dots_v(s@));
        }
        r
    } else {
        let head = s.substring_char(0, i);
        let tail = s.substring_char(i + 1, n);
        proof {
            assert(head@ =~= s@.take(i as int));
            assert(tail@ =~= s@.skip(i as int + 1));
        }
        let rest = split_dots(tail);
        let mut r: Vec<String> = Vec::new();
        push_dv(&mut r, head.to_owned());
        let mut k: usize = 0;
        let ghost restv = rest.deep_view();
        while k < rest.len()
            invariant
                0 <= k <= rest.len(),
                rest.deep_view() == restv,
                r.deep_view() =~= seq![s@.take(i as int)] + restv.take(k as int),
            decreases rest.len() - k,
        {
            let piece = rest[k].clone();
            proof {
                lemma_vec_deep_view(&rest);
                assert(piece@ == restv[k as int]);
            }
            push_dv(&mut r, piece);
            proof {
                assert(r.deep_view() =~= seq![s@.take(i as int)] + restv.take(k as int + 1));
            }
            k = k + 1;
        }
        proof {
            assert(restv.take(rest.len() as int) =~= restv);
            assert(r.deep_view() =~= split_dots_v(s@));
        }
        r
    }
}

/// The pieces joined with a single `.` between them.
pub open spec fn join_dots_v(parts: Seq<Seq<char>>) -> Seq<char>
    decreases parts.len(),
{
    if parts.len() == 0 {
        Seq::empty()
    } else if parts.len() == 1 {
        parts[0]
    } else {
        parts[0] + seq!['.'] + join_dots_v(parts.drop_first())
    }
}

/// Joins the strings with a single `.` between them.
pub fn join_dots(parts: &Vec<String>) -> (r: String)
    ensures
        r@ == join_dots_v(parts.deep_view()),
{
    proof {
        assert(parts.deep_view().skip(0) =~= parts.deep_view());
    }
    join_dots_from(parts, 0)
}

fn join_dots_from(parts: &Vec<String>, start: usize) -> (r: String)
    requires
        start <= parts.len(),
    ensures
        r@ == join_dots_v(parts.deep_view().skip(start as int)),
    decreases parts.len() - start,
{
    let ghost tailv = parts.deep_view().skip(start as int);
    if start == parts.len() {
        proof {
            assert(tailv.len() == 0);
        }
        String::new()
    } else if start + 1 == parts.len() {
        proof {
            assert(tailv.len() == 1);
            assert(tailv[0] == parts.deep_view()[start as int]);
        }
        parts[start].clone()
    } else {
        let mut r = parts[start].clone();
        r.append(".");
        let rest = join_dots_from(parts, start + 1);
        r.append(rest.as_str());
        proof {
            reveal_strlit(".");
            assert(parts.deep_view().skip(start as int + 1) =~= tailv.drop_first());
            assert(tailv[0] == parts.deep_view()[start as int]);
            assert(r@ =~= tailv[0] + seq!['.'] + join_dots_v(tailv.drop_first()));
        }
        r
    }
}

/// The decimal digit character for `d`.
pub open spec fn dec_digit(d: int) -> char
    recommends
        0 <= d < 10,
{
    ((d + 48) as u8) as char
}

/// The decimal rendering of `n >= 0`, most significant digit first,
/// without a sign and without leading zeroes.
pub open spec fn dec_str_nat(n: int) -> Seq<char>
    recommends
        n >= 0,
    decreases n,
{
    if n < 10 {
        seq![dec_digit(n)]
    } else {
        dec_str_nat(n / 10).push(dec_digit(n % 10))
    }
}

/// The decimal rendering of a signed integer: what
/// `i64::to_string` returns.
pub open spec fn i64_str_v(i: int) -> Seq<char> {
    if i < 0 {
        seq!['-'] + dec_str_nat(-i)
    } else {
        dec_str_nat(i)
    }
}

fn push_digit(s: &mut String, d: u64)
    requires
        d < 10,
    ensures
        final(s)@ == old(s)@.push(dec_digit(d as int)),
{
    let lit: &str = if d == 0 {
        "0"
    } else if d == 1 {
        "1"
    } else if d == 2 {
        "2"
    } else if d == 3 {
        "3"
    } else if d == 4 {
        "4"
    } else if d == 5 {
        "5"
    } else if d == 6 {
        "6"
    } else if d == 7 {
        "7"
    } else if d == 8 {
        "8"
    } else {
        "9"
    };
    proof {
        reveal_strlit("0");
        reveal_strlit("1");
        reveal_strlit("2");
        reveal_strlit("3");
        reveal_strlit("4");
        reveal_strlit("5");
        reveal_strlit("6");
        reveal_strlit("7");
        reveal_strlit("8");
        reveal_strlit("9");
        assert(lit@ =~= seq![dec_digit(d as int)]);
    }
    s.append(lit);
    proof {
        assert(old(s)@ + lit@ =~= old(s)@.push(dec_digit(d as int)));
    }
}

fn u64_to_dec(n: u64, s: &mut String)
    ensures
        final(s)@ == old(s)@ + dec_str_nat(n as int),
    decreases n,
{
    if n < 10 {
        push_digit(s, n);
        proof {
            assert(old(s)@.push(dec_digit(n as int)) =~= old(s)@ + dec_str_nat(n as int));
        }
    } else {
        u64_to_dec(n / 10, s);
        push_digit(s, n % 10);
        proof {
            assert((old(s)@ + dec_str_nat(n as int / 10)).push(dec_digit(n as int % 10)) =~= old(
                s,
            )@ + dec_str_nat(n as int));
        }
    }
}

/// Renders `n` in decimal.
pub fn u64_to_string(n: u64) -> (r: String)
    ensures
        r@ == dec_str_nat(n as int),
{
    let mut s = String::new();
    u64_to_dec(n, &mut s);
    proof {
        assert(Seq::<char>::empty() + dec_str_nat(n as int) =~= dec_str_nat(n as int));
    }
    s
}

/// Renders `i` in decimal with its sign: what `i64::to_string`
/// returns.
pub fn i64_to_string(i: i64) -> (r: String)
    ensures
        r@ == i64_str_v(i as int),
{
    if i >= 0 {
        u64_to_string(i as u64)
    } else {
        let wide: i128 = -(i as i128);
        let m: u64 = wide as u64;
        let mut s = String::new();
        s.append("-");
        u64_to_dec(m, &mut s);
        proof {
            reveal_strlit("-");
            assert((Seq::<char>::empty() + "-"@) + dec_str_nat(m as int) =~= seq!['-']
                + dec_str_nat(-(i as int)));
        }
        s
    }
}

/// Whether `c` is a decimal digit.
pub open spec fn is_dec_digit(c: char) -> bool {
    '0' <= c && c <= '9'
}

/// The value of the digit character `c`.
pub open spec fn digit_val(c: char) -> int {
    c as int - 48
}

/// Whether `s` is one or more decimal digits and nothing else.
pub open spec fn all_dec_digits(s: Seq<char>) -> bool {
    forall|i: int| 0 <= i < s.len() ==> is_dec_digit(s[i])
}

/// The value of a digit string, most significant digit first.
pub open spec fn digits_val(s: Seq<char>) -> int
    decreases s.len(),
{
    if s.len() == 0 {
        0
    } else {
        digits_val(s.drop_last()) * 10 + digit_val(s.last())
    }
}

pub proof fn lemma_digits_val_nonneg(s: Seq<char>)
    requires
        all_dec_digits(s),
    ensures
        digits_val(s) >= 0,
    decreases s.len(),
{
    if s.len() > 0 {
        assert(all_dec_digits(s.drop_last())) by {
            assert(forall|i: int| 0 <= i < s.len() - 1 ==> s.drop_last()[i] == s[i]);
        }
        lemma_digits_val_nonneg(s.drop_last());
    }
}

/// What `str::parse::<i64>` returns on `s`: an optional sign followed
/// by digits, provided the value fits in an `i64`.
pub open spec fn parse_i64_v(s: Seq<char>) -> Option<i64> {
    if s.len() == 0 {
        None
    } else {
        let neg = s[0] == '-';
        let ds = if s[0] == '-' || s[0] == '+' {
            s.drop_first()
        } else {
            s
        };
        if ds.len() == 0 || !all_dec_digits(ds) {
            None
        } else if neg && -digits_val(ds) >= i64::MIN as int {
            Some((-digits_val(ds)) as i64)
        } else if !neg && digits_val(ds) <= i64::MAX as int {
            Some(digits_val(ds) as i64)
        } else {
            None
        }
    }
}

/// What `str::parse::<usize>` returns on `s`: an optional `+`
/// followed by digits, provided the value fits in a `usize`.
pub open spec fn parse_usize_v(s: Seq<char>) -> Option<usize> {
    if s.len() == 0 {
        None
    } else {
        let ds = if s[0] == '+' {
            s.drop_first()
        } else {
            s
        };
        if ds.len() == 0 || !all_dec_digits(ds) {
            None
        } else if digits_val(ds) <= usize::MAX as int {
            Some(digits_val(ds) as usize)
        } else {
            None
        }
    }
}

/// Reads the digits of `s@` from `st` on; `Some` of their value
/// when they are all digits and their value is at most `cap`.
fn parse_digits(s: &str, st: usize, cap: u128) -> (r: Option<u128>)
    requires
        st <= s@.len(),
        cap < u128::MAX / 16,
    ensures
        match r {
            Some(v) => {
                &&& s@.skip(st as int).len() > 0
                &&& all_dec_digits(s@.skip(st as int))
                &&& v as int == digits_val(s@.skip(st as int))
                &&& v <= cap
            },
            None => {
                s@.skip(st as int).len() == 0 || !all_dec_digits(s@.skip(st as int))
                    || digits_val(s@.skip(st as int)) > cap as int
            },
        },
{
    let n: usize = s.unicode_len();
    let ghost ds = s@.skip(st as int);
    if st == n {
        return None;
    }
    let mut i: usize = st;
    let mut acc: u128 = 0;
    let mut over: bool = false;
    while i < n
        invariant
            st <= i <= n,
            n == s@.len(),
            cap < u128::MAX / 16,
            ds == s@.skip(st as int),
            forall|j: int| st <= j < i ==> is_dec_digit(s@[j]),
            !over ==> acc as int == digits_val(s@.subrange(st as int, i as int)) && acc <= cap,
            over ==> digits_val(s@.subrange(st as int, i as int)) > cap as int,
            all_dec_digits(s@.subrange(st as int, i as int)),
        decreases n - i,
    {
        let c = s.get_char(i);
        if !(('0' <= c) && (c <= '9')) {
            proof {
                assert(ds[i - st] == s@[i as int]);
                assert(!all_dec_digits(ds));
            }
            return None;
        }
        let d: u32 = (c as u32) - 48;
        proof {
            assert(s@.subrange(st as int, i as int + 1).drop_last() =~= s@.subrange(
                st as int,
                i as int,
            ));
            assert(s@.subrange(st as int, i as int + 1).last() == s@[i as int]);
            assert(all_dec_digits(s@.subrange(st as int, i as int + 1)));
            if over {
                lemma_digits_val_nonneg(s@.subrange(st as int, i as int + 1));
                assert(digits_val(s@.subrange(st as int, i as int)) * 10 >= digits_val(
                    s@.subrange(st as int, i as int),
                )) by {
                    lemma_digits_val_nonneg(s@.subrange(st as int, i as int));
                }
            }
        }
        if !over {
            let acc2: u128 = acc * 10 + (d as u128);
            if acc2 > cap {
                over = true;
            } else {
                acc = acc2;
            }
        }
        i = i + 1;
    }
    proof {
        assert(s@.subrange(st as int, n as int) =~= ds);
    }
    if over {
        None
    } else {
        Some(acc)
    }
}

/// Parses a decimal `i64`: what `str::parse::<i64>` returns.
pub fn parse_i64(s: &str) -> (r: Option<i64>)
    ensures
        r == parse_i64_v(s@),
{
    let n: usize = s.unicode_len();
    if n == 0 {
        return None;
    }
    let c0 = s.get_char(0);
    let neg = c0 == '-';
    let st: usize = if c0 == '-' || c0 == '+' {
        1
    } else {
        0
    };
    proof {
        if st == 0 {
            assert(s@.skip(0) =~= s@);
        }
    }
    let cap: u128 = if neg {
        9223372036854775808u128
    } else {
        9223372036854775807u128
    };
    match parse_digits(s, st, cap) {
        Some(v) => {
            if neg {
                let wide: i128 = -(v as i128);
                Some(wide as i64)
            } else {
                Some(v as i64)
            }
        },
        None => None,
    }
}

/// Parses a decimal `usize`: what `str::parse::<usize>` returns.
pub fn parse_usize(s: &str) -> (r: Option<usize>)
    ensures
        r == parse_usize_v(s@),
{
    let n: usize = s.unicode_len();
    if n == 0 {
        return None;
    }
    let c0 = s.get_char(0);
    let st: usize = if c0 == '+' {
        1
    } else {
        0
    };
    proof {
        if st == 0 {
            assert(s@.skip(0) =~= s@);
        }
    }
    match parse_digits(s, st, usize::MAX as u128) {
        Some(v) => Some(v as usize),
        None => None,
    }
}

} // verus!
