//! Character-sequence utilities shared by the document parser and the
//! template engine: substring search, prefix/suffix tests, trimming,
//! line and block splitting, and simple rewriting.  Every executable
//! function is specified against a spec-level function on `Seq<char>`.

use vstd::prelude::*;
use vstd::string::*;

verus! {

/// Pattern `p` occurs in `s` at position `i`.
pub open spec fn occurs_at(s: Seq<char>, p: Seq<char>, i: int) -> bool {
    0 <= i && i + p.len() <= s.len() && s.subrange(i, i + p.len()) == p
}

/// Position of the first occurrence of `p` in `s` at or after `from`,
/// if there is one.  The empty pattern is never found.
pub open spec fn find_from(s: Seq<char>, p: Seq<char>, from: nat) -> Option<int>
    decreases s.len() - from,
{
    if p.len() == 0 || from + p.len() > s.len() {
        None
    } else if occurs_at(s, p, from as int) {
        Some(from as int)
    } else {
        find_from(s, p, (from + 1) as nat)
    }
}

/// What a `Some` answer of `find_from` means: an occurrence, and the first
/// one at or after `from`.
pub proof fn lemma_find_from_some(s: Seq<char>, p: Seq<char>, from: nat, i: int)
    requires
        find_from(s, p, from) == Some(i),
    ensures
        from <= i,
        occurs_at(s, p, i),
        forall|j: int| from <= j < i ==> !occurs_at(s, p, j),
    decreases s.len() - from,
{
    if p.len() == 0 || from + p.len() > s.len() {
    } else if occurs_at(s, p, from as int) {
    } else {
        lemma_find_from_some(s, p, (from + 1) as nat, i);
    }
}

/// What a `None` answer of `find_from` means: no occurrence at or
/// after `from`.
pub proof fn lemma_find_from_none(s: Seq<char>, p: Seq<char>, from: nat)
    requires
        p.len() > 0,
        find_from(s, p, from) is None,
    ensures
        forall|j: int| from <= j ==> !occurs_at(s, p, j),
    decreases s.len() - from,
{
    if from + p.len() > s.len() {
        assert forall|j: int| from <= j implies !occurs_at(s, p, j) by {
            assert(j + p.len() > s.len());
        }
    } else if occurs_at(s, p, from as int) {
    } else {
        lemma_find_from_none(s, p, (from + 1) as nat);
    }
}

/// Whether `p` occurs in `s` at position `i`, by character comparison.
pub fn occurs_at_exec(s: &str, p: &str, i: usize) -> (r: bool)
    requires
        i <= s@.len(),
    ensures
        r == occurs_at(s@, p@, i as int),
{
    let n = s.unicode_len();
    let m = p.unicode_len();
    if m > n - i {
        return false;
    }
    let mut j: usize = 0;
    while j < m
        invariant
            j <= m,
            i + m <= n,
            n == s@.len(),
            m == p@.len(),
            forall|k: int| 0 <= k < j ==> s@[i + k] == p@[k],
        decreases m - j,
    {
        if s.get_char(i + j) != p.get_char(j) {
            proof {
                if occurs_at(s@, p@, i as int) {
                    assert(s@.subrange(i as int, i + m)[j as int] == p@[j as int]);
                }
            }
            return false;
        }
        j += 1;
    }
    proof {
        assert(s@.subrange(i as int, i + m) =~= p@);
    }
    true
}

/// First occurrence of `p` in `s` at or after `from`.
pub fn find_pat(s: &str, p: &str, from: usize) -> (r: Option<usize>)
    requires
        from <= s@.len(),
    ensures
        match r {
            Some(i) => find_from(s@, p@, from as nat) == Some(i as int),
            None => find_from(s@, p@, from as nat) is None,
        },
{
    let n = s.unicode_len();
    let m = p.unicode_len();
    if m == 0 {
        return None;
    }
    let mut i = from;
    loop
        invariant
            from <= i <= n,
            n == s@.len(),
            m == p@.len(),
            m >= 1,
            find_from(s@, p@, from as nat) == find_from(s@, p@, i as nat),
        decreases n - i,
    {
        if m > n - i {
            return None;
        }
        if occurs_at_exec(s, p, i) {
            return Some(i);
        }
        i += 1;
    }
}

/// Character-for-character string equality.
pub fn str_eq(a: &str, b: &str) -> (r: bool)
    ensures
        r == (a@ == b@),
{
    let n = a.unicode_len();
    if n != b.unicode_len() {
        return false;
    }
    let mut i: usize = 0;
    while i < n
        invariant
            i <= n,
            n == a@.len(),
            n == b@.len(),
            forall|k: int| 0 <= k < i ==> a@[k] == b@[k],
        decreases n - i,
    {
        if a.get_char(i) != b.get_char(i) {
            return false;
        }
        i += 1;
    }
    proof {
        assert(a@ =~= b@);
    }
    true
}

/// `s` begins with `p`.
pub open spec fn starts_with_spec(s: Seq<char>, p: Seq<char>) -> bool {
    occurs_at(s, p, 0)
}

/// `s` ends with `p`.
pub open spec fn ends_with_spec(s: Seq<char>, p: Seq<char>) -> bool {
    occurs_at(s, p, s.len() - p.len())
}

pub fn starts_with_pat(s: &str, p: &str) -> (r: bool)
    ensures
        r == starts_with_spec(s@, p@),
{
    occurs_at_exec(s, p, 0)
}

pub fn ends_with_pat(s: &str, p: &str) -> (r: bool)
    ensures
        r == ends_with_spec(s@, p@),
{
    let n = s.unicode_len();
    let m = p.unicode_len();
    if m > n {
        proof {
            assert(!occurs_at(s@, p@, s@.len() - p@.len()));
        }
        return false;
    }
    occurs_at_exec(s, p, n - m)
}

/// The whitespace characters that trimming removes.
pub open spec fn is_space_char(c: char) -> bool {
    c == ' ' || c == '\t' || c == '\n' || c == '\r'
}

/// Number of whitespace characters at the front of `s`.
pub open spec fn leading_ws(s: Seq<char>) -> nat
    decreases s.len(),
{
    if s.len() == 0 {
        0
    } else if is_space_char(s[0]) {
        (1 + leading_ws(s.drop_first())) as nat
    } else {
        0
    }
}

/// Number of whitespace characters at the back of `s`.
pub open spec fn trailing_ws(s: Seq<char>) -> nat
    decreases s.len(),
{
    if s.len() == 0 {
        0
    } else if is_space_char(s.last()) {
        (1 + trailing_ws(s.drop_last())) as nat
    } else {
        0
    }
}

/// `s` with surrounding whitespace removed.
pub open spec fn trim_spec(s: Seq<char>) -> Seq<char> {
    if leading_ws(s) + trailing_ws(s) <= s.len() {
        s.subrange(leading_ws(s) as int, s.len() - trailing_ws(s))
    } else {
        Seq::empty()
    }
}

/// `s` with leading whitespace removed.
pub open spec fn trim_start_spec(s: Seq<char>) -> Seq<char> {
    s.skip(leading_ws(s) as int)
}

proof fn lemma_leading_ws_char(s: Seq<char>, i: int)
    requires
        0 <= i <= s.len(),
        forall|j: int| 0 <= j < i ==> is_space_char(s[j]),
        i == s.len() || !is_space_char(s[i]),
    ensures
        leading_ws(s) == i,
    decreases i,
{
    if i == 0 {
    } else {
        assert(is_space_char(s[0]));
        lemma_leading_ws_char(s.drop_first(), i - 1);
    }
}

proof fn lemma_trailing_ws_char(s: Seq<char>, i: int)
    requires
        0 <= i <= s.len(),
        forall|j: int| i <= j < s.len() ==> is_space_char(s[j]),
        i == 0 || !is_space_char(s[i - 1]),
    ensures
        trailing_ws(s) == s.len() - i,
    decreases s.len() - i,
{
    if i == s.len() {
    } else {
        assert(is_space_char(s.last()));
        lemma_trailing_ws_char(s.drop_last(), i);
    }
}

/// `s` with surrounding whitespace removed.
pub fn trim<'a>(s: &'a str) -> (r: &'a str)
    ensures
        r@ == trim_spec(s@),
{
    let n = s.unicode_len();
    let mut a: usize = 0;
    while a < n && is_space(s.get_char(a))
        invariant
            a <= n,
            n == s@.len(),
            forall|j: int| 0 <= j < a ==> is_space_char(s@[j]),
        decreases n - a,
    {
        a += 1;
    }
    proof {
        lemma_leading_ws_char(s@, a as int);
    }
    let mut b: usize = n;
    while b > a && is_space(s.get_char(b - 1))
        invariant
            a <= b <= n,
            n == s@.len(),
            forall|j: int| b <= j < n ==> is_space_char(s@[j]),
        decreases b,
    {
        b -= 1;
    }
    proof {
        if b == a {
            if a == n {
                lemma_trailing_ws_char(s@, 0);
                if n > 0 {
                    assert(leading_ws(s@) + trailing_ws(s@) > s@.len());
                }
                assert(trim_spec(s@) =~= s@.subrange(a as int, b as int));
            } else {
                assert(!is_space_char(s@[a as int]));
                lemma_trailing_ws_char(s@, a + 1);
                assert(leading_ws(s@) + trailing_ws(s@) > s@.len());
                assert(trim_spec(s@) =~= s@.subrange(a as int, b as int));
            }
        } else {
            lemma_trailing_ws_char(s@, b as int);
        }
    }
    s.substring_char(a, b)
}

/// `s` with leading whitespace removed.
pub fn trim_start<'a>(s: &'a str) -> (r: &'a str)
    ensures
        r@ == trim_start_spec(s@),
{
    let n = s.unicode_len();
    let mut a: usize = 0;
    while a < n && is_space(s.get_char(a))
        invariant
            a <= n,
            n == s@.len(),
            forall|j: int| 0 <= j < a ==> is_space_char(s@[j]),
        decreases n - a,
    {
        a += 1;
    }
    proof {
        lemma_leading_ws_char(s@, a as int);
    }
    s.substring_char(a, n)
}

/// Whitespace test on one character.
pub fn is_space(c: char) -> (r: bool)
    ensures
        r == is_space_char(c),
{
    c == ' ' || c == '\t' || c == '\n' || c == '\r'
}

/// `s` split on every occurrence of `p`; `p` itself never appears in
/// the pieces.
pub open spec fn split_pat(s: Seq<char>, p: Seq<char>) -> Seq<Seq<char>>
    decreases s.len(),
{
    match find_from(s, p, 0) {
        None => seq![s],
        Some(i) => {
            if p.len() > 0 && 0 <= i && i + p.len() <= s.len() {
                seq![s.subrange(0, i)] + split_pat(s.skip(i + p.len()), p)
            } else {
                seq![s]
            }
        },
    }
}

/// View of a vector of owned strings.
pub open spec fn strings_view(v: Seq<String>) -> Seq<Seq<char>> {
    v.map_values(|t: String| t@)
}

pub fn split_pat_exec(s: &str, p: &str) -> (r: Vec<String>)
    requires
        p@.len() > 0,
    ensures
        strings_view(r@) == split_pat(s@, p@),
{
    let n = s.unicode_len();
    let m = p.unicode_len();
    let mut out: Vec<String> = Vec::new();
    let mut c: usize = 0;
    let mut done = false;
    proof {
        assert(s@.skip(0) =~= s@);
        assert(strings_view(out@) =~= Seq::<Seq<char>>::empty());
        assert(Seq::<Seq<char>>::empty() + split_pat(s@, p@) =~= split_pat(s@, p@));
    }
    while !done
        invariant
            c <= n,
            n == s@.len(),
            m == p@.len(),
            m >= 1,
            !done ==> split_pat(s@, p@) == strings_view(out@) + split_pat(
                s@.skip(c as int),
                p@,
            ),
            done ==> strings_view(out@) == split_pat(s@, p@),
        decreases n - c + (if done { 0int } else { 1int }),
    {
        let ghost out0 = out@;
        let rem = s.substring_char(c, n);
        proof {
            assert(rem@ =~= s@.skip(c as int));
        }
        match find_pat(rem, p, 0) {
            None => {
                let tail = String::from_str(rem);
                out.push(tail);
                done = true;
                proof {
                    assert(split_pat(rem@, p@) =~= seq![rem@]);
                    assert(strings_view(out@) =~= strings_view(out0).push(rem@));
                    assert(strings_view(out0) + seq![rem@] =~= strings_view(out0).push(rem@));
                }
            },
            Some(i) => {
                proof {
                    lemma_find_from_some(rem@, p@, 0, i as int);
                }
                let piece = String::from_str(rem.substring_char(0, i));
                out.push(piece);
                c = c + i + m;
                proof {
                    assert(piece@ =~= rem@.subrange(0, i as int));
                    assert(rem@.skip(i + m) =~= s@.skip(c as int));
                    assert(strings_view(out@) =~= strings_view(out0).push(piece@));
                    assert(split_pat(rem@, p@) == seq![rem@.subrange(0, i as int)] + split_pat(
                        rem@.skip(i + m),
                        p@,
                    ));
                    assert(strings_view(out0) + split_pat(rem@, p@) =~= strings_view(out0).push(
                        piece@,
                    ) + split_pat(s@.skip(c as int), p@));
                }
            },
        }
    }
    out
}

/// The lines of `s`: pieces between `'\n'` characters, with a final
/// terminator producing no empty last line.
pub open spec fn lines_spec(s: Seq<char>) -> Seq<Seq<char>> {
    if s.len() == 0 {
        Seq::empty()
    } else if s.last() == '\n' {
        split_pat(s.drop_last(), seq!['\n'])
    } else {
        split_pat(s, seq!['\n'])
    }
}

/// A one-character newline pattern, as a string slice.
pub fn nl_str() -> (r: &'static str)
    ensures
        r@ == seq!['\n'],
{
    let s = "\n";
    proof {
        reveal_strlit("\n");
        assert(s@ =~= seq!['\n']);
    }
    s
}

/// The lines of `s`.
pub fn lines_exec(s: &str) -> (r: Vec<String>)
    ensures
        strings_view(r@) == lines_spec(s@),
{
    let n = s.unicode_len();
    if n == 0 {
        let out: Vec<String> = Vec::new();
        proof {
            assert(strings_view(out@) =~= lines_spec(s@));
        }
        return out;
    }
    let p = nl_str();
    if s.get_char(n - 1) == '\n' {
        let head = s.substring_char(0, n - 1);
        proof {
            assert(head@ =~= s@.drop_last());
        }
        split_pat_exec(head, p)
    } else {
        split_pat_exec(s, p)
    }
}

/// `s` with every occurrence of `from_p` replaced by `to_p`, scanning
/// left to right.
pub open spec fn replace_spec(s: Seq<char>, from_p: Seq<char>, to_p: Seq<char>) -> Seq<char>
    decreases s.len(),
{
    match find_from(s, from_p, 0) {
        None => s,
        Some(i) => {
            if from_p.len() > 0 && 0 <= i && i + from_p.len() <= s.len() {
                s.subrange(0, i) + to_p + replace_spec(s.skip(i + from_p.len()), from_p, to_p)
            } else {
                s
            }
        },
    }
}

pub fn replace_exec(s: &str, from_p: &str, to_p: &str) -> (r: String)
    requires
        from_p@.len() > 0,
    ensures
        r@ == replace_spec(s@, from_p@, to_p@),
{
    let n = s.unicode_len();
    let m = from_p.unicode_len();
    let mut out = String::new();
    let mut c: usize = 0;
    let mut done = false;
    proof {
        assert(s@.skip(0) =~= s@);
        assert(out@ + replace_spec(s@, from_p@, to_p@) =~= replace_spec(s@, from_p@, to_p@));
    }
    while !done
        invariant
            c <= n,
            n == s@.len(),
            m == from_p@.len(),
            m >= 1,
            !done ==> replace_spec(s@, from_p@, to_p@) == out@ + replace_spec(
                s@.skip(c as int),
                from_p@,
                to_p@,
            ),
            done ==> out@ == replace_spec(s@, from_p@, to_p@),
        decreases n - c + (if done { 0int } else { 1int }),
    {
        let ghost out0 = out@;
        let rem = s.substring_char(c, n);
        proof {
            assert(rem@ =~= s@.skip(c as int));
        }
        match find_pat(rem, from_p, 0) {
            None => {
                out.append(rem);
                done = true;
                proof {
                    assert(replace_spec(rem@, from_p@, to_p@) == rem@);
                }
            },
            Some(i) => {
                proof {
                    lemma_find_from_some(rem@, from_p@, 0, i as int);
                }
                out.append(rem.substring_char(0, i));
                out.append(to_p);
                c = c + i + m;
                proof {
                    assert(rem@.skip(i + m) =~= s@.skip(c as int));
                    assert(replace_spec(rem@, from_p@, to_p@) == rem@.subrange(0, i as int)
                        + to_p@ + replace_spec(s@.skip(c as int), from_p@, to_p@));
                    assert(out@ =~= out0 + rem@.subrange(0, i as int) + to_p@);
                    assert(out0 + (rem@.subrange(0, i as int) + to_p@ + replace_spec(
                        s@.skip(c as int),
                        from_p@,
                        to_p@,
                    )) =~= out@ + replace_spec(s@.skip(c as int), from_p@, to_p@));
                }
            },
        }
    }
    out
}

/// Concatenation of a sequence of character sequences.
pub open spec fn concat_all(v: Seq<Seq<char>>) -> Seq<char>
    decreases v.len(),
{
    if v.len() == 0 {
        Seq::empty()
    } else {
        concat_all(v.drop_last()) + v.last()
    }
}

/// A decimal digit.
pub open spec fn is_digit_char(c: char) -> bool {
    48 <= c as u32 <= 57
}

/// The value of a decimal digit.
pub open spec fn digit_val(c: char) -> nat {
    (c as u32 - 48) as nat
}

/// A non-empty string of decimal digits.
pub open spec fn all_digits(s: Seq<char>) -> bool {
    s.len() > 0 && forall|i: int| 0 <= i < s.len() ==> is_digit_char(s[i])
}

/// The number a string of decimal digits denotes.
pub open spec fn dec_value(s: Seq<char>) -> nat
    decreases s.len(),
{
    if s.len() == 0 {
        0
    } else {
        dec_value(s.drop_last()) * 10 + digit_val(s.last())
    }
}

proof fn lemma_dec_value_prefix(s: Seq<char>, j: int)
    requires
        0 <= j <= s.len(),
    ensures
        dec_value(s.take(j)) <= dec_value(s),
    decreases s.len() - j,
{
    if j < s.len() {
        lemma_dec_value_prefix(s, j + 1);
        assert(s.take(j + 1).drop_last() =~= s.take(j));
    } else {
        assert(s.take(j) =~= s);
    }
}

/// Reads a number from a non-empty string of decimal digits; anything
/// else, or a value that does not fit, is `None`.
pub fn parse_u32_digits(s: &str) -> (r: Option<u32>)
    ensures
        match r {
            Some(v) => all_digits(s@) && v == dec_value(s@),
            None => !all_digits(s@) || dec_value(s@) > u32::MAX,
        },
{
    let n = s.unicode_len();
    if n == 0 {
        return None;
    }
    let mut acc: u32 = 0;
    let mut i: usize = 0;
    proof {
        assert(dec_value(s@.take(0)) == 0);
    }
    while i < n
        invariant
            i <= n,
            n == s@.len(),
            acc == dec_value(s@.take(i as int)),
            forall|j: int| 0 <= j < i ==> is_digit_char(s@[j]),
        decreases n - i,
    {
        let code = s.get_char(i) as u32;
        if code < 48 || code > 57 {
            return None;
        }
        let d = code - 48;
        if acc > 429_496_729 || (acc == 429_496_729 && d > 5) {
            proof {
                assert(s@.take(i + 1).drop_last() =~= s@.take(i as int));
                assert(s@.take(i + 1).last() == s@[i as int]);
                lemma_dec_value_prefix(s@, i + 1);
            }
            return None;
        }
        acc = acc * 10 + d;
        proof {
            assert(s@.take(i + 1).drop_last() =~= s@.take(i as int));
            assert(s@.take(i + 1).last() == s@[i as int]);
        }
        i += 1;
    }
    proof {
        assert(s@.take(n as int) =~= s@);
    }
    Some(acc)
}

/// What a `year-month-day` text denotes: the three fields around the
/// first two `-` separators, each a number of decimal digits, the year
/// fitting a signed and the month and day an unsigned machine word.
pub open spec fn ymd_spec(s: Seq<char>) -> Option<(int, int, int)> {
    match find_from(s, seq!['-'], 0) {
        Option::None => None,
        Option::Some(i) => {
            let ypart = s.take(i);
            let rest = s.skip(i + 1);
            match find_from(rest, seq!['-'], 0) {
                Option::None => None,
                Option::Some(j) => {
                    let mpart = rest.take(j);
                    let dpart = rest.skip(j + 1);
                    if all_digits(ypart) && all_digits(mpart) && all_digits(dpart) && dec_value(
                        ypart,
                    ) <= i32::MAX && dec_value(mpart) <= u32::MAX && dec_value(dpart)
                        <= u32::MAX {
                        Some((dec_value(ypart) as int, dec_value(mpart) as int, dec_value(dpart) as int))
                    } else {
                        None
                    }
                },
            }
        },
    }
}

/// Reads a `year-month-day` date into its three numeric fields.
pub fn parse_year_month_date_from_str(date: &str) -> (r: Option<(i32, u32, u32)>)
    ensures
        match r {
            Some(ymd) => ymd_spec(date@) == Some(
                (ymd.0 as int, ymd.1 as int, ymd.2 as int),
            ),
            None => ymd_spec(date@) is None,
        },
{
    let n = date.unicode_len();
    let dash = "-";
    proof {
        reveal_strlit("-");
        assert(dash@ =~= seq!['-']);
    }
    let i = match find_pat(date, dash, 0) {
        None => {
            return None;
        },
        Some(i) => i,
    };
    proof {
        lemma_find_from_some(date@, seq!['-'], 0, i as int);
    }
    let ypart = date.substring_char(0, i);
    let rest = date.substring_char(i + 1, n);
    proof {
        assert(ypart@ =~= date@.take(i as int));
        assert(rest@ =~= date@.skip(i + 1int));
    }
    let rn = rest.unicode_len();
    let j = match find_pat(rest, dash, 0) {
        None => {
            return None;
        },
        Some(j) => j,
    };
    proof {
        lemma_find_from_some(rest@, seq!['-'], 0, j as int);
    }
    let mpart = rest.substring_char(0, j);
    let dpart = rest.substring_char(j + 1, rn);
    proof {
        assert(mpart@ =~= rest@.take(j as int));
        assert(dpart@ =~= rest@.skip(j + 1int));
    }
    let year = match parse_u32_digits(ypart) {
        None => {
            return None;
        },
        Some(y) => y,
    };
    if year > 0x7fff_ffff {
        return None;
    }
    let month = match parse_u32_digits(mpart) {
        None => {
            return None;
        },
        Some(m) => m,
    };
    let day = match parse_u32_digits(dpart) {
        None => {
            return None;
        },
        Some(d) => d,
    };
    Some((year as i32, month, day))
}

} // verus!
