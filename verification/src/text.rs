//! Verified character-level string utilities: substring search, splitting,
//! trimming and joining, shared by the alias store and the classification
//! pipeline.

use vstd::prelude::*;

verus! {

/// `needle` occurs as a contiguous run of `hay` starting at position `i`.
pub open spec fn matches_at(hay: Seq<char>, needle: Seq<char>, i: int) -> bool {
    0 <= i && i + needle.len() <= hay.len() && hay.subrange(i, i + needle.len()) == needle
}

/// `needle` occurs somewhere in `hay`; the meaning of `str::contains`.
pub open spec fn spec_contains(hay: Seq<char>, needle: Seq<char>) -> bool {
    exists|i: int| matches_at(hay, needle, i)
}

/// Whether `needle` sits at position `i` of `hay`.
fn occurs_at(hay: &str, needle: &str, i: usize) -> (r: bool)
    requires
        i + needle@.len() <= hay@.len(),
    ensures
        r == matches_at(hay@, needle@, i as int),
{
    let hl = hay.unicode_len();
    let n = needle.unicode_len();
    let mut j: usize = 0;
    while j < n
        invariant
            j <= n,
            n == needle@.len(),
            hl == hay@.len(),
            i + n <= hl,
            forall|k: int| 0 <= k < j ==> hay@[i + k] == needle@[k],
        decreases n - j,
    {
        if hay.get_char(i + j) != needle.get_char(j) {
            assert(!matches_at(hay@, needle@, i as int)) by {
                if matches_at(hay@, needle@, i as int) {
                    assert(hay@.subrange(i as int, i + needle@.len())[j as int] == hay@[i + j]);
                }
            }
            return false;
        }
        j += 1;
    }
    assert(hay@.subrange(i as int, i + needle@.len()) =~= needle@);
    true
}

/// Whether `hay` contains `needle` anywhere.
pub fn contains_sub(hay: &str, needle: &str) -> (r: bool)
    ensures
        r == spec_contains(hay@, needle@),
{
    let h = hay.unicode_len();
    let n = needle.unicode_len();
    if n > h {
        return false;
    }
    if n == 0 {
        assert(hay@.subrange(0, 0) =~= needle@);
        assert(matches_at(hay@, needle@, 0));
        return true;
    }
    let mut i: usize = 0;
    while i <= h - n
        invariant
            1 <= n <= h,
            h == hay@.len(),
            n == needle@.len(),
            i <= h - n + 1,
            forall|k: int| 0 <= k < i ==> !matches_at(hay@, needle@, k),
        decreases h - n - i + 1,
    {
        if occurs_at(hay, needle, i) {
            assert(matches_at(hay@, needle@, i as int));
            return true;
        }
        i += 1;
    }
    false
}

/// Position of the first occurrence of `needle` in `hay` at or after `i`.
pub open spec fn find_from(hay: Seq<char>, needle: Seq<char>, i: int) -> Option<int>
    decreases hay.len() - i + 1,
{
    if i < 0 || i + needle.len() > hay.len() {
        None
    } else if matches_at(hay, needle, i) {
        Some(i)
    } else {
        find_from(hay, needle, i + 1)
    }
}

/// What `find_from` returns is the leftmost occurrence at or after `i`.
pub proof fn lemma_find_from(hay: Seq<char>, needle: Seq<char>, i: int)
    requires
        0 <= i,
    ensures
        match find_from(hay, needle, i) {
            Some(j) => i <= j && matches_at(hay, needle, j) && forall|k: int|
                i <= k < j ==> !matches_at(hay, needle, k),
            None => forall|k: int| i <= k ==> !matches_at(hay, needle, k),
        },
    decreases hay.len() - i + 1,
{
    if i + needle.len() > hay.len() {
        assert forall|k: int| i <= k implies !matches_at(hay, needle, k) by {}
    } else if matches_at(hay, needle, i) {
    } else {
        lemma_find_from(hay, needle, i + 1);
    }
}

/// First occurrence of `needle` in `hay` at or after char position `from`.
pub fn find_sub_from(hay: &str, needle: &str, from: usize) -> (r: Option<usize>)
    ensures
        match r {
            Some(j) => find_from(hay@, needle@, from as int) == Some(j as int),
            None => find_from(hay@, needle@, from as int) is None,
        },
{
    let h = hay.unicode_len();
    let n = needle.unicode_len();
    if n > h || from > h - n {
        return None;
    }
    if n == 0 {
        assert(hay@.subrange(from as int, from as int) =~= needle@);
        return Some(from);
    }
    let mut i: usize = from;
    loop
        invariant
            from <= i,
            1 <= n <= h,
            i <= h - n + 1,
            h == hay@.len(),
            n == needle@.len(),
            find_from(hay@, needle@, from as int) == find_from(hay@, needle@, i as int),
        decreases h - i + 1,
    {
        if i > h - n {
            return None;
        }
        if occurs_at(hay, needle, i) {
            return Some(i);
        }
        i += 1;
    }
}

/// Position of the first occurrence of the character `c` at or after `i`.
pub open spec fn find_char_from(s: Seq<char>, c: char, i: int) -> Option<int>
    decreases s.len() - i + 1,
{
    if i < 0 || i >= s.len() {
        None
    } else if s[i] == c {
        Some(i)
    } else {
        find_char_from(s, c, i + 1)
    }
}

/// First occurrence of the character `c` in `s`.
pub fn find_char(s: &str, c: char) -> (r: Option<usize>)
    ensures
        match r {
            Some(j) => find_char_from(s@, c, 0) == Some(j as int),
            None => find_char_from(s@, c, 0) is None,
        },
{
    let n = s.unicode_len();
    let mut i: usize = 0;
    while i < n
        invariant
            i <= n,
            n == s@.len(),
            find_char_from(s@, c, 0) == find_char_from(s@, c, i as int),
        decreases n - i,
    {
        if s.get_char(i) == c {
            return Some(i);
        }
        i += 1;
    }
    None
}

/// The pieces of `s` between the non-overlapping occurrences of `sep`,
/// leftmost first; the meaning of `str::split` with a string pattern.
pub open spec fn spec_split(s: Seq<char>, sep: Seq<char>) -> Seq<Seq<char>>
    decreases s.len(),
        when sep.len() > 0
        via spec_split_decreases
{
    match find_from(s, sep, 0) {
        None => seq![s],
        Some(i) => seq![s.subrange(0, i)] + spec_split(
            s.subrange(i + sep.len(), s.len() as int),
            sep,
        ),
    }
}

#[via_fn]
proof fn spec_split_decreases(s: Seq<char>, sep: Seq<char>) {
    if sep.len() > 0 && find_from(s, sep, 0) is Some {
        lemma_find_from(s, sep, 0);
    }
}

/// Split `s` at every occurrence of `sep`.
pub fn split_terms(s: &str, sep: &str) -> (r: Vec<String>)
    requires
        sep@.len() > 0,
    ensures
        r.deep_view() == spec_split(s@, sep@),
    decreases s@.len(),
{
    match find_sub_from(s, sep, 0) {
        None => {
            let mut v: Vec<String> = Vec::new();
            v.push(s.to_owned());
            proof {
                assert(v.deep_view() =~= spec_split(s@, sep@));
            }
            v
        },
        Some(i) => {
            proof {
                lemma_find_from(s@, sep@, 0);
            }
            let sl = s.unicode_len();
            let spl = sep.unicode_len();
            let head = s.substring_char(0, i);
            let rest = s.substring_char(i + spl, sl);
            let mut v = split_terms(rest, sep);
            v.insert(0, head.to_owned());
            proof {
                assert(v.deep_view() =~= spec_split(s@, sep@));
            }
            v
        },
    }
}

/// Unicode whitespace: the characters `char::is_whitespace` accepts.
pub open spec fn is_wspace(c: char) -> bool {
    c == ' ' || c == '\t' || c == '\n' || c == '\r' || c == '\u{b}' || c == '\u{c}' || c
        == '\u{85}' || c == '\u{a0}' || c == '\u{1680}' || ('\u{2000}' <= c && c <= '\u{200a}') || c
        == '\u{2028}' || c == '\u{2029}' || c == '\u{202f}' || c == '\u{205f}' || c == '\u{3000}'
}

/// Runtime test for [`is_wspace`].
pub fn is_wspace_char(c: char) -> (r: bool)
    ensures
        r == is_wspace(c),
{
    c == ' ' || c == '\t' || c == '\n' || c == '\r' || c == '\u{b}' || c == '\u{c}' || c
        == '\u{85}' || c == '\u{a0}' || c == '\u{1680}' || ('\u{2000}' <= c && c <= '\u{200a}') || c
        == '\u{2028}' || c == '\u{2029}' || c == '\u{202f}' || c == '\u{205f}' || c == '\u{3000}'
}

/// First position at or after `i` holding a non-whitespace character.
pub open spec fn ws_prefix_end(s: Seq<char>, i: int) -> int
    decreases s.len() - i,
        when 0 <= i <= s.len()
{
    if i < s.len() && is_wspace(s[i]) {
        ws_prefix_end(s, i + 1)
    } else {
        i
    }
}

/// Position after the last non-whitespace character strictly before `j`.
pub open spec fn ws_suffix_start(s: Seq<char>, j: int) -> int
    decreases j,
        when 0 <= j <= s.len()
{
    if j > 0 && is_wspace(s[j - 1]) {
        ws_suffix_start(s, j - 1)
    } else {
        j
    }
}

/// `s` with leading and trailing whitespace removed; the meaning of
/// `str::trim`.
pub open spec fn spec_trim(s: Seq<char>) -> Seq<char> {
    let a = ws_prefix_end(s, 0);
    let b = ws_suffix_start(s, s.len() as int);
    if a <= b {
        s.subrange(a, b)
    } else {
        Seq::empty()
    }
}

/// Strip leading and trailing whitespace.
pub fn trim_str(s: &str) -> (r: &str)
    ensures
        r@ == spec_trim(s@),
{
    let n = s.unicode_len();
    let mut a: usize = 0;
    while a < n && is_wspace_char(s.get_char(a))
        invariant
            a <= n,
            n == s@.len(),
            ws_prefix_end(s@, 0) == ws_prefix_end(s@, a as int),
        decreases n - a,
    {
        a += 1;
    }
    assert(ws_prefix_end(s@, 0) == a as int);
    if a == n {
        let r = s.substring_char(n, n);
        proof {
            lemma_ws_suffix_start(s@, s@.len() as int);
            assert(r@ =~= spec_trim(s@));
        }
        return r;
    }
    let mut b: usize = n;
    while b > a && is_wspace_char(s.get_char(b - 1))
        invariant
            a < b <= n,
            a < n,
            n == s@.len(),
            !is_wspace(s@[a as int]),
            ws_suffix_start(s@, n as int) == ws_suffix_start(s@, b as int),
        decreases b,
    {
        b -= 1;
    }
    assert(ws_suffix_start(s@, n as int) == b as int);
    s.substring_char(a, b)
}

/// Bounds of [`ws_suffix_start`].
pub proof fn lemma_ws_suffix_start(s: Seq<char>, j: int)
    requires
        0 <= j <= s.len(),
    ensures
        0 <= ws_suffix_start(s, j) <= j,
    decreases j,
{
    if j > 0 && is_wspace(s[j - 1]) {
        lemma_ws_suffix_start(s, j - 1);
    }
}

/// The strings of `ss` concatenated with `sep` between neighbours.
pub open spec fn spec_join(ss: Seq<Seq<char>>, sep: Seq<char>) -> Seq<char>
    decreases ss.len(),
{
    if ss.len() == 0 {
        Seq::empty()
    } else if ss.len() == 1 {
        ss[0]
    } else {
        ss[0] + sep + spec_join(ss.subrange(1, ss.len() as int), sep)
    }
}

/// A join grows at the back one element at a time.
pub proof fn lemma_join_last(ss: Seq<Seq<char>>, sep: Seq<char>)
    requires
        ss.len() >= 2,
    ensures
        spec_join(ss, sep) == spec_join(ss.drop_last(), sep) + sep + ss.last(),
    decreases ss.len(),
{
    let tail = ss.subrange(1, ss.len() as int);
    if ss.len() == 2 {
        assert(ss.drop_last() =~= seq![ss[0]]);
        assert(tail =~= seq![ss[1]]);
        assert(spec_join(tail, sep) == ss[1]);
        assert(spec_join(ss.drop_last(), sep) == ss[0]);
    } else {
        lemma_join_last(tail, sep);
        assert(tail.drop_last() =~= ss.drop_last().subrange(1, ss.drop_last().len() as int));
        assert(ss[0] + sep + (spec_join(tail.drop_last(), sep) + sep + tail.last()) =~= (ss[0] + sep
            + spec_join(tail.drop_last(), sep)) + sep + ss.last());
    }
}

/// Concatenate the strings of `v` with `sep` between neighbours.
pub fn join_strings(v: &Vec<String>, sep: &str) -> (r: String)
    ensures
        r@ == spec_join(v.deep_view(), sep@),
{
    let ghost ss = v.deep_view();
    let mut r = String::new();
    let mut i: usize = 0;
    while i < v.len()
        invariant
            i <= v@.len(),
            ss == v.deep_view(),
            r@ == spec_join(ss.take(i as int), sep@),
        decreases v@.len() - i,
    {
        if i > 0 {
            r.append(sep);
        }
        r.append(v[i].as_str());
        proof {
            let t = ss.take(i + 1);
            assert(t.drop_last() =~= ss.take(i as int));
            if i == 0 {
                assert(t =~= seq![ss[0]]);
                assert(r@ =~= spec_join(t, sep@));
            } else {
                lemma_join_last(t, sep@);
                assert(r@ =~= spec_join(ss.take(i as int), sep@) + sep@ + ss[i as int]);
            }
        }
        i += 1;
    }
    proof {
        assert(ss.take(v@.len() as int) =~= ss);
    }
    r
}

/// A join's first character is the first piece's first character, and its
/// last character is the last piece's last character.
pub proof fn lemma_join_ends(ss: Seq<Seq<char>>, sep: Seq<char>)
    requires
        ss.len() >= 1,
        ss[0].len() >= 1,
        ss.last().len() >= 1,
    ensures
        spec_join(ss, sep).len() >= 1,
        spec_join(ss, sep)[0] == ss[0][0],
        spec_join(ss, sep).last() == ss.last().last(),
    decreases ss.len(),
{
    if ss.len() >= 2 {
        lemma_join_last(ss, sep);
        let front = ss.drop_last();
        let j = spec_join(front, sep) + sep + ss.last();
        assert(j.last() == ss.last().last());
        if front.len() == 1 {
            assert(spec_join(front, sep) == front[0]);
            assert(j[0] == ss[0][0]);
        } else {
            lemma_join_ends_first(front, sep);
            assert(j[0] == spec_join(front, sep)[0]);
        }
    }
}

/// A join's first character, for a non-empty first piece.
proof fn lemma_join_ends_first(ss: Seq<Seq<char>>, sep: Seq<char>)
    requires
        ss.len() >= 1,
        ss[0].len() >= 1,
    ensures
        spec_join(ss, sep).len() >= 1,
        spec_join(ss, sep)[0] == ss[0][0],
    decreases ss.len(),
{
}

/// Splitting undoes joining: with a two-character separator of distinct
/// characters that no piece contains, the pieces come back exactly, in
/// order.
pub proof fn lemma_split_join(ms: Seq<Seq<char>>, sep: Seq<char>)
    requires
        ms.len() >= 1,
        sep.len() == 2,
        sep[0] != sep[1],
        forall|k: int| 0 <= k < ms.len() ==> !spec_contains(#[trigger] ms[k], sep),
    ensures
        spec_split(spec_join(ms, sep), sep) == ms,
    decreases ms.len(),
{
    let j = spec_join(ms, sep);
    if ms.len() == 1 {
        assert(j == ms[0]);
        match find_from(j, sep, 0) {
            Some(x) => {
                lemma_find_from(j, sep, 0);
                assert(matches_at(ms[0], sep, x));
                assert(spec_contains(ms[0], sep));
                assert(!spec_contains(ms[0], sep));
            },
            None => {},
        }
        assert(spec_split(j, sep) =~= ms);
    } else {
        let m0 = ms[0];
        let rest = ms.subrange(1, ms.len() as int);
        let jr = spec_join(rest, sep);
        let k = m0.len() as int;
        assert(j == m0 + sep + jr);
        assert forall|t: int| 0 <= t < j.len() implies j[t] == (if t < k {
            m0[t]
        } else if t < k + 2 {
            sep[t - k]
        } else {
            jr[t - k - 2]
        }) by {}
        assert(matches_at(j, sep, k)) by {
            assert(j.subrange(k, k + 2) =~= sep);
        }
        assert forall|t: int| 0 <= t < k implies !matches_at(j, sep, t) by {
            if matches_at(j, sep, t) {
                assert(j.subrange(t, t + 2)[0] == j[t]);
                assert(j.subrange(t, t + 2)[1] == j[t + 1]);
                if t + 1 < k {
                    assert(m0.subrange(t, t + 2) =~= sep);
                    assert(matches_at(m0, sep, t));
                    assert(spec_contains(m0, sep));
                    assert(!spec_contains(ms[0], sep));
                } else {
                    assert(j[t + 1] == sep[0]);
                    assert(j[t + 1] == sep[1]);
                }
            }
        }
        lemma_find_from(j, sep, 0);
        match find_from(j, sep, 0) {
            None => {
                assert(matches_at(j, sep, k));
            },
            Some(x) => {
                assert(!(x < k));
                assert(!(x > k)) by {
                    if x > k {
                        assert(!matches_at(j, sep, k));
                    }
                }
                assert(x == k);
                let tail = j.subrange(k + 2, j.len() as int);
                assert(tail =~= jr);
                assert forall|t: int| 0 <= t < rest.len() implies !spec_contains(
                    #[trigger] rest[t],
                    sep,
                ) by {
                    assert(rest[t] == ms[t + 1]);
                }
                lemma_split_join(rest, sep);
                assert(j.subrange(0, k) =~= m0);
                assert(spec_split(j, sep) =~= ms);
            },
        }
    }
}

/// An ASCII decimal digit.
pub open spec fn is_digit(c: char) -> bool {
    '0' <= c && c <= '9'
}

/// The value of an ASCII decimal digit.
pub open spec fn digit_val(c: char) -> int {
    c as int - '0' as int
}

/// `s` is a non-empty run of ASCII decimal digits.
pub open spec fn all_digits(s: Seq<char>) -> bool {
    forall|i: int| 0 <= i < s.len() ==> is_digit(#[trigger] s[i])
}

/// The number a run of decimal digits denotes.
pub open spec fn digits_val(s: Seq<char>) -> int
    decreases s.len(),
{
    if s.len() == 0 {
        0
    } else {
        digits_val(s.drop_last()) * 10 + digit_val(s.last())
    }
}

/// A digit run denotes a value no smaller than any of its prefixes denote.
pub proof fn lemma_digits_val_bounds(s: Seq<char>, k: int)
    requires
        all_digits(s),
        0 <= k <= s.len(),
    ensures
        0 <= digits_val(s.take(k)) <= digits_val(s),
    decreases s.len() - k,
{
    if k == s.len() {
        assert(s.take(k) =~= s);
        lemma_digits_val_nonneg(s);
    } else {
        lemma_digits_val_bounds(s, k + 1);
        let t = s.take(k + 1);
        assert(t.drop_last() =~= s.take(k));
        lemma_digits_val_nonneg(s.take(k));
        assert(digits_val(s.take(k)) <= digits_val(s.take(k)) * 10 + digit_val(t.last()));
    }
}

/// A digit run denotes a non-negative value.
pub proof fn lemma_digits_val_nonneg(s: Seq<char>)
    requires
        all_digits(s),
    ensures
        digits_val(s) >= 0,
    decreases s.len(),
{
    if s.len() > 0 {
        assert(all_digits(s.drop_last()));
        lemma_digits_val_nonneg(s.drop_last());
    }
}

/// The value `str::parse::<i64>` accepts for `s`: an optional sign, then one
/// or more decimal digits, denoting a value in the range of `i64`.
pub open spec fn parse_i64_spec(s: Seq<char>) -> Option<int> {
    let signed = s.len() > 0 && (s[0] == '+' || s[0] == '-');
    let sign: int = if s.len() > 0 && s[0] == '-' {
        -1
    } else {
        1
    };
    let ds = if signed {
        s.subrange(1, s.len() as int)
    } else {
        s
    };
    if ds.len() > 0 && all_digits(ds) {
        let v = sign * digits_val(ds);
        if i64::MIN <= v <= i64::MAX {
            Some(v)
        } else {
            None
        }
    } else {
        None
    }
}

/// Parse a signed decimal integer as `str::parse::<i64>` does.
#[verifier::rlimit(30)]
pub fn parse_i64(s: &str) -> (r: Option<i64>)
    ensures
        match r {
            Some(v) => parse_i64_spec(s@) == Some(v as int),
            None => parse_i64_spec(s@) is None,
        },
{
    let n = s.unicode_len();
    if n == 0 {
        return None;
    }
    let c0 = s.get_char(0);
    let signed = c0 == '+' || c0 == '-';
    let neg = c0 == '-';
    let start: usize = if signed {
        1
    } else {
        0
    };
    let ghost ds = if signed {
        s@.subrange(1, s@.len() as int)
    } else {
        s@
    };
    if n == start {
        return None;
    }
    let mut mag: u64 = 0;
    let mut i: usize = start;
    while i < n
        invariant
            start <= i <= n,
            n == s@.len(),
            n > 0,
            signed == (s@[0] == '+' || s@[0] == '-'),
            neg == (s@[0] == '-'),
            start == if signed {
                1int
            } else {
                0int
            },
            ds == if signed {
                s@.subrange(1, s@.len() as int)
            } else {
                s@
            },
            all_digits(ds.take(i - start)),
            mag == digits_val(ds.take(i - start)),
        decreases n - i,
    {
        let c = s.get_char(i);
        assert(s@[i as int] == ds[i - start]);
        if !(c >= '0' && c <= '9') {
            assert(!is_digit(ds[i - start]));
            assert(!all_digits(ds));
            return None;
        }
        let d: u64 = (c as u32 - '0' as u32) as u64;
        assert(d == digit_val(ds[i - start]));
        let next = match mag.checked_mul(10) {
            Some(m10) => m10.checked_add(d),
            None => None,
        };
        match next {
            Some(m) => {
                proof {
                    let k = i - start;
                    let t = ds.take(k + 1);
                    assert(t.drop_last() =~= ds.take(k));
                    assert(t.last() == ds[k]);
                    assert(is_digit(ds[k]));
                    assert forall|j: int| 0 <= j < t.len() implies is_digit(t[j]) by {
                        if j < k {
                            assert(t[j] == ds.take(k)[j]);
                        } else {
                            assert(t[j] == ds[k]);
                        }
                    }
                    assert(digits_val(t) == digits_val(ds.take(k)) * 10 + digit_val(t.last()));
                }
                mag = m;
                i += 1;
            },
            None => {
                proof {
                    let k = i - start;
                    if ds.len() > 0 && all_digits(ds) {
                        lemma_digits_val_bounds(ds, k + 1);
                        let t = ds.take(k + 1);
                        assert(t.drop_last() =~= ds.take(k));
                        assert(t.last() == ds[k]);
                        assert(digits_val(t) == mag * 10 + digit_val(ds[k]));
                        assert(mag * 10 + d > u64::MAX);
                        let dv = digits_val(ds);
                        assert(dv > u64::MAX);
                        if s@[0] == '-' {
                            assert(-1 * dv == -dv);
                            assert(!(i64::MIN <= -1 * dv <= i64::MAX));
                        } else {
                            assert(1 * dv == dv);
                            assert(!(i64::MIN <= 1 * dv <= i64::MAX));
                        }
                        assert(parse_i64_spec(s@) is None);
                    }
                }
                return None;
            },
        }
    }
    proof {
        assert(ds.take(i - start) =~= ds);
        assert(mag == digits_val(ds));
        assert(ds.len() > 0 && all_digits(ds));
        let dv = digits_val(ds);
        assert(-1 * dv == -dv);
        assert(1 * dv == dv);
    }
    if neg {
        if mag <= 0x7fff_ffff_ffff_ffffu64 {
            assert(parse_i64_spec(s@) == Some(-(mag as int)));
            Some(-(mag as i64))
        } else if mag == 0x8000_0000_0000_0000u64 {
            assert(parse_i64_spec(s@) == Some(i64::MIN as int));
            Some(i64::MIN)
        } else {
            assert(parse_i64_spec(s@) is None);
            None
        }
    } else {
        if mag <= 0x7fff_ffff_ffff_ffffu64 {
            assert(parse_i64_spec(s@) == Some(mag as int));
            Some(mag as i64)
        } else {
            assert(parse_i64_spec(s@) is None);
            None
        }
    }
}

/// Some string of `ss` equals `x`.
pub open spec fn seq_has(ss: Seq<Seq<char>>, x: Seq<char>) -> bool {
    exists|i: int| 0 <= i < ss.len() && ss[i] == x
}

/// Whether some element of `v` equals the string `x`.
pub fn vec_has(v: &Vec<String>, x: &String) -> (r: bool)
    ensures
        r == seq_has(v.deep_view(), x@),
{
    let mut i: usize = 0;
    while i < v.len()
        invariant
            i <= v@.len(),
            forall|k: int| 0 <= k < i ==> v.deep_view()[k] != x@,
        decreases v@.len() - i,
    {
        if v[i].eq(x) {
            assert(v.deep_view()[i as int] == x@);
            return true;
        }
        i += 1;
    }
    false
}

} // verus!
