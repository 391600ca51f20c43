//! Verified text utilities shared by the solvers: splitting a puzzle input
//! into lines, tokens and fields, and reading decimal numbers.
use vstd::prelude::*;
use vstd::string::StrSliceExecFns;

verus! {

/// The smaller of two integers.
pub open spec fn imin(a: int, b: int) -> int {
    if a <= b {
        a
    } else {
        b
    }
}

/// A decimal digit.
pub open spec fn is_digit_char(c: char) -> bool {
    48 <= c as u32 && c as u32 <= 57
}

/// The value of a decimal digit.
pub open spec fn digit_val(c: char) -> nat {
    (c as u32 - 48) as nat
}

/// A Unicode whitespace character, as `char::is_whitespace` classifies them.
pub open spec fn is_ws_char(c: char) -> bool {
    ||| (9 <= c as u32 && c as u32 <= 13)
    ||| c as u32 == 32
    ||| c as u32 == 0x85
    ||| c as u32 == 0xA0
    ||| c as u32 == 0x1680
    ||| (0x2000 <= c as u32 && c as u32 <= 0x200A)
    ||| c as u32 == 0x2028
    ||| c as u32 == 0x2029
    ||| c as u32 == 0x202F
    ||| c as u32 == 0x205F
    ||| c as u32 == 0x3000
}

pub fn is_digit(c: char) -> (r: bool)
    ensures
        r == is_digit_char(c),
{
    let u = c as u32;
    48 <= u && u <= 57
}

pub fn is_ws(c: char) -> (r: bool)
    ensures
        r == is_ws_char(c),
{
    let u = c as u32;
    (9 <= u && u <= 13) || u == 32 || u == 0x85 || u == 0xA0 || u == 0x1680 || (0x2000 <= u && u
        <= 0x200A) || u == 0x2028 || u == 0x2029 || u == 0x202F || u == 0x205F || u == 0x3000
}

/// Index of the first occurrence of `c` in `s`, or `s.len()` if there is none.
pub open spec fn first_occ(s: Seq<char>, c: char) -> nat
    decreases s.len(),
{
    if s.len() == 0 {
        0
    } else if s[0] == c {
        0
    } else {
        1 + first_occ(s.drop_first(), c)
    }
}

pub proof fn lemma_first_occ(s: Seq<char>, c: char)
    ensures
        first_occ(s, c) <= s.len(),
        first_occ(s, c) < s.len() ==> s[first_occ(s, c) as int] == c,
        forall|k: int| 0 <= k < first_occ(s, c) ==> s[k] != c,
    decreases s.len(),
{
    if s.len() > 0 && s[0] != c {
        lemma_first_occ(s.drop_first(), c);
        assert forall|k: int| 0 <= k < first_occ(s, c) implies s[k] != c by {
            if k > 0 {
                assert(s.drop_first()[k - 1] == s[k]);
            }
        }
    }
}

/// Where the first occurrence is known, `first_occ` returns it.
pub proof fn lemma_first_occ_is(s: Seq<char>, c: char, k: int)
    requires
        0 <= k <= s.len(),
        forall|j: int| 0 <= j < k ==> s[j] != c,
        k < s.len() ==> s[k] == c,
    ensures
        k < s.len() ==> first_occ(s, c) == k,
        k == s.len() ==> first_occ(s, c) == s.len(),
{
    lemma_first_occ(s, c);
    let fo = first_occ(s, c) as int;
    if k < s.len() {
        if fo < k {
            assert(s[fo] != c);
        }
        if fo > k {
            assert(s[k] != c);
        }
    } else {
        if fo < k {
            assert(s[fo] != c);
        }
    }
}

/// Index of the first whitespace character in `s`, or `s.len()` if there is none.
pub open spec fn first_ws(s: Seq<char>) -> nat
    decreases s.len(),
{
    if s.len() == 0 {
        0
    } else if is_ws_char(s[0]) {
        0
    } else {
        1 + first_ws(s.drop_first())
    }
}

pub proof fn lemma_first_ws(s: Seq<char>)
    ensures
        first_ws(s) <= s.len(),
        first_ws(s) < s.len() ==> is_ws_char(s[first_ws(s) as int]),
        forall|k: int| 0 <= k < first_ws(s) ==> !is_ws_char(s[k]),
    decreases s.len(),
{
    if s.len() > 0 && !is_ws_char(s[0]) {
        lemma_first_ws(s.drop_first());
        assert forall|k: int| 0 <= k < first_ws(s) implies !is_ws_char(s[k]) by {
            if k > 0 {
                assert(s.drop_first()[k - 1] == s[k]);
            }
        }
    }
}

pub proof fn lemma_first_ws_is(s: Seq<char>, k: int)
    requires
        0 <= k <= s.len(),
        forall|j: int| 0 <= j < k ==> !is_ws_char(s[j]),
        k < s.len() ==> is_ws_char(s[k]),
    ensures
        k < s.len() ==> first_ws(s) == k,
        k == s.len() ==> first_ws(s) == s.len(),
{
    lemma_first_ws(s);
    let fo = first_ws(s) as int;
    if k < s.len() {
        if fo < k {
            assert(!is_ws_char(s[fo]));
        }
        if fo > k {
            assert(!is_ws_char(s[k]));
        }
    } else {
        if fo < k {
            assert(!is_ws_char(s[fo]));
        }
    }
}

/// `pat` occurs in `s` starting at position `k`.
pub open spec fn match_at(s: Seq<char>, pat: Seq<char>, k: int) -> bool {
    0 <= k && k + pat.len() <= s.len() && s.subrange(k, k + pat.len()) == pat
}

/// Index of the leftmost occurrence of `pat` in `s`, or `s.len()` if there is none.
pub open spec fn first_match(s: Seq<char>, pat: Seq<char>) -> nat
    decreases s.len(),
{
    if pat.len() == 0 {
        0
    } else if s.len() < pat.len() {
        s.len()
    } else if s.subrange(0, pat.len() as int) == pat {
        0
    } else {
        1 + first_match(s.drop_first(), pat)
    }
}

pub proof fn lemma_first_match(s: Seq<char>, pat: Seq<char>)
    requires
        pat.len() >= 1,
    ensures
        first_match(s, pat) <= s.len(),
        first_match(s, pat) < s.len() ==> match_at(s, pat, first_match(s, pat) as int),
        forall|k: int| 0 <= k < first_match(s, pat) ==> !match_at(s, pat, k),
    decreases s.len(),
{
    if s.len() < pat.len() {
        assert forall|k: int| 0 <= k < first_match(s, pat) implies !match_at(s, pat, k) by {}
    } else if s.subrange(0, pat.len() as int) == pat {
    } else {
        lemma_first_match(s.drop_first(), pat);
        let t = s.drop_first();
        let fm = first_match(s, pat) as int;
        assert(first_match(s, pat) == 1 + first_match(t, pat));
        if fm < s.len() {
            assert(match_at(t, pat, fm - 1));
            assert(s.subrange(fm, fm + pat.len() as int) =~= t.subrange(
                fm - 1,
                fm - 1 + pat.len() as int,
            ));
        }
        assert forall|k: int| 0 <= k < fm implies !match_at(s, pat, k) by {
            if k == 0 {
                assert(s.subrange(0, pat.len() as int) != pat);
            } else {
                assert(!match_at(t, pat, k - 1));
                if match_at(s, pat, k) {
                    assert(s.subrange(k, k + pat.len() as int) =~= t.subrange(
                        k - 1,
                        k - 1 + pat.len() as int,
                    ));
                }
            }
        }
    }
}

pub proof fn lemma_first_match_is(s: Seq<char>, pat: Seq<char>, k: int)
    requires
        pat.len() >= 1,
        0 <= k <= s.len(),
        forall|j: int| 0 <= j < k ==> !match_at(s, pat, j),
        k < s.len() ==> match_at(s, pat, k),
    ensures
        k < s.len() ==> first_match(s, pat) == k,
        k == s.len() ==> first_match(s, pat) == s.len(),
{
    lemma_first_match(s, pat);
    let fm = first_match(s, pat) as int;
    if k < s.len() {
        if fm < k {
            assert(!match_at(s, pat, fm));
        }
        if fm > k {
            assert(!match_at(s, pat, k));
        }
    } else {
        if fm < k {
            assert(!match_at(s, pat, fm));
        }
    }
}

/// The pieces of `s` between occurrences of `c`, as `str::split` yields them:
/// one more piece than there are separators.
pub open spec fn spec_split_char(s: Seq<char>, c: char) -> Seq<Seq<char>>
    decreases s.len(),
{
    let n = imin(first_occ(s, c) as int, s.len() as int);
    if n == s.len() {
        seq![s]
    } else {
        seq![s.subrange(0, n)] + spec_split_char(s.subrange(n + 1, s.len() as int), c)
    }
}

/// The pieces of `s` between leftmost non-overlapping occurrences of `pat`,
/// as `str::split` with a string pattern yields them.
pub open spec fn spec_split_str(s: Seq<char>, pat: Seq<char>) -> Seq<Seq<char>>
    decreases s.len(),
{
    if pat.len() == 0 {
        seq![s]
    } else {
        let n = imin(first_match(s, pat) as int, s.len() as int);
        if n == s.len() {
            seq![s]
        } else {
            let m = imin(n + pat.len(), s.len() as int);
            seq![s.subrange(0, n)] + spec_split_str(s.subrange(m, s.len() as int), pat)
        }
    }
}

/// The maximal runs of non-whitespace characters in `s`, as
/// `str::split_whitespace` yields them.
pub open spec fn spec_split_ws(s: Seq<char>) -> Seq<Seq<char>>
    decreases s.len(),
{
    if s.len() == 0 {
        Seq::empty()
    } else if is_ws_char(s[0]) {
        spec_split_ws(s.drop_first())
    } else {
        let n = imin(first_ws(s) as int, s.len() as int);
        seq![s.subrange(0, n)] + spec_split_ws(s.subrange(n, s.len() as int))
    }
}

/// A line with one trailing carriage return removed, as `str::lines` trims
/// a piece that a line feed terminated.
pub open spec fn strip_cr(l: Seq<char>) -> Seq<char> {
    if l.len() > 0 && l[l.len() - 1] == '\r' {
        l.drop_last()
    } else {
        l
    }
}

/// The lines of `s`, as `str::lines` yields them: split at each line feed,
/// a carriage return before the line feed removed, and a final empty piece
/// after a terminating line feed dropped.
pub open spec fn spec_lines(s: Seq<char>) -> Seq<Seq<char>> {
    if s.len() == 0 {
        Seq::empty()
    } else {
        let ps = spec_split_char(s, '\n');
        let main = Seq::new((ps.len() - 1) as nat, |i: int| strip_cr(ps[i]));
        if ps.last().len() == 0 {
            main
        } else {
            main.push(ps.last())
        }
    }
}

} // verus!

verus! {

/// The views of a sequence of string slices.
pub open spec fn views_of(r: Seq<&str>) -> Seq<Seq<char>> {
    r.map_values(|t: &str| t@)
}

/// Pieces of `s` around each occurrence of `c`, as `str::split` yields them.
pub fn split_char<'a>(s: &'a str, c: char) -> (r: Vec<&'a str>)
    ensures
        views_of(r@) == spec_split_char(s@, c),
{
    let n = s.unicode_len();
    let mut r: Vec<&'a str> = Vec::new();
    let mut start: usize = 0;
    let mut i: usize = 0;
    proof {
        assert(s@.subrange(0, n as int) =~= s@);
        assert(views_of(r@) =~= Seq::<Seq<char>>::empty());
        assert(spec_split_char(s@, c) =~= views_of(r@) + spec_split_char(s@, c));
    }
    while i < n
        invariant
            n == s@.len(),
            start <= i <= n,
            forall|j: int| start <= j < i ==> s@[j] != c,
            spec_split_char(s@, c) =~= views_of(r@) + spec_split_char(
                s@.subrange(start as int, n as int),
                c,
            ),
        decreases n - i,
    {
        if s.get_char(i) == c {
            let piece = s.substring_char(start, i);
            proof {
                let t = s@.subrange(start as int, n as int);
                assert forall|j: int| 0 <= j < i - start implies t[j] != c by {
                    assert(t[j] == s@[start + j]);
                }
                assert(t[i - start] == s@[i as int]);
                lemma_first_occ_is(t, c, i - start);
                assert(t.subrange(0, i - start) =~= s@.subrange(start as int, i as int));
                assert(t.subrange(i - start + 1, t.len() as int) =~= s@.subrange(
                    i as int + 1,
                    n as int,
                ));
                assert(views_of(r@.push(piece)) =~= views_of(r@).push(piece@));
            }
            r.push(piece);
            start = i + 1;
        }
        i = i + 1;
    }
    let piece = s.substring_char(start, n);
    proof {
        let t = s@.subrange(start as int, n as int);
        assert forall|j: int| 0 <= j < t.len() implies t[j] != c by {
            assert(t[j] == s@[start + j]);
        }
        lemma_first_occ_is(t, c, t.len() as int);
        assert(views_of(r@.push(piece)) =~= views_of(r@).push(piece@));
    }
    r.push(piece);
    proof {
        assert(views_of(r@) =~= spec_split_char(s@, c));
    }
    r
}

/// A slice with one trailing carriage return removed.
pub fn strip_cr_exec<'a>(t: &'a str) -> (r: &'a str)
    ensures
        r@ == strip_cr(t@),
{
    let l = t.unicode_len();
    if l > 0 && t.get_char(l - 1) == '\r' {
        let out = t.substring_char(0, l - 1);
        proof {
            assert(out@ =~= t@.drop_last());
        }
        out
    } else {
        t
    }
}

/// The lines of `s`, as `str::lines` yields them.
pub fn split_lines<'a>(s: &'a str) -> (r: Vec<&'a str>)
    ensures
        views_of(r@) == spec_lines(s@),
{
    let mut r: Vec<&'a str> = Vec::new();
    if s.unicode_len() == 0 {
        proof {
            assert(views_of(r@) =~= spec_lines(s@));
        }
        return r;
    }
    let ps = split_char(s, '\n');
    let m = ps.len();
    proof {
        assert(spec_split_char(s@, '\n').len() >= 1);
        assert(views_of(ps@)[m - 1] == ps@[m - 1]@);
    }
    let ghost main = Seq::new((m - 1) as nat, |i: int| strip_cr(spec_split_char(s@, '\n')[i]));
    let mut k: usize = 0;
    while k < m - 1
        invariant
            m == ps@.len(),
            m >= 1,
            k <= m - 1,
            views_of(ps@) == spec_split_char(s@, '\n'),
            main == Seq::new((m - 1) as nat, |i: int| strip_cr(spec_split_char(s@, '\n')[i])),
            views_of(r@) =~= main.subrange(0, k as int),
        decreases m - 1 - k,
    {
        let piece = strip_cr_exec(ps[k]);
        proof {
            assert(ps@[k as int]@ == spec_split_char(s@, '\n')[k as int]);
            assert(views_of(r@.push(piece)) =~= views_of(r@).push(piece@));
            assert(views_of(r@).push(piece@) =~= main.subrange(0, k as int + 1));
        }
        r.push(piece);
        k = k + 1;
    }
    let last = ps[m - 1];
    proof {
        assert(last@ == spec_split_char(s@, '\n')[m - 1]);
        assert(views_of(r@) =~= main);
    }
    if last.unicode_len() > 0 {
        proof {
            assert(views_of(r@.push(last)) =~= main.push(last@));
        }
        r.push(last);
    }
    r
}

/// First index at or after `from` holding a whitespace character, or the
/// length of `s` if there is none.
pub fn next_ws(s: &str, from: usize) -> (j: usize)
    requires
        from <= s@.len(),
    ensures
        from <= j <= s@.len(),
        forall|k: int| from <= k < j ==> !is_ws_char(s@[k]),
        j < s@.len() ==> is_ws_char(s@[j as int]),
{
    let n = s.unicode_len();
    let mut j = from;
    while j < n
        invariant
            n == s@.len(),
            from <= j <= n,
            forall|k: int| from <= k < j ==> !is_ws_char(s@[k]),
        decreases n - j,
    {
        if is_ws(s.get_char(j)) {
            return j;
        }
        j = j + 1;
    }
    j
}

/// The maximal non-whitespace runs of `s`, as `str::split_whitespace`
/// yields them.
pub fn split_ws<'a>(s: &'a str) -> (r: Vec<&'a str>)
    ensures
        views_of(r@) == spec_split_ws(s@),
{
    let n = s.unicode_len();
    let mut r: Vec<&'a str> = Vec::new();
    let mut i: usize = 0;
    proof {
        assert(s@.subrange(0, n as int) =~= s@);
        assert(views_of(r@) =~= Seq::<Seq<char>>::empty());
        assert(spec_split_ws(s@) =~= views_of(r@) + spec_split_ws(s@));
    }
    while i < n
        invariant
            n == s@.len(),
            i <= n,
            spec_split_ws(s@) =~= views_of(r@) + spec_split_ws(s@.subrange(i as int, n as int)),
        decreases n - i,
    {
        let c = s.get_char(i);
        if is_ws(c) {
            proof {
                let t = s@.subrange(i as int, n as int);
                assert(t.drop_first() =~= s@.subrange(i as int + 1, n as int));
            }
            i = i + 1;
        } else {
            let j = next_ws(s, i);
            let piece = s.substring_char(i, j);
            proof {
                let t = s@.subrange(i as int, n as int);
                assert forall|k: int| 0 <= k < j - i implies !is_ws_char(t[k]) by {
                    assert(t[k] == s@[i + k]);
                }
                if j < n {
                    assert(t[j - i] == s@[j as int]);
                }
                lemma_first_ws_is(t, j - i);
                assert(t.subrange(0, j - i) =~= s@.subrange(i as int, j as int));
                assert(t.subrange(j - i, t.len() as int) =~= s@.subrange(j as int, n as int));
                assert(views_of(r@.push(piece)) =~= views_of(r@).push(piece@));
            }
            r.push(piece);
            i = j;
        }
    }
    proof {
        assert(s@.subrange(i as int, n as int).len() == 0);
        assert(views_of(r@) =~= spec_split_ws(s@));
    }
    r
}

/// Whether `pat` occurs in `s` at position `k`.
pub fn starts_with_at(s: &str, pat: &str, k: usize) -> (r: bool)
    requires
        k <= s@.len(),
    ensures
        r == match_at(s@, pat@, k as int),
{
    let n = s.unicode_len();
    let pl = pat.unicode_len();
    if n - k < pl {
        return false;
    }
    let mut j: usize = 0;
    while j < pl
        invariant
            n == s@.len(),
            pl == pat@.len(),
            k + pl <= n,
            j <= pl,
            forall|q: int| 0 <= q < j ==> s@[k + q] == pat@[q],
        decreases pl - j,
    {
        if s.get_char(k + j) != pat.get_char(j) {
            proof {
                if match_at(s@, pat@, k as int) {
                    assert(s@.subrange(k as int, k + pl as int)[j as int] == pat@[j as int]);
                }
            }
            return false;
        }
        j = j + 1;
    }
    proof {
        assert(s@.subrange(k as int, k + pl as int) =~= pat@);
    }
    true
}

/// Pieces of `s` around leftmost non-overlapping occurrences of `pat`, as
/// `str::split` with a string pattern yields them.
pub fn split_str<'a>(s: &'a str, pat: &str) -> (r: Vec<&'a str>)
    requires
        pat@.len() >= 1,
    ensures
        views_of(r@) == spec_split_str(s@, pat@),
{
    let n = s.unicode_len();
    let pl = pat.unicode_len();
    let mut r: Vec<&'a str> = Vec::new();
    let mut start: usize = 0;
    let mut i: usize = 0;
    proof {
        assert(s@.subrange(0, n as int) =~= s@);
        assert(views_of(r@) =~= Seq::<Seq<char>>::empty());
        assert(spec_split_str(s@, pat@) =~= views_of(r@) + spec_split_str(s@, pat@));
    }
    while i < n
        invariant
            n == s@.len(),
            pl == pat@.len(),
            pl >= 1,
            start <= i <= n,
            forall|k: int| 0 <= k < i - start ==> !match_at(
                s@.subrange(start as int, n as int),
                pat@,
                k,
            ),
            spec_split_str(s@, pat@) =~= views_of(r@) + spec_split_str(
                s@.subrange(start as int, n as int),
                pat@,
            ),
        decreases n - i,
    {
        if starts_with_at(s, pat, i) {
            let piece = s.substring_char(start, i);
            proof {
                let t = s@.subrange(start as int, n as int);
                assert(t.subrange(i - start, i - start + pl as int) =~= s@.subrange(
                    i as int,
                    i + pl as int,
                ));
                assert(match_at(t, pat@, i - start));
                lemma_first_match_is(t, pat@, i - start);
                assert(t.subrange(0, i - start) =~= s@.subrange(start as int, i as int));
                assert(t.subrange(i - start + pl as int, t.len() as int) =~= s@.subrange(
                    i + pl as int,
                    n as int,
                ));
                assert(views_of(r@.push(piece)) =~= views_of(r@).push(piece@));
            }
            r.push(piece);
            start = i + pl;
            i = start;
        } else {
            proof {
                let t = s@.subrange(start as int, n as int);
                if match_at(t, pat@, i - start) {
                    assert(t.subrange(i - start, i - start + pl as int) =~= s@.subrange(
                        i as int,
                        i + pl as int,
                    ));
                    assert(match_at(s@, pat@, i as int));
                }
            }
            i = i + 1;
        }
    }
    let piece = s.substring_char(start, n);
    proof {
        let t = s@.subrange(start as int, n as int);
        assert forall|k: int| 0 <= k < t.len() implies !match_at(t, pat@, k) by {}
        lemma_first_match_is(t, pat@, t.len() as int);
        assert(views_of(r@.push(piece)) =~= views_of(r@).push(piece@));
    }
    r.push(piece);
    proof {
        assert(views_of(r@) =~= spec_split_str(s@, pat@));
    }
    r
}

} // verus!

verus! {

/// Every character of `s` is a decimal digit.
pub open spec fn all_digits(s: Seq<char>) -> bool {
    forall|i: int| 0 <= i < s.len() ==> is_digit_char(s[i])
}

/// The value of `s` read as a decimal numeral.
pub open spec fn digits_val(s: Seq<char>) -> nat
    decreases s.len(),
{
    if s.len() == 0 {
        0
    } else {
        digits_val(s.drop_last()) * 10 + digit_val(s.last())
    }
}

/// A numeral's prefixes never exceed its value.
pub proof fn lemma_digits_val_mono(s: Seq<char>, k: int)
    requires
        0 <= k <= s.len(),
    ensures
        digits_val(s.subrange(0, k)) <= digits_val(s),
    decreases s.len() - k,
{
    if k == s.len() {
        assert(s.subrange(0, k) =~= s);
    } else {
        assert(s.subrange(0, k + 1).drop_last() =~= s.subrange(0, k));
        assert(s.subrange(0, k + 1).last() == s[k]);
        assert(digits_val(s.subrange(0, k)) <= digits_val(s.subrange(0, k + 1)));
        lemma_digits_val_mono(s, k + 1);
    }
}

/// Reads `t` as an unsigned decimal numeral: `Some` exactly when `t` is
/// non-empty, all digits, and its value fits in a `u32`.
pub fn parse_u32(t: &str) -> (r: Option<u32>)
    ensures
        r is Some <==> (t@.len() > 0 && all_digits(t@) && digits_val(t@) <= u32::MAX),
        r matches Some(v) ==> v == digits_val(t@),
{
    let n = t.unicode_len();
    if n == 0 {
        return None;
    }
    let mut acc: u32 = 0;
    let mut i: usize = 0;
    while i < n
        invariant
            n == t@.len(),
            i <= n,
            forall|j: int| 0 <= j < i ==> is_digit_char(t@[j]),
            acc == digits_val(t@.subrange(0, i as int)),
        decreases n - i,
    {
        let c = t.get_char(i);
        if !is_digit(c) {
            return None;
        }
        let d: u32 = (c as u32) - 48;
        proof {
            assert(t@.subrange(0, i as int + 1).drop_last() =~= t@.subrange(0, i as int));
            assert(t@.subrange(0, i as int + 1).last() == t@[i as int]);
        }
        let shifted = match acc.checked_mul(10) {
            Some(x) => x,
            None => {
                proof {
                    lemma_digits_val_mono(t@, i as int + 1);
                }
                return None;
            },
        };
        acc = match shifted.checked_add(d) {
            Some(y) => y,
            None => {
                proof {
                    lemma_digits_val_mono(t@, i as int + 1);
                }
                return None;
            },
        };
        i = i + 1;
    }
    proof {
        assert(t@.subrange(0, n as int) =~= t@);
    }
    Some(acc)
}

/// `s` has the shape of an optionally signed decimal integer, as
/// `str::parse` for the integer types accepts it.
pub open spec fn is_int_token(s: Seq<char>) -> bool {
    s.len() > 0 && (if s[0] == '-' || s[0] == '+' {
        s.len() > 1 && all_digits(s.drop_first())
    } else {
        all_digits(s)
    })
}

/// The value of an optionally signed decimal integer token.
pub open spec fn int_token_val(s: Seq<char>) -> int {
    if s.len() > 0 && s[0] == '-' {
        -(digits_val(s.drop_first()) as int)
    } else if s.len() > 0 && s[0] == '+' {
        digits_val(s.drop_first()) as int
    } else {
        digits_val(s) as int
    }
}

/// Reads `t` as a signed decimal numeral: `Some` exactly when `t` is an
/// integer token whose value fits in an `i32`.
pub fn parse_i32(t: &str) -> (r: Option<i32>)
    ensures
        r is Some <==> (is_int_token(t@) && i32::MIN <= int_token_val(t@) <= i32::MAX),
        r matches Some(v) ==> v == int_token_val(t@),
{
    let n = t.unicode_len();
    if n == 0 {
        return None;
    }
    let c0 = t.get_char(0);
    let neg = c0 == '-';
    let signed = neg || c0 == '+';
    let digits = if signed {
        t.substring_char(1, n)
    } else {
        t.substring_char(0, n)
    };
    proof {
        if signed {
            assert(digits@ =~= t@.drop_first());
        } else {
            assert(digits@ =~= t@);
        }
    }
    match parse_u32(digits) {
        None => {
            proof {
                if is_int_token(t@) && i32::MIN <= int_token_val(t@) <= i32::MAX {
                    assert(digits_val(digits@) <= u32::MAX);
                }
            }
            None
        },
        Some(mag) => {
            if neg {
                if mag <= 2147483648u32 {
                    Some((-(mag as i64)) as i32)
                } else {
                    None
                }
            } else {
                if mag <= 2147483647u32 {
                    Some(mag as i32)
                } else {
                    None
                }
            }
        },
    }
}

} // verus!
