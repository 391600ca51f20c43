//! Calibration sums: each line contributes ten times its first digit
//! plus its last digit; spelled-out digit words count after a marking
//! rewrite.
use vstd::prelude::*;
use vstd::string::StrSliceExecFns;
use vstd::string::StringExecFns;
use crate::text::digit_val;
use crate::text::first_match;
use crate::text::imin;
use crate::text::is_digit_char;
use crate::text::lemma_first_match_is;
use crate::text::match_at;
use crate::text::spec_lines;
use crate::text::split_lines;
use crate::text::starts_with_at;
use crate::text::views_of;

verus! {

/// The digits of a line, in order, as values.
pub open spec fn digits_of(s: Seq<char>) -> Seq<i32>
    decreases s.len(),
{
    if s.len() == 0 {
        Seq::empty()
    } else {
        digits_of(s.drop_last()) + (if is_digit_char(s.last()) {
            seq![(digit_val(s.last()) as i32)]
        } else {
            Seq::empty()
        })
    }
}

/// Digit values lie between zero and nine.
pub proof fn lemma_digits_of_range(s: Seq<char>)
    ensures
        forall|k: int| 0 <= k < digits_of(s).len() ==> 0 <= #[trigger] digits_of(s)[k] <= 9,
    decreases s.len(),
{
    if s.len() > 0 {
        lemma_digits_of_range(s.drop_last());
        assert forall|k: int| 0 <= k < digits_of(s).len() implies 0 <= #[trigger] digits_of(s)[k]
            <= 9 by {
            if k < digits_of(s.drop_last()).len() {
                assert(digits_of(s)[k] == digits_of(s.drop_last())[k]);
            }
        }
    }
}

/// Collects the digits of a line, in order.
pub fn find_digits(line: &str) -> (r: Vec<i32>)
    ensures
        r@ == digits_of(line@),
{
    let n = line.unicode_len();
    let mut r: Vec<i32> = Vec::new();
    let mut i: usize = 0;
    while i < n
        invariant
            n == line@.len(),
            i <= n,
            r@ == digits_of(line@.subrange(0, i as int)),
        decreases n - i,
    {
        let c = line.get_char(i);
        proof {
            assert(line@.subrange(0, i as int + 1).drop_last() =~= line@.subrange(0, i as int));
            assert(line@.subrange(0, i as int + 1).last() == line@[i as int]);
        }
        if crate::text::is_digit(c) {
            let d: i32 = ((c as u32) - 48) as i32;
            r.push(d);
            proof {
                assert(r@ =~= digits_of(line@.subrange(0, i as int + 1)));
            }
        } else {
            proof {
                assert(r@ =~= digits_of(line@.subrange(0, i as int + 1)));
            }
        }
        i = i + 1;
    }
    proof {
        assert(line@.subrange(0, n as int) =~= line@);
    }
    r
}

/// What a digit list contributes: ten times its first entry plus its last.
pub open spec fn combine_spec(digits: Seq<i32>) -> int {
    10 * digits[0] + digits.last()
}

pub fn combine_first_and_last(digits: Vec<i32>) -> (r: i32)
    requires
        digits@.len() > 0,
        i32::MIN <= 10 * digits@[0] <= i32::MAX,
        i32::MIN <= combine_spec(digits@) <= i32::MAX,
    ensures
        r == combine_spec(digits@),
{
    10 * digits[0] + digits[digits.len() - 1]
}

/// The sum of the first `upto` lines' contributions.
pub open spec fn part1_sum(lines: Seq<Seq<char>>, upto: int) -> int
    decreases upto,
{
    if upto <= 0 {
        0
    } else {
        part1_sum(lines, upto - 1) + combine_spec(digits_of(lines[upto - 1]))
    }
}

/// Every line holds at least one digit.
pub open spec fn lines_have_digits(lines: Seq<Seq<char>>) -> bool {
    forall|i: int| 0 <= i < lines.len() ==> digits_of(#[trigger] lines[i]).len() > 0
}

/// With a digit on every line, the partial sums grow from zero to the total.
pub proof fn lemma_part1_sum_bounds(lines: Seq<Seq<char>>, upto: int)
    requires
        lines_have_digits(lines),
        0 <= upto <= lines.len(),
    ensures
        0 <= part1_sum(lines, upto) <= part1_sum(lines, lines.len() as int),
    decreases lines.len() - upto,
{
    lemma_part1_sum_bounds_prefix(lines, upto);
    if upto < lines.len() {
        lemma_digits_of_range(lines[upto]);
        let d = digits_of(lines[upto]);
        assert(d[0] >= 0 && d[d.len() - 1] >= 0);
        assert(combine_spec(d) >= 0);
        lemma_part1_sum_bounds(lines, upto + 1);
    }
}

/// The partial sums are non-negative.
proof fn lemma_part1_sum_bounds_prefix(lines: Seq<Seq<char>>, upto: int)
    requires
        lines_have_digits(lines),
        0 <= upto <= lines.len(),
    ensures
        0 <= part1_sum(lines, upto),
    decreases upto,
{
    if upto > 0 {
        lemma_part1_sum_bounds_prefix(lines, upto - 1);
        lemma_digits_of_range(lines[upto - 1]);
        let d = digits_of(lines[upto - 1]);
        assert(d[0] >= 0 && d[d.len() - 1] >= 0);
    }
}

/// Sums the lines' contributions, or `None` where a line has no digit
/// or the sum leaves `i32`.
pub fn try_solve_part1(content: &str) -> (r: Option<i32>)
    ensures
        r is Some <==> (lines_have_digits(spec_lines(content@)) && part1_sum(
            spec_lines(content@),
            spec_lines(content@).len() as int,
        ) <= i32::MAX),
        r matches Some(v) ==> v == part1_sum(
            spec_lines(content@),
            spec_lines(content@).len() as int,
        ),
{
    let lines = split_lines(content);
    let ghost lv = spec_lines(content@);
    let n = lines.len();
    let mut sum: i32 = 0;
    let mut i: usize = 0;
    while i < n
        invariant
            lv == spec_lines(content@),
            views_of(lines@) == lv,
            n == lines@.len(),
            i <= n,
            forall|k: int| 0 <= k < i ==> digits_of(#[trigger] lv[k]).len() > 0,
            sum == part1_sum(lv, i as int),
            0 <= sum,
        decreases n - i,
    {
        let line = lines[i];
        proof {
            assert(views_of(lines@)[i as int] == lines@[i as int]@);
        }
        let digits = find_digits(line);
        if digits.len() == 0 {
            return None;
        }
        proof {
            lemma_digits_of_range(lv[i as int]);
        }
        let combined = combine_first_and_last(digits);
        sum = match sum.checked_add(combined) {
            Some(s) => s,
            None => {
                proof {
                    if lines_have_digits(lv) && part1_sum(lv, lv.len() as int) <= i32::MAX {
                        lemma_part1_sum_bounds(lv, i as int + 1);
                    }
                }
                return None;
            },
        };
        i = i + 1;
    }
    proof {
        if !lines_have_digits(lv) {
            let k = choose|k: int| 0 <= k < lv.len() && digits_of(lv[k]).len() == 0;
        }
    }
    Some(sum)
}

/// The part-one calibration sum, on inputs where every line has a digit
/// and the sum fits.
pub fn solve_part1(content: String) -> (r: i32)
    requires
        lines_have_digits(spec_lines(content@)),
        part1_sum(spec_lines(content@), spec_lines(content@).len() as int) <= i32::MAX,
    ensures
        r == part1_sum(spec_lines(content@), spec_lines(content@).len() as int),
{
    match try_solve_part1(content.as_str()) {
        Some(v) => v,
        None => {
            proof {
                assert(false);
            }
            0
        },
    }
}

/// `s` with each leftmost occurrence of `pat` replaced by `rep`, as
/// `str::replace` rewrites it.
pub open spec fn spec_replace(s: Seq<char>, pat: Seq<char>, rep: Seq<char>) -> Seq<char>
    decreases s.len(),
{
    if pat.len() == 0 {
        s
    } else {
        let n = imin(first_match(s, pat) as int, s.len() as int);
        if n == s.len() {
            s
        } else {
            let m = imin(n + pat.len(), s.len() as int);
            s.subrange(0, n) + rep + spec_replace(s.subrange(m, s.len() as int), pat, rep)
        }
    }
}

/// Rewrites every occurrence of `pat` to `rep`, leftmost first.
pub fn replace_str(s: &str, pat: &str, rep: &str) -> (r: String)
    requires
        pat@.len() >= 1,
    ensures
        r@ == spec_replace(s@, pat@, rep@),
{
    let n = s.unicode_len();
    let pl = pat.unicode_len();
    let mut out = String::new();
    let mut start: usize = 0;
    let mut i: usize = 0;
    proof {
        assert(s@.subrange(0, n as int) =~= s@);
    }
    while i < n
        invariant
            n == s@.len(),
            pl == pat@.len(),
            pl >= 1,
            start <= i <= n,
            forall|k: int| 0 <= k < i - start ==> !match_at(
                s@.subrange(start as int, n as int),
                pat@,
                k,
            ),
            spec_replace(s@, pat@, rep@) =~= out@ + spec_replace(
                s@.subrange(start as int, n as int),
                pat@,
                rep@,
            ),
        decreases n - i,
    {
        if starts_with_at(s, pat, i) {
            let piece = s.substring_char(start, i);
            proof {
                let t = s@.subrange(start as int, n as int);
                assert(t.subrange(i - start, i - start + pl as int) =~= s@.subrange(
                    i as int,
                    i + pl as int,
                ));
                assert(match_at(t, pat@, i - start));
                lemma_first_match_is(t, pat@, i - start);
                assert(t.subrange(0, i - start) =~= s@.subrange(start as int, i as int));
                assert(t.subrange(i - start + pl as int, t.len() as int) =~= s@.subrange(
                    i + pl as int,
                    n as int,
                ));
            }
            out.append(piece);
            out.append(rep);
            start = i + pl;
            i = start;
        } else {
            proof {
                let t = s@.subrange(start as int, n as int);
                if match_at(t, pat@, i - start) {
                    assert(t.subrange(i - start, i - start + pl as int) =~= s@.subrange(
                        i as int,
                        i + pl as int,
                    ));
                    assert(match_at(s@, pat@, i as int));
                }
            }
            i = i + 1;
        }
    }
    let piece = s.substring_char(start, n);
    proof {
        let t = s@.subrange(start as int, n as int);
        assert forall|k: int| 0 <= k < t.len() implies !match_at(t, pat@, k) by {}
        lemma_first_match_is(t, pat@, t.len() as int);
    }
    out.append(piece);
    out
}

/// A line with each digit word marked by its numeral, so that the words
/// count as digits wherever they stand.
pub open spec fn spell_marked(l: Seq<char>) -> Seq<char> {
    let l1 = spec_replace(l, "one"@, "one1one"@);
    let l2 = spec_replace(l1, "two"@, "two2two"@);
    let l3 = spec_replace(l2, "three"@, "three3three"@);
    let l4 = spec_replace(l3, "four"@, "four4four"@);
    let l5 = spec_replace(l4, "five"@, "five5five"@);
    let l6 = spec_replace(l5, "six"@, "six6six"@);
    let l7 = spec_replace(l6, "seven"@, "seven7seven"@);
    let l8 = spec_replace(l7, "eight"@, "eight8eight"@);
    spec_replace(l8, "nine"@, "nine9nine"@)
}

/// The sum of the first `upto` marked lines' contributions.
pub open spec fn part2_sum(lines: Seq<Seq<char>>, upto: int) -> int
    decreases upto,
{
    if upto <= 0 {
        0
    } else {
        part2_sum(lines, upto - 1) + combine_spec(digits_of(spell_marked(lines[upto - 1])))
    }
}

/// Every marked line holds at least one digit.
pub open spec fn marked_lines_have_digits(lines: Seq<Seq<char>>) -> bool {
    forall|i: int| 0 <= i < lines.len() ==> digits_of(spell_marked(#[trigger] lines[i])).len() > 0
}

/// With a digit on every marked line, the partial sums grow from zero
/// to the total.
pub proof fn lemma_part2_sum_bounds(lines: Seq<Seq<char>>, upto: int)
    requires
        marked_lines_have_digits(lines),
        0 <= upto <= lines.len(),
    ensures
        0 <= part2_sum(lines, upto) <= part2_sum(lines, lines.len() as int),
    decreases lines.len() - upto,
{
    lemma_part2_sum_bounds_prefix(lines, upto);
    if upto < lines.len() {
        lemma_digits_of_range(spell_marked(lines[upto]));
        let d = digits_of(spell_marked(lines[upto]));
        assert(d[0] >= 0 && d[d.len() - 1] >= 0);
        assert(combine_spec(d) >= 0);
        lemma_part2_sum_bounds(lines, upto + 1);
    }
}

proof fn lemma_part2_sum_bounds_prefix(lines: Seq<Seq<char>>, upto: int)
    requires
        marked_lines_have_digits(lines),
        0 <= upto <= lines.len(),
    ensures
        0 <= part2_sum(lines, upto),
    decreases upto,
{
    if upto > 0 {
        lemma_part2_sum_bounds_prefix(lines, upto - 1);
        lemma_digits_of_range(spell_marked(lines[upto - 1]));
        let d = digits_of(spell_marked(lines[upto - 1]));
        assert(d[0] >= 0 && d[d.len() - 1] >= 0);
    }
}

/// Marks one line's digit words.
fn mark_words(line: &str) -> (r: String)
    ensures
        r@ == spell_marked(line@),
{
    proof {
        reveal_strlit("one");
        reveal_strlit("two");
        reveal_strlit("three");
        reveal_strlit("four");
        reveal_strlit("five");
        reveal_strlit("six");
        reveal_strlit("seven");
        reveal_strlit("eight");
        reveal_strlit("nine");
    }
    let l1 = replace_str(line, "one", "one1one");
    let l2 = replace_str(l1.as_str(), "two", "two2two");
    let l3 = replace_str(l2.as_str(), "three", "three3three");
    let l4 = replace_str(l3.as_str(), "four", "four4four");
    let l5 = replace_str(l4.as_str(), "five", "five5five");
    let l6 = replace_str(l5.as_str(), "six", "six6six");
    let l7 = replace_str(l6.as_str(), "seven", "seven7seven");
    let l8 = replace_str(l7.as_str(), "eight", "eight8eight");
    replace_str(l8.as_str(), "nine", "nine9nine")
}

/// Sums the marked lines' contributions, or `None` where a marked line
/// has no digit or the sum leaves `i32`.
pub fn try_solve_part2(content: &str) -> (r: Option<i32>)
    ensures
        r is Some <==> (marked_lines_have_digits(spec_lines(content@)) && part2_sum(
            spec_lines(content@),
            spec_lines(content@).len() as int,
        ) <= i32::MAX),
        r matches Some(v) ==> v == part2_sum(
            spec_lines(content@),
            spec_lines(content@).len() as int,
        ),
{
    let lines = split_lines(content);
    let ghost lv = spec_lines(content@);
    let n = lines.len();
    let mut sum: i32 = 0;
    let mut i: usize = 0;
    while i < n
        invariant
            lv == spec_lines(content@),
            views_of(lines@) == lv,
            n == lines@.len(),
            i <= n,
            forall|k: int| 0 <= k < i ==> digits_of(spell_marked(#[trigger] lv[k])).len() > 0,
            sum == part2_sum(lv, i as int),
            0 <= sum,
        decreases n - i,
    {
        let line = lines[i];
        proof {
            assert(views_of(lines@)[i as int] == lines@[i as int]@);
        }
        let marked = mark_words(line);
        let digits = find_digits(marked.as_str());
        if digits.len() == 0 {
            return None;
        }
        proof {
            lemma_digits_of_range(lv[i as int]);
            lemma_digits_of_range(spell_marked(lv[i as int]));
        }
        let combined = combine_first_and_last(digits);
        sum = match sum.checked_add(combined) {
            Some(s) => s,
            None => {
                proof {
                    if marked_lines_have_digits(lv) && part2_sum(lv, lv.len() as int)
                        <= i32::MAX {
                        lemma_part2_sum_bounds(lv, i as int + 1);
                    }
                }
                return None;
            },
        };
        i = i + 1;
    }
    proof {
        if !marked_lines_have_digits(lv) {
            let k = choose|k: int|
                0 <= k < lv.len() && digits_of(spell_marked(lv[k])).len() == 0;
        }
    }
    Some(sum)
}

/// The part-two calibration sum, digit words counted, on inputs where
/// every marked line has a digit and the sum fits.
pub fn solve_part2(content: String) -> (r: i32)
    requires
        marked_lines_have_digits(spec_lines(content@)),
        part2_sum(spec_lines(content@), spec_lines(content@).len() as int) <= i32::MAX,
    ensures
        r == part2_sum(spec_lines(content@), spec_lines(content@).len() as int),
{
    match try_solve_part2(content.as_str()) {
        Some(v) => v,
        None => {
            proof {
                assert(false);
            }
            0
        },
    }
}

} // verus!
