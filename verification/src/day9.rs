//! Sequence extrapolation: repeatedly taking differences until they are
//! all equal, then extending each history forwards or backwards.
use vstd::prelude::*;
use crate::text::int_token_val;
use crate::text::is_int_token;
use crate::text::parse_i32;
use crate::text::spec_lines;
use crate::text::spec_split_ws;
use crate::text::split_lines;
use crate::text::split_ws;
use crate::text::views_of;

verus! {

/// A sequence of `i32` values as mathematical integers.
pub open spec fn ints_of(s: Seq<i32>) -> Seq<int> {
    s.map_values(|x: i32| x as int)
}

/// The consecutive differences of a sequence.
pub open spec fn spec_deltas(s: Seq<int>) -> Seq<int> {
    Seq::new((s.len() - 1) as nat, |k: int| s[k + 1] - s[k])
}

/// All entries equal the first.
pub open spec fn all_same(d: Seq<int>) -> bool {
    forall|k: int| 0 <= k < d.len() ==> #[trigger] d[k] == d[0]
}

/// The next value of a history: the last value plus the common
/// difference, or plus the predicted next difference.
pub open spec fn spec_predict_next(s: Seq<int>) -> int
    decreases s.len(),
{
    if s.len() < 2 {
        0
    } else {
        let d = spec_deltas(s);
        if all_same(d) {
            s.last() + d[0]
        } else {
            s.last() + spec_predict_next(d)
        }
    }
}

/// The previous value of a history: the first value minus the common
/// difference, or minus the predicted previous difference.
pub open spec fn spec_predict_prev(s: Seq<int>) -> int
    decreases s.len(),
{
    if s.len() < 2 {
        0
    } else {
        let d = spec_deltas(s);
        if all_same(d) {
            s[0] - d[0]
        } else {
            s[0] - spec_predict_prev(d)
        }
    }
}

/// The forward extrapolation stays within `i32` at every level: the
/// history is long enough, each difference fits, and each final sum fits.
pub open spec fn next_ok(s: Seq<int>) -> bool
    decreases s.len(),
{
    &&& s.len() >= 2
    &&& forall|k: int|
        0 <= k < spec_deltas(s).len() ==> i32::MIN <= #[trigger] spec_deltas(s)[k] <= i32::MAX
    &&& (if all_same(spec_deltas(s)) {
        i32::MIN <= s.last() + spec_deltas(s)[0] <= i32::MAX
    } else {
        next_ok(spec_deltas(s)) && i32::MIN <= s.last() + spec_predict_next(spec_deltas(s))
            <= i32::MAX
    })
}

/// The backward extrapolation stays within `i32` at every level.
pub open spec fn prev_ok(s: Seq<int>) -> bool
    decreases s.len(),
{
    &&& s.len() >= 2
    &&& forall|k: int|
        0 <= k < spec_deltas(s).len() ==> i32::MIN <= #[trigger] spec_deltas(s)[k] <= i32::MAX
    &&& (if all_same(spec_deltas(s)) {
        i32::MIN <= s[0] - spec_deltas(s)[0] <= i32::MAX
    } else {
        prev_ok(spec_deltas(s)) && i32::MIN <= s[0] - spec_predict_prev(spec_deltas(s))
            <= i32::MAX
    })
}

/// The consecutive differences, or `None` where one leaves `i32` or the
/// history is too short.
fn try_deltas(seq: &Vec<i32>) -> (r: Option<Vec<i32>>)
    ensures
        r is Some <==> (seq@.len() >= 2 && forall|k: int|
            0 <= k < spec_deltas(ints_of(seq@)).len() ==> i32::MIN <= #[trigger] spec_deltas(
                ints_of(seq@),
            )[k] <= i32::MAX),
        r matches Some(d) ==> ints_of(d@) == spec_deltas(ints_of(seq@)),
{
    let n = seq.len();
    if n < 2 {
        return None;
    }
    let mut d: Vec<i32> = Vec::new();
    let mut k: usize = 0;
    while k < n - 1
        invariant
            n == seq@.len(),
            n >= 2,
            k <= n - 1,
            ints_of(d@) =~= spec_deltas(ints_of(seq@)).subrange(0, k as int),
            forall|m: int|
                0 <= m < k ==> i32::MIN <= #[trigger] spec_deltas(ints_of(seq@))[m] <= i32::MAX,
        decreases n - 1 - k,
    {
        let a = seq[k];
        let b = seq[k + 1];
        match b.checked_sub(a) {
            Some(x) => {
                let ghost dprev = d@;
                d.push(x);
                proof {
                    assert(ints_of(d@) =~= ints_of(dprev).push(x as int));
                    assert(ints_of(d@) =~= spec_deltas(ints_of(seq@)).subrange(0, k as int + 1));
                }
            },
            None => {
                proof {
                    assert(spec_deltas(ints_of(seq@))[k as int] == b as int - a as int);
                }
                return None;
            },
        }
        k = k + 1;
    }
    proof {
        assert(ints_of(d@) =~= spec_deltas(ints_of(seq@)));
    }
    Some(d)
}

/// Whether all entries equal the first; an empty list counts as uniform.
fn all_equal(d: &Vec<i32>) -> (r: bool)
    ensures
        r == all_same(ints_of(d@)),
{
    let n = d.len();
    let mut k: usize = 0;
    while k < n
        invariant
            n == d@.len(),
            k <= n,
            forall|m: int| 0 <= m < k ==> #[trigger] ints_of(d@)[m] == ints_of(d@)[0],
        decreases n - k,
    {
        if d[k] != d[0] {
            proof {
                assert(ints_of(d@)[k as int] != ints_of(d@)[0]);
            }
            return false;
        }
        k = k + 1;
    }
    true
}

/// Extrapolates the next value, or `None` where the arithmetic would
/// leave `i32` or the history is too short.
pub fn try_predict_next(seq: &Vec<i32>) -> (r: Option<i32>)
    ensures
        r is Some <==> next_ok(ints_of(seq@)),
        r matches Some(v) ==> v == spec_predict_next(ints_of(seq@)),
    decreases seq@.len(),
{
    let deltas = match try_deltas(seq) {
        Some(d) => d,
        None => {
            return None;
        },
    };
    let last = seq[seq.len() - 1];
    proof {
        assert(ints_of(seq@).last() == last as int);
        assert(ints_of(deltas@).len() == deltas@.len());
        assert(deltas@.len() >= 1);
    }
    if all_equal(&deltas) {
        proof {
            assert(ints_of(deltas@)[0] == spec_deltas(ints_of(seq@))[0]);
        }
        last.checked_add(deltas[0])
    } else {
        proof {
            assert(deltas@.len() < seq@.len());
        }
        match try_predict_next(&deltas) {
            Some(v) => last.checked_add(v),
            None => None,
        }
    }
}

/// Extrapolates the previous value, or `None` where the arithmetic
/// would leave `i32` or the history is too short.
pub fn try_predict_prev(seq: &Vec<i32>) -> (r: Option<i32>)
    ensures
        r is Some <==> prev_ok(ints_of(seq@)),
        r matches Some(v) ==> v == spec_predict_prev(ints_of(seq@)),
    decreases seq@.len(),
{
    let deltas = match try_deltas(seq) {
        Some(d) => d,
        None => {
            return None;
        },
    };
    let first = seq[0];
    proof {
        assert(ints_of(seq@)[0] == first as int);
        assert(ints_of(deltas@).len() == deltas@.len());
        assert(deltas@.len() >= 1);
    }
    if all_equal(&deltas) {
        proof {
            assert(ints_of(deltas@)[0] == spec_deltas(ints_of(seq@))[0]);
        }
        first.checked_sub(deltas[0])
    } else {
        proof {
            assert(deltas@.len() < seq@.len());
        }
        match try_predict_prev(&deltas) {
            Some(v) => first.checked_sub(v),
            None => None,
        }
    }
}

/// The next value of a history whose extrapolation stays within `i32`.
pub fn predict_next_value(seq: Vec<i32>) -> (r: i32)
    requires
        next_ok(ints_of(seq@)),
    ensures
        r == spec_predict_next(ints_of(seq@)),
{
    match try_predict_next(&seq) {
        Some(v) => v,
        None => {
            proof {
                assert(false);
            }
            0
        },
    }
}

/// The previous value of a history whose extrapolation stays within `i32`.
pub fn predict_prev_value(seq: Vec<i32>) -> (r: i32)
    requires
        prev_ok(ints_of(seq@)),
    ensures
        r == spec_predict_prev(ints_of(seq@)),
{
    match try_predict_prev(&seq) {
        Some(v) => v,
        None => {
            proof {
                assert(false);
            }
            0
        },
    }
}

/// The numbers a line holds: its whitespace-separated integer tokens.
pub open spec fn line_nums(l: Seq<char>) -> Seq<int> {
    spec_split_ws(l).map_values(|t: Seq<char>| int_token_val(t))
}

/// Every token of the line is an integer that fits in `i32`.
pub open spec fn line_tokens_ok(l: Seq<char>) -> bool {
    forall|k: int|
        0 <= k < spec_split_ws(l).len() ==> (is_int_token(#[trigger] spec_split_ws(l)[k])
            && i32::MIN <= int_token_val(spec_split_ws(l)[k]) <= i32::MAX)
}

/// Reads a line's numbers, or `None` where a token is not an integer
/// that fits in `i32`.
fn try_line_nums(line: &str) -> (r: Option<Vec<i32>>)
    ensures
        r is Some <==> line_tokens_ok(line@),
        r matches Some(v) ==> ints_of(v@) == line_nums(line@),
{
    let toks = split_ws(line);
    let n = toks.len();
    let mut out: Vec<i32> = Vec::new();
    let mut k: usize = 0;
    while k < n
        invariant
            views_of(toks@) == spec_split_ws(line@),
            n == toks@.len(),
            k <= n,
            forall|m: int|
                0 <= m < k ==> (is_int_token(#[trigger] spec_split_ws(line@)[m]) && i32::MIN
                    <= int_token_val(spec_split_ws(line@)[m]) <= i32::MAX),
            ints_of(out@) =~= line_nums(line@).subrange(0, k as int),
        decreases n - k,
    {
        proof {
            assert(views_of(toks@)[k as int] == toks@[k as int]@);
        }
        match parse_i32(toks[k]) {
            Some(v) => {
                let ghost oprev = out@;
                out.push(v);
                proof {
                    assert(ints_of(out@) =~= ints_of(oprev).push(v as int));
                    assert(ints_of(out@) =~= line_nums(line@).subrange(0, k as int + 1));
                }
            },
            None => {
                return None;
            },
        }
        k = k + 1;
    }
    proof {
        assert(ints_of(out@) =~= line_nums(line@));
    }
    Some(out)
}

/// The sum of the next values of the first `upto` lines.
pub open spec fn part1_sum(lines: Seq<Seq<char>>, upto: int) -> int
    decreases upto,
{
    if upto <= 0 {
        0
    } else {
        part1_sum(lines, upto - 1) + spec_predict_next(line_nums(lines[upto - 1]))
    }
}

/// The sum of the previous values of the first `upto` lines.
pub open spec fn part2_sum(lines: Seq<Seq<char>>, upto: int) -> int
    decreases upto,
{
    if upto <= 0 {
        0
    } else {
        part2_sum(lines, upto - 1) + spec_predict_prev(line_nums(lines[upto - 1]))
    }
}

/// Every line parses and extrapolates forwards within `i32`, and every
/// partial sum fits.
pub open spec fn part1_ok(lines: Seq<Seq<char>>) -> bool {
    &&& forall|i: int|
        0 <= i < lines.len() ==> (line_tokens_ok(#[trigger] lines[i]) && next_ok(
            line_nums(lines[i]),
        ))
    &&& forall|u: int| 0 <= u <= lines.len() ==> i32::MIN <= #[trigger] part1_sum(lines, u)
        <= i32::MAX
}

/// Every line parses and extrapolates backwards within `i32`, and every
/// partial sum fits.
pub open spec fn part2_ok(lines: Seq<Seq<char>>) -> bool {
    &&& forall|i: int|
        0 <= i < lines.len() ==> (line_tokens_ok(#[trigger] lines[i]) && prev_ok(
            line_nums(lines[i]),
        ))
    &&& forall|u: int| 0 <= u <= lines.len() ==> i32::MIN <= #[trigger] part2_sum(lines, u)
        <= i32::MAX
}

/// Sums the next value of every history, or `None` where a line fails
/// to parse or any arithmetic leaves `i32`.
pub fn try_solve_part1(content: &str) -> (r: Option<i32>)
    ensures
        r is Some <==> part1_ok(spec_lines(content@)),
        r matches Some(v) ==> v == part1_sum(
            spec_lines(content@),
            spec_lines(content@).len() as int,
        ),
{
    let lines = split_lines(content);
    let ghost lv = spec_lines(content@);
    let n = lines.len();
    let mut sum: i32 = 0;
    let mut i: usize = 0;
    while i < n
        invariant
            lv == spec_lines(content@),
            views_of(lines@) == lv,
            n == lines@.len(),
            i <= n,
            forall|k: int|
                0 <= k < i ==> (line_tokens_ok(#[trigger] lv[k]) && next_ok(line_nums(lv[k]))),
            forall|u: int| 0 <= u <= i ==> i32::MIN <= #[trigger] part1_sum(lv, u) <= i32::MAX,
            sum == part1_sum(lv, i as int),
        decreases n - i,
    {
        let line = lines[i];
        proof {
            assert(views_of(lines@)[i as int] == lines@[i as int]@);
        }
        let nums = match try_line_nums(line) {
            Some(v) => v,
            None => {
                return None;
            },
        };
        let value = match try_predict_next(&nums) {
            Some(v) => v,
            None => {
                return None;
            },
        };
        sum = match sum.checked_add(value) {
            Some(s) => s,
            None => {
                proof {
                    assert(part1_sum(lv, i as int + 1) == sum + value);
                }
                return None;
            },
        };
        i = i + 1;
    }
    proof {
        if !part1_ok(lv) {
            assert(forall|u: int|
                0 <= u <= lv.len() ==> i32::MIN <= #[trigger] part1_sum(lv, u) <= i32::MAX);
        }
    }
    Some(sum)
}

/// Sums the previous value of every history, or `None` where a line
/// fails to parse or any arithmetic leaves `i32`.
pub fn try_solve_part2(content: &str) -> (r: Option<i32>)
    ensures
        r is Some <==> part2_ok(spec_lines(content@)),
        r matches Some(v) ==> v == part2_sum(
            spec_lines(content@),
            spec_lines(content@).len() as int,
        ),
{
    let lines = split_lines(content);
    let ghost lv = spec_lines(content@);
    let n = lines.len();
    let mut sum: i32 = 0;
    let mut i: usize = 0;
    while i < n
        invariant
            lv == spec_lines(content@),
            views_of(lines@) == lv,
            n == lines@.len(),
            i <= n,
            forall|k: int|
                0 <= k < i ==> (line_tokens_ok(#[trigger] lv[k]) && prev_ok(line_nums(lv[k]))),
            forall|u: int| 0 <= u <= i ==> i32::MIN <= #[trigger] part2_sum(lv, u) <= i32::MAX,
            sum == part2_sum(lv, i as int),
        decreases n - i,
    {
        let line = lines[i];
        proof {
            assert(views_of(lines@)[i as int] == lines@[i as int]@);
        }
        let nums = match try_line_nums(line) {
            Some(v) => v,
            None => {
                return None;
            },
        };
        let value = match try_predict_prev(&nums) {
            Some(v) => v,
            None => {
                return None;
            },
        };
        sum = match sum.checked_add(value) {
            Some(s) => s,
            None => {
                proof {
                    assert(part2_sum(lv, i as int + 1) == sum + value);
                }
                return None;
            },
        };
        i = i + 1;
    }
    proof {
        if !part2_ok(lv) {
            assert(forall|u: int|
                0 <= u <= lv.len() ==> i32::MIN <= #[trigger] part2_sum(lv, u) <= i32::MAX);
        }
    }
    Some(sum)
}

/// The sum of every history's next value, on inputs where parsing and
/// all the arithmetic stay within `i32`.
pub fn solve_part1(content: String) -> (r: i32)
    requires
        part1_ok(spec_lines(content@)),
    ensures
        r == part1_sum(spec_lines(content@), spec_lines(content@).len() as int),
{
    match try_solve_part1(content.as_str()) {
        Some(v) => v,
        None => {
            proof {
                assert(false);
            }
            0
        },
    }
}

/// The sum of every history's previous value, on inputs where parsing
/// and all the arithmetic stay within `i32`.
pub fn solve_part2(content: String) -> (r: i32)
    requires
        part2_ok(spec_lines(content@)),
    ensures
        r == part2_sum(spec_lines(content@), spec_lines(content@).len() as int),
{
    match try_solve_part2(content.as_str()) {
        Some(v) => v,
        None => {
            proof {
                assert(false);
            }
            0
        },
    }
}

} // verus!
