//! Scratch cards: each card lists winning numbers and drawn numbers;
//! matches score points in the first part and breed copies of later
//! cards in the second.
use vstd::prelude::*;
use vstd::string::StrSliceExecFns;
use crate::text::digits_val;
use crate::text::imin;
use crate::text::is_digit;
use crate::text::is_digit_char;
use crate::text::parse_u32;
use crate::text::spec_lines;
use crate::text::spec_split_char;
use crate::text::split_char;
use crate::text::split_lines;
use crate::text::views_of;

verus! {

/// Index of the first non-digit character, or the length if all digits.
pub open spec fn first_nondigit(s: Seq<char>) -> nat
    decreases s.len(),
{
    if s.len() == 0 {
        0
    } else if !is_digit_char(s[0]) {
        0
    } else {
        1 + first_nondigit(s.drop_first())
    }
}

pub proof fn lemma_first_nondigit(s: Seq<char>)
    ensures
        first_nondigit(s) <= s.len(),
        first_nondigit(s) < s.len() ==> !is_digit_char(s[first_nondigit(s) as int]),
        forall|k: int| 0 <= k < first_nondigit(s) ==> is_digit_char(s[k]),
    decreases s.len(),
{
    if s.len() > 0 && is_digit_char(s[0]) {
        lemma_first_nondigit(s.drop_first());
        assert forall|k: int| 0 <= k < first_nondigit(s) implies is_digit_char(s[k]) by {
            if k > 0 {
                assert(s.drop_first()[k - 1] == s[k]);
            }
        }
    }
}

pub proof fn lemma_first_nondigit_is(s: Seq<char>, k: int)
    requires
        0 <= k <= s.len(),
        forall|j: int| 0 <= j < k ==> is_digit_char(s[j]),
        k < s.len() ==> !is_digit_char(s[k]),
    ensures
        k < s.len() ==> first_nondigit(s) == k,
        k == s.len() ==> first_nondigit(s) == s.len(),
{
    lemma_first_nondigit(s);
    let fo = first_nondigit(s) as int;
    if k < s.len() {
        if fo < k {
            assert(is_digit_char(s[fo]));
        }
        if fo > k {
            assert(is_digit_char(s[k]));
        }
    } else {
        if fo < k {
            assert(is_digit_char(s[fo]));
        }
    }
}

/// The maximal digit runs of `s`, in order.
pub open spec fn spec_digit_runs(s: Seq<char>) -> Seq<Seq<char>>
    decreases s.len(),
{
    if s.len() == 0 {
        Seq::empty()
    } else if !is_digit_char(s[0]) {
        spec_digit_runs(s.drop_first())
    } else {
        let n = imin(first_nondigit(s) as int, s.len() as int);
        seq![s.subrange(0, n)] + spec_digit_runs(s.subrange(n, s.len() as int))
    }
}

/// The numbers `s` holds: each digit run's value.
pub open spec fn spec_numbers(s: Seq<char>) -> Seq<u32> {
    spec_digit_runs(s).map_values(|t: Seq<char>| (digits_val(t) as u32))
}

/// Every digit run's value fits in a `u32`.
pub open spec fn runs_fit(s: Seq<char>) -> bool {
    forall|k: int|
        0 <= k < spec_digit_runs(s).len() ==> digits_val(#[trigger] spec_digit_runs(s)[k])
            <= u32::MAX
}

/// First index at or after `from` holding a non-digit, or the length.
fn next_nondigit(s: &str, from: usize) -> (j: usize)
    requires
        from <= s@.len(),
    ensures
        from <= j <= s@.len(),
        forall|k: int| from <= k < j ==> is_digit_char(s@[k]),
        j < s@.len() ==> !is_digit_char(s@[j as int]),
{
    let n = s.unicode_len();
    let mut j = from;
    while j < n
        invariant
            n == s@.len(),
            from <= j <= n,
            forall|k: int| from <= k < j ==> is_digit_char(s@[k]),
        decreases n - j,
    {
        if !is_digit(s.get_char(j)) {
            return j;
        }
        j = j + 1;
    }
    j
}

/// Reads every number in the string, in order of appearance, or `None`
/// where some run of digits holds a value too large for a `u32`.
pub fn try_parse_numbers(number_string: &str) -> (r: Option<Vec<u32>>)
    ensures
        r is Some <==> runs_fit(number_string@),
        r matches Some(v) ==> v@ == spec_numbers(number_string@),
{
    let s = number_string;
    let n = s.unicode_len();
    let mut r: Vec<u32> = Vec::new();
    let ghost mut rdone: Seq<Seq<char>> = Seq::empty();
    let mut i: usize = 0;
    proof {
        assert(s@.subrange(0, n as int) =~= s@);
        assert(spec_digit_runs(s@) =~= rdone + spec_digit_runs(s@));
        assert(r@ =~= rdone.map_values(|t: Seq<char>| (digits_val(t) as u32)));
    }
    while i < n
        invariant
            s@ == number_string@,
            n == s@.len(),
            i <= n,
            spec_digit_runs(s@) =~= rdone + spec_digit_runs(s@.subrange(i as int, n as int)),
            r@ =~= rdone.map_values(|t: Seq<char>| (digits_val(t) as u32)),
            forall|m: int| 0 <= m < rdone.len() ==> digits_val(#[trigger] rdone[m]) <= u32::MAX,
        decreases n - i,
    {
        let c = s.get_char(i);
        if !is_digit(c) {
            proof {
                let t = s@.subrange(i as int, n as int);
                assert(t.drop_first() =~= s@.subrange(i as int + 1, n as int));
            }
            i = i + 1;
        } else {
            let j = next_nondigit(s, i);
            let piece = s.substring_char(i, j);
            proof {
                let t = s@.subrange(i as int, n as int);
                assert forall|k: int| 0 <= k < j - i implies is_digit_char(t[k]) by {
                    assert(t[k] == s@[i + k]);
                }
                if j < n {
                    assert(t[j - i] == s@[j as int]);
                }
                lemma_first_nondigit_is(t, j - i);
                assert(t.subrange(0, j - i) =~= s@.subrange(i as int, j as int));
                assert(t.subrange(j - i, t.len() as int) =~= s@.subrange(j as int, n as int));
                assert(spec_digit_runs(s@)[rdone.len() as int] == piece@);
                assert(piece@.len() > 0 && crate::text::all_digits(piece@));
            }
            let value = match parse_u32(piece) {
                Some(v) => v,
                None => {
                    proof {
                        let t = s@.subrange(i as int, n as int);
                        assert(t[0] == s@[i as int]);
                        assert(is_digit_char(t[0]));
                        assert(spec_digit_runs(t).len() >= 1);
                        assert(spec_digit_runs(s@).len() > rdone.len());
                        assert(digits_val(spec_digit_runs(s@)[rdone.len() as int]) > u32::MAX);
                        assert(s@ == number_string@);
                        assert(spec_digit_runs(number_string@) == spec_digit_runs(s@));
                        assert(digits_val(
                            spec_digit_runs(number_string@)[rdone.len() as int],
                        ) > u32::MAX);
                        assert(!runs_fit(number_string@));
                    }
                    return None;
                },
            };
            r.push(value);
            proof {
                rdone = rdone.push(piece@);
                assert(r@ =~= rdone.map_values(|t: Seq<char>| (digits_val(t) as u32)));
                assert(spec_digit_runs(s@) =~= rdone + spec_digit_runs(
                    s@.subrange(j as int, n as int),
                ));
            }
            i = j;
        }
    }
    proof {
        assert(spec_digit_runs(s@.subrange(i as int, n as int)).len() == 0);
        assert(rdone =~= spec_digit_runs(s@));
        assert(r@ =~= spec_numbers(s@));
    }
    Some(r)
}

/// Reads every number in the string, in order of appearance.
pub fn parse_number_string(number_string: &str) -> (r: Vec<u32>)
    requires
        runs_fit(number_string@),
    ensures
        r@ == spec_numbers(number_string@),
{
    match try_parse_numbers(number_string) {
        Some(v) => v,
        None => {
            proof {
                assert(false);
            }
            Vec::new()
        },
    }
}

/// `s` keeping the first occurrence of each of its first `upto` values.
pub open spec fn dedup_pre(s: Seq<u32>, upto: int) -> Seq<u32>
    decreases upto,
{
    if upto <= 0 {
        Seq::empty()
    } else {
        let d = dedup_pre(s, upto - 1);
        if d.contains(s[upto - 1]) {
            d
        } else {
            d.push(s[upto - 1])
        }
    }
}

/// `s` keeping the first occurrence of each value.
pub open spec fn dedup_v(s: Seq<u32>) -> Seq<u32> {
    dedup_pre(s, s.len() as int)
}

/// No value appears twice.
pub open spec fn nodup(s: Seq<u32>) -> bool {
    forall|a: int, b: int| 0 <= a < b < s.len() ==> s[a] != s[b]
}

/// Whether `v` holds `x`.
fn vec_contains(v: &Vec<u32>, x: u32) -> (r: bool)
    ensures
        r == v@.contains(x),
{
    let n = v.len();
    let mut k: usize = 0;
    while k < n
        invariant
            n == v@.len(),
            k <= n,
            forall|m: int| 0 <= m < k ==> v@[m] != x,
        decreases n - k,
    {
        if v[k] == x {
            return true;
        }
        k = k + 1;
    }
    false
}

/// Drops repeated values, keeping first occurrences in order.
fn dedup(v: &Vec<u32>) -> (r: Vec<u32>)
    ensures
        r@ == dedup_v(v@),
        nodup(r@),
{
    let n = v.len();
    let mut r: Vec<u32> = Vec::new();
    let mut k: usize = 0;
    while k < n
        invariant
            n == v@.len(),
            k <= n,
            r@ == dedup_pre(v@, k as int),
            nodup(r@),
        decreases n - k,
    {
        let x = v[k];
        if !vec_contains(&r, x) {
            proof {
                assert forall|a: int, b: int|
                    0 <= a < b < r@.push(x).len() implies r@.push(x)[a] != r@.push(x)[b] by {
                    if b == r@.len() {
                        assert(r@.contains(r@[a]));
                    }
                }
            }
            r.push(x);
        }
        k = k + 1;
    }
    r
}

/// A scratch card: the winning numbers and the numbers you have, each
/// list free of repeats.
#[derive(Debug)]
pub struct Scratch {
    pub winning: Vec<u32>,
    pub numbers: Vec<u32>,
}

/// How many of `numbers` appear among `winning`.
pub open spec fn match_count(winning: Seq<u32>, numbers: Seq<u32>) -> nat
    decreases numbers.len(),
{
    if numbers.len() == 0 {
        0
    } else {
        match_count(winning, numbers.drop_last()) + (if winning.contains(numbers.last()) {
            1nat
        } else {
            0nat
        })
    }
}

/// Two raised to `n`.
pub open spec fn pow2(n: nat) -> nat
    decreases n,
{
    if n == 0 {
        1
    } else {
        2 * pow2((n - 1) as nat)
    }
}

/// Powers of two grow with the exponent.
pub proof fn lemma_pow2_mono(a: nat, b: nat)
    requires
        a <= b,
    ensures
        pow2(a) <= pow2(b),
        pow2(a) >= 1,
    decreases b,
{
    if a < b {
        lemma_pow2_mono(a, (b - 1) as nat);
    } else if a > 0 {
        lemma_pow2_mono((a - 1) as nat, (b - 1) as nat);
    }
}

impl Scratch {
    /// How many of this card's numbers are winning numbers.
    pub fn winners(&self) -> (r: usize)
        ensures
            r == match_count(self.winning@, self.numbers@),
    {
        let n = self.numbers.len();
        let mut count: usize = 0;
        let mut k: usize = 0;
        while k < n
            invariant
                n == self.numbers@.len(),
                k <= n,
                count == match_count(self.winning@, self.numbers@.subrange(0, k as int)),
                count <= k,
            decreases n - k,
        {
            proof {
                assert(self.numbers@.subrange(0, k as int + 1).drop_last() =~= self.numbers@
                    .subrange(0, k as int));
                assert(self.numbers@.subrange(0, k as int + 1).last() == self.numbers@[k as int]);
            }
            if vec_contains(&self.winning, self.numbers[k]) {
                count = count + 1;
            }
            k = k + 1;
        }
        proof {
            assert(self.numbers@.subrange(0, n as int) =~= self.numbers@);
        }
        count
    }

    /// The card's points, or `None` where they would not fit in `usize`.
    pub fn try_score(&self) -> (r: Option<usize>)
        ensures
            r is Some <==> (match_count(self.winning@, self.numbers@) > 0 ==> pow2(
                (match_count(self.winning@, self.numbers@) - 1) as nat,
            ) <= usize::MAX),
            r matches Some(v) ==> v as int == (if match_count(self.winning@, self.numbers@)
                == 0 {
                0int
            } else {
                pow2((match_count(self.winning@, self.numbers@) - 1) as nat) as int
            }),
    {
        let overlap = self.winners();
        if overlap == 0 {
            return Some(0);
        }
        let e = overlap - 1;
        let mut acc: usize = 1;
        let mut k: usize = 0;
        while k < e
            invariant
                e == match_count(self.winning@, self.numbers@) - 1,
                e < usize::MAX,
                k <= e,
                acc == pow2(k as nat),
            decreases e - k,
        {
            acc = match acc.checked_mul(2) {
                Some(x) => x,
                None => {
                    proof {
                        lemma_pow2_mono((k + 1) as nat, e as nat);
                    }
                    return None;
                },
            };
            k = k + 1;
        }
        Some(acc)
    }

    /// The card's points: nothing without a match, else two raised to
    /// one less than the match count.
    pub fn score(&self) -> (r: usize)
        requires
            match_count(self.winning@, self.numbers@) > 0 ==> pow2(
                (match_count(self.winning@, self.numbers@) - 1) as nat,
            ) <= usize::MAX,
        ensures
            r == (if match_count(self.winning@, self.numbers@) == 0 {
                0int
            } else {
                pow2((match_count(self.winning@, self.numbers@) - 1) as nat) as int
            }),
    {
        match self.try_score() {
            Some(v) => v,
            None => {
                proof {
                    assert(false);
                }
                0
            },
        }
    }
}

/// The part of a card's line after its label.
pub open spec fn after_colon(l: Seq<char>) -> Seq<char> {
    spec_split_char(l, ':')[1]
}

/// The winning-numbers field.
pub open spec fn winning_part(l: Seq<char>) -> Seq<char> {
    spec_split_char(after_colon(l), '|')[0]
}

/// The drawn-numbers field.
pub open spec fn numbers_part(l: Seq<char>) -> Seq<char> {
    spec_split_char(after_colon(l), '|')[1]
}

/// The line has its label and bar separators, and every number fits.
pub open spec fn line_ok(l: Seq<char>) -> bool {
    &&& spec_split_char(l, ':').len() >= 2
    &&& spec_split_char(after_colon(l), '|').len() >= 2
    &&& runs_fit(winning_part(l))
    &&& runs_fit(numbers_part(l))
}

/// Reads one card, or `None` where the line misses its colon or bar or
/// holds a number too large for a `u32`.
pub fn try_parse_line(line: &str) -> (r: Option<Scratch>)
    ensures
        r is Some <==> line_ok(line@),
        r matches Some(card) ==> (card.winning@ == dedup_v(spec_numbers(winning_part(line@)))
            && card.numbers@ == dedup_v(spec_numbers(numbers_part(line@))) && nodup(card.winning@)
            && nodup(card.numbers@)),
{
    let labeled = split_char(line, ':');
    if labeled.len() < 2 {
        proof {
            assert(views_of(labeled@).len() == labeled@.len());
        }
        return None;
    }
    proof {
        assert(views_of(labeled@)[1] == labeled@[1]@);
    }
    let digits_str = labeled[1];
    let fields = split_char(digits_str, '|');
    if fields.len() < 2 {
        proof {
            assert(views_of(fields@).len() == fields@.len());
        }
        return None;
    }
    proof {
        assert(views_of(fields@)[0] == fields@[0]@);
        assert(views_of(fields@)[1] == fields@[1]@);
    }
    let winning_raw = match try_parse_numbers(fields[0]) {
        Some(v) => v,
        None => {
            return None;
        },
    };
    let numbers_raw = match try_parse_numbers(fields[1]) {
        Some(v) => v,
        None => {
            return None;
        },
    };
    Some(Scratch { winning: dedup(&winning_raw), numbers: dedup(&numbers_raw) })
}

/// Reads one card: the numbers before the bar win, the numbers after
/// are yours, repeats dropped.
pub fn parse_line(line: &str) -> (r: Scratch)
    requires
        line_ok(line@),
    ensures
        r.winning@ == dedup_v(spec_numbers(winning_part(line@))),
        r.numbers@ == dedup_v(spec_numbers(numbers_part(line@))),
        nodup(r.winning@),
        nodup(r.numbers@),
{
    match try_parse_line(line) {
        Some(card) => card,
        None => {
            proof {
                assert(false);
            }
            Scratch { winning: Vec::new(), numbers: Vec::new() }
        },
    }
}

/// How many of a line's drawn numbers win.
pub open spec fn line_winners(l: Seq<char>) -> nat {
    match_count(
        dedup_v(spec_numbers(winning_part(l))),
        dedup_v(spec_numbers(numbers_part(l))),
    )
}

/// A line's points.
pub open spec fn line_score(l: Seq<char>) -> nat {
    if line_winners(l) == 0 {
        0
    } else {
        pow2((line_winners(l) - 1) as nat)
    }
}

/// The summed points of the first `upto` lines.
pub open spec fn part1_total(lines: Seq<Seq<char>>, upto: int) -> nat
    decreases upto,
{
    if upto <= 0 {
        0
    } else {
        part1_total(lines, upto - 1) + line_score(lines[upto - 1])
    }
}

/// The partial point sums grow to the total.
pub proof fn lemma_part1_total_mono(lines: Seq<Seq<char>>, upto: int)
    requires
        0 <= upto <= lines.len(),
    ensures
        part1_total(lines, upto) <= part1_total(lines, lines.len() as int),
    decreases lines.len() - upto,
{
    if upto < lines.len() {
        lemma_part1_total_mono(lines, upto + 1);
    }
}

/// Every line is well formed, its score fits, and the total fits.
pub open spec fn part1_ok(lines: Seq<Seq<char>>) -> bool {
    &&& forall|i: int|
        0 <= i < lines.len() ==> (line_ok(#[trigger] lines[i]) && (line_winners(lines[i]) > 0
            ==> pow2((line_winners(lines[i]) - 1) as nat) <= usize::MAX))
    &&& part1_total(lines, lines.len() as int) <= usize::MAX
}

/// Sums every card's points, or `None` where a line is malformed or a
/// score or the sum would not fit in `usize`.
pub fn try_solve_part1(content: &str) -> (r: Option<usize>)
    ensures
        r is Some <==> part1_ok(spec_lines(content@)),
        r matches Some(v) ==> v == part1_total(
            spec_lines(content@),
            spec_lines(content@).len() as int,
        ),
{
    let lines = split_lines(content);
    let ghost lv = spec_lines(content@);
    let n = lines.len();
    let mut sum: usize = 0;
    let mut i: usize = 0;
    while i < n
        invariant
            lv == spec_lines(content@),
            views_of(lines@) == lv,
            n == lines@.len(),
            i <= n,
            forall|k: int|
                0 <= k < i ==> (line_ok(#[trigger] lv[k]) && (line_winners(lv[k]) > 0 ==> pow2(
                    (line_winners(lv[k]) - 1) as nat,
                ) <= usize::MAX)),
            sum == part1_total(lv, i as int),
        decreases n - i,
    {
        let line = lines[i];
        proof {
            assert(views_of(lines@)[i as int] == lines@[i as int]@);
        }
        let scratch = match try_parse_line(line) {
            Some(card) => card,
            None => {
                return None;
            },
        };
        let points = match scratch.try_score() {
            Some(p) => p,
            None => {
                return None;
            },
        };
        sum = match sum.checked_add(points) {
            Some(s2) => s2,
            None => {
                proof {
                    if part1_total(lv, lv.len() as int) <= usize::MAX {
                        lemma_part1_total_mono(lv, i as int + 1);
                    }
                }
                return None;
            },
        };
        i = i + 1;
    }
    Some(sum)
}

/// Sums every card's points.
pub fn solve_part1(content: String) -> (r: usize)
    requires
        part1_ok(spec_lines(content@)),
    ensures
        r == part1_total(spec_lines(content@), spec_lines(content@).len() as int),
{
    match try_solve_part1(content.as_str()) {
        Some(v) => v,
        None => {
            proof {
                assert(false);
            }
            0
        },
    }
}

} // verus!

verus! {

/// The copy counters and total after some cards are processed.
pub struct CardsV {
    pub copies: Seq<nat>,
    pub total: nat,
}

/// Adds `cur` to the first `cnt` counters from `from`, skipping any
/// that lie past the end.
pub open spec fn add_copies(c: Seq<nat>, from: int, cnt: int, cur: nat) -> Seq<nat>
    decreases cnt,
{
    if cnt <= 0 {
        c
    } else {
        let c1 = add_copies(c, from, cnt - 1, cur);
        if 0 <= from + cnt - 1 < c1.len() {
            c1.update(from + cnt - 1, (c1[from + cnt - 1] + cur) as nat)
        } else {
            c1
        }
    }
}

/// Processing card `i` with `w` matches: its count is one more than its
/// copies, the total grows by it, and the next `w` cards gain it.
pub open spec fn part2_step(st: CardsV, i: int, w: nat) -> CardsV {
    let cur = (1 + st.copies[i]) as nat;
    CardsV { copies: add_copies(st.copies, i + 1, w as int, cur), total: (st.total + cur) as nat }
}

/// The state after processing the first `upto` cards.
pub open spec fn part2_run(ws: Seq<nat>, upto: int) -> CardsV
    decreases upto,
{
    if upto <= 0 {
        CardsV { copies: Seq::new(ws.len(), |k: int| 0nat), total: 0 }
    } else {
        part2_step(part2_run(ws, upto - 1), upto - 1, ws[upto - 1])
    }
}

/// Each line's match count.
pub open spec fn ws_of(lines: Seq<Seq<char>>) -> Seq<nat> {
    lines.map_values(|l: Seq<char>| line_winners(l))
}

/// The total number of scratch cards the input breeds.
pub open spec fn part2_total(lines: Seq<Seq<char>>) -> nat {
    part2_run(ws_of(lines), lines.len() as int).total
}

/// Adding copies keeps the length, touches each counter at most once,
/// and leaves counters outside the window alone.
pub proof fn lemma_add_copies(c: Seq<nat>, from: int, cnt: int, cur: nat)
    ensures
        add_copies(c, from, cnt, cur).len() == c.len(),
        forall|j: int|
            0 <= j < c.len() && !(from <= j < from + cnt) ==> add_copies(c, from, cnt, cur)[j]
                == c[j],
        forall|j: int|
            0 <= j < c.len() && from <= j < from + cnt ==> add_copies(c, from, cnt, cur)[j] == c[j]
                + cur,
    decreases cnt,
{
    if cnt > 0 {
        lemma_add_copies(c, from, cnt - 1, cur);
    }
}

/// Every copy counter stays below the running total.
pub proof fn lemma_part2_run_wf(ws: Seq<nat>, upto: int)
    requires
        0 <= upto <= ws.len(),
    ensures
        part2_run(ws, upto).copies.len() == ws.len(),
        forall|j: int|
            0 <= j < ws.len() ==> #[trigger] part2_run(ws, upto).copies[j] <= part2_run(
                ws,
                upto,
            ).total,
    decreases upto,
{
    if upto > 0 {
        lemma_part2_run_wf(ws, upto - 1);
        let st = part2_run(ws, upto - 1);
        let cur = (1 + st.copies[upto - 1]) as nat;
        lemma_add_copies(st.copies, upto, ws[upto - 1] as int, cur);
        assert forall|j: int|
            0 <= j < ws.len() implies #[trigger] part2_run(ws, upto).copies[j] <= part2_run(
            ws,
            upto,
        ).total by {
            assert(st.copies[j] <= st.total);
            if upto <= j < upto + ws[upto - 1] {
                assert(part2_run(ws, upto).copies[j] == st.copies[j] + cur);
            } else {
                assert(part2_run(ws, upto).copies[j] == st.copies[j]);
            }
        }
    }
}

/// The running total only grows.
pub proof fn lemma_part2_run_mono(ws: Seq<nat>, u1: int, u2: int)
    requires
        0 <= u1 <= u2 <= ws.len(),
    ensures
        part2_run(ws, u1).total <= part2_run(ws, u2).total,
    decreases u2 - u1,
{
    if u1 < u2 {
        lemma_part2_run_mono(ws, u1, u2 - 1);
        lemma_part2_run_wf(ws, u2 - 1);
    }
}

/// Every line is well formed and the bred card total fits.
pub open spec fn part2_ok(lines: Seq<Seq<char>>) -> bool {
    &&& forall|i: int| 0 <= i < lines.len() ==> line_ok(#[trigger] lines[i])
    &&& part2_total(lines) <= usize::MAX
}

/// Counts the cards bred by the copying rule, or `None` where a line
/// is malformed or a count would not fit in `usize`.
pub fn try_solve_part2(content: &str) -> (r: Option<usize>)
    ensures
        r is Some <==> part2_ok(spec_lines(content@)),
        r matches Some(v) ==> v == part2_total(spec_lines(content@)),
{
    let lines = split_lines(content);
    let ghost lv = spec_lines(content@);
    let ghost ws = ws_of(lv);
    let n = lines.len();
    let mut winners: Vec<usize> = Vec::new();
    let mut i: usize = 0;
    while i < n
        invariant
            lv == spec_lines(content@),
            ws == ws_of(lv),
            views_of(lines@) == lv,
            n == lines@.len(),
            i <= n,
            winners@.len() == i,
            forall|k: int| 0 <= k < i ==> line_ok(#[trigger] lv[k]),
            forall|k: int| 0 <= k < i ==> #[trigger] winners@[k] as nat == ws[k],
        decreases n - i,
    {
        let line = lines[i];
        proof {
            assert(views_of(lines@)[i as int] == lines@[i as int]@);
        }
        let scratch = match try_parse_line(line) {
            Some(card) => card,
            None => {
                return None;
            },
        };
        let w = scratch.winners();
        winners.push(w);
        i = i + 1;
    }
    let mut copies: Vec<usize> = Vec::new();
    let mut k: usize = 0;
    while k < n
        invariant
            k <= n,
            copies@.len() == k,
            forall|m: int| 0 <= m < k ==> #[trigger] copies@[m] == 0,
        decreases n - k,
    {
        copies.push(0);
        k = k + 1;
    }
    let mut total: usize = 0;
    let mut idx: usize = 0;
    proof {
        assert forall|j: int|
            0 <= j < n implies #[trigger] copies@[j] as nat == part2_run(ws, 0).copies[j] by {
            assert(copies@[j] == 0);
        }
    }
    while idx < n
        invariant
            forall|k2: int| 0 <= k2 < n ==> line_ok(#[trigger] lv[k2]),
            lv == spec_lines(content@),
            ws == ws_of(lv),
            n == lv.len(),
            idx <= n,
            winners@.len() == n,
            forall|k2: int| 0 <= k2 < n ==> #[trigger] winners@[k2] as nat == ws[k2],
            copies@.len() == n,
            forall|j: int|
                0 <= j < n ==> #[trigger] copies@[j] as nat == part2_run(ws, idx as int).copies[j],
            total as nat == part2_run(ws, idx as int).total,
        decreases n - idx,
    {
        let ghost st = part2_run(ws, idx as int);
        proof {
            lemma_part2_run_wf(ws, idx as int);
            lemma_part2_run_mono(ws, idx as int, idx as int + 1);
            lemma_part2_run_mono(ws, idx as int + 1, n as int);
            assert(part2_run(ws, idx as int + 1).total == st.total + 1 + st.copies[idx as int]);
        }
        let current = match copies[idx].checked_add(1) {
            Some(c) => c,
            None => {
                proof {
                    assert(part2_run(ws, idx as int + 1).total > usize::MAX);
                    assert(!(part2_total(lv) <= usize::MAX));
                }
                return None;
            },
        };
        total = match total.checked_add(current) {
            Some(t) => t,
            None => {
                proof {
                    assert(part2_run(ws, idx as int + 1).total > usize::MAX);
                    assert(!(part2_total(lv) <= usize::MAX));
                }
                return None;
            },
        };
        let w = winners[idx];
        let ghost cur = (1 + st.copies[idx as int]) as nat;
        let mut k2: usize = 0;
        while k2 < w
            invariant
                ws == ws_of(lv),
                n == lv.len(),
                idx < n,
                w as nat == ws[idx as int],
                k2 <= w,
                current as nat == cur,
                cur == (1 + part2_run(ws, idx as int).copies[idx as int]) as nat,
                total as nat == part2_run(ws, idx as int + 1).total,
                copies@.len() == n,
                forall|j: int|
                    0 <= j < n ==> #[trigger] copies@[j] as nat == add_copies(
                        part2_run(ws, idx as int).copies,
                        idx as int + 1,
                        k2 as int,
                        cur,
                    )[j],
            decreases w - k2,
        {
            proof {
                lemma_part2_run_wf(ws, idx as int);
                lemma_add_copies(part2_run(ws, idx as int).copies, idx as int + 1, k2 as int, cur);
                lemma_add_copies(
                    part2_run(ws, idx as int).copies,
                    idx as int + 1,
                    k2 as int + 1,
                    cur,
                );
                lemma_part2_run_mono(ws, idx as int + 1, n as int);
            }
            if k2 < n - idx - 1 {
                let pos = idx + 1 + k2;
                proof {
                    assert(copies@[pos as int] as nat == add_copies(
                        part2_run(ws, idx as int).copies,
                        idx as int + 1,
                        k2 as int,
                        cur,
                    )[pos as int]);
                    assert(copies@[pos as int] as nat == part2_run(ws, idx as int).copies[
                        pos as int]);
                    assert(part2_run(ws, idx as int).copies[pos as int] <= part2_run(
                        ws,
                        idx as int,
                    ).total);
                    assert(part2_run(ws, idx as int).total + cur == part2_run(
                        ws,
                        idx as int + 1,
                    ).total);
                    assert(part2_run(ws, idx as int + 1).total <= part2_run(
                        ws,
                        n as int,
                    ).total);
                }
                let bumped = match copies[pos].checked_add(current) {
                    Some(b) => b,
                    None => {
                        proof {
                            assert(part2_run(ws, idx as int + 1).total > usize::MAX);
                            lemma_part2_run_mono(ws, idx as int + 1, n as int);
                            assert(!(part2_total(lv) <= usize::MAX));
                        }
                        return None;
                    },
                };
                copies[pos] = bumped;
            }
            k2 = k2 + 1;
        }
        proof {
            assert(part2_run(ws, idx as int + 1).copies =~= add_copies(
                part2_run(ws, idx as int).copies,
                idx as int + 1,
                w as int,
                cur,
            ));
        }
        idx = idx + 1;
    }
    Some(total)
}

/// Counts the cards bred by the copying rule: each card adds one plus
/// its accumulated copies, and hands that count to the next cards, one
/// per match.
pub fn solve_part2(content: String) -> (r: usize)
    requires
        part2_ok(spec_lines(content@)),
    ensures
        r == part2_total(spec_lines(content@)),
{
    match try_solve_part2(content.as_str()) {
        Some(v) => v,
        None => {
            proof {
                assert(false);
            }
            0
        },
    }
}

} // verus!
