//! Cube-draw records: each line's semicolon-separated draws are read
//! out, though no colour count is extracted yet, so both answers are
//! still zero.
use vstd::prelude::*;
use crate::text::spec_split_char;
use crate::text::split_char;
use crate::text::split_lines;
use crate::text::views_of;

verus! {

/// The red, blue and green counts of one draw.
#[derive(Debug, PartialEq, Eq, Structural, Clone, Copy)]
pub struct Draw {
    pub red: i32,
    pub blue: i32,
    pub green: i32,
}

/// One empty draw per semicolon-separated part of the line: the colour
/// counts are not read out yet.
pub fn parse_line(line: &str) -> (r: Vec<Draw>)
    ensures
        r@.len() == spec_split_char(line@, ';').len(),
        forall|k: int| 0 <= k < r@.len() ==> r@[k] == (Draw { red: 0, blue: 0, green: 0 }),
{
    let parts = split_char(line, ';');
    let mut draws: Vec<Draw> = Vec::new();
    let n = parts.len();
    proof {
        assert(views_of(parts@).len() == parts@.len());
    }
    let mut k: usize = 0;
    while k < n
        invariant
            n == spec_split_char(line@, ';').len(),
            k <= n,
            draws@.len() == k,
            forall|m: int| 0 <= m < k ==> draws@[m] == (Draw { red: 0, blue: 0, green: 0 }),
        decreases n - k,
    {
        let draw = Draw { red: 0, blue: 0, green: 0 };
        draws.push(draw);
        k = k + 1;
    }
    draws
}

/// Walks every line's draws; with no counts read out, the total is zero.
pub fn solve_part1(content: String) -> (r: i32)
    ensures
        r == 0,
{
    let lines = split_lines(content.as_str());
    let n = lines.len();
    let mut sum: i32 = 0;
    let mut i: usize = 0;
    while i < n
        invariant
            n == lines@.len(),
            i <= n,
            sum == 0,
        decreases n - i,
    {
        let _draws = parse_line(lines[i]);
        sum = sum + 0;
        i = i + 1;
    }
    sum
}

/// The second half of this day is not written yet; its answer is zero.
pub fn solve_part2(content: String) -> (r: i32)
    ensures
        r == 0,
{
    0
}

} // verus!
