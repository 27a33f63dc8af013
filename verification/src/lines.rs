//! Lines in a byte sequence: where one ends, where one starts, and the
//! lines at the head and at the tail of a sequence.

use crate::parsers::LF;
use vstd::prelude::*;

verus! {

/// The position after the line that holds position `i`: behind the next
/// line feed at or after `i`, or the end of `s` where none follows. Reading
/// a line at or behind the end of `s` reads nothing.
pub open spec fn line_end(s: Seq<u8>, i: int) -> int
    decreases s.len() - i,
{
    if i < 0 || i >= s.len() {
        i
    } else if s[i] == LF {
        i + 1
    } else {
        line_end(s, i + 1)
    }
}

/// A line that starts within `s` is not empty and ends within `s`; no line
/// feed stands in it but as its last byte.
pub proof fn lemma_line_end(s: Seq<u8>, i: int)
    requires
        0 <= i < s.len(),
    ensures
        i < line_end(s, i) <= s.len(),
        forall|j: int| i <= j < line_end(s, i) - 1 ==> #[trigger] s[j] != LF,
        line_end(s, i) < s.len() ==> s[line_end(s, i) - 1] == LF,
    decreases s.len() - i,
{
    if s[i] != LF {
        if i + 1 < s.len() {
            lemma_line_end(s, i + 1);
        } else {
            assert(line_end(s, i + 1) == i + 1);
        }
    }
}

/// Every position of a line has the line's end.
pub proof fn lemma_line_end_within(s: Seq<u8>, i: int, j: int)
    requires
        0 <= i <= j < line_end(s, i),
    ensures
        line_end(s, j) == line_end(s, i),
    decreases j - i,
{
    if i < j {
        if i < s.len() {
            lemma_line_end(s, i);
        }
        lemma_line_end_within(s, i + 1, j);
    }
}

/// The end of the line that holds `pos`.
pub fn next_line_end(data: &[u8], pos: usize) -> (e: usize)
    requires
        pos <= data.len(),
    ensures
        e == line_end(data@, pos as int),
        pos <= e <= data.len(),
        pos < data.len() ==> pos < e,
{
    let mut k: usize = pos;
    while k < data.len() && data[k] != LF
        invariant
            pos <= k <= data.len(),
            line_end(data@, pos as int) == line_end(data@, k as int),
        decreases data.len() - k,
    {
        k += 1;
    }
    if k < data.len() {
        k + 1
    } else {
        k
    }
}

/// Where the text of the line from `pos` to `end` stops: before its line
/// feed, where it has one.
pub open spec fn text_end(s: Seq<u8>, pos: int, end: int) -> int {
    if pos < end <= s.len() && s[end - 1] == LF {
        end - 1
    } else {
        end
    }
}

/// The text of the line that starts at `pos`, without its line feed.
pub open spec fn line_at(s: Seq<u8>, pos: int) -> Seq<u8> {
    s.subrange(pos, text_end(s, pos, line_end(s, pos)))
}

/// The first `n` lines of `s` from position `pos` on, or as many as there
/// are. A line is what stands before a line feed; what follows the last
/// line feed is a line if it is not empty.
pub open spec fn head_lines(s: Seq<u8>, pos: int, n: nat) -> Seq<Seq<u8>>
    decreases n,
{
    if n == 0 || pos < 0 || pos >= s.len() {
        Seq::empty()
    } else {
        seq![line_at(s, pos)] + head_lines(s, line_end(s, pos), (n - 1) as nat)
    }
}

/// The start of the line whose text stops at `i`: behind the last line
/// feed before `i`, or the start of `s`.
pub open spec fn line_start(s: Seq<u8>, i: int) -> int
    decreases i,
{
    if i <= 0 || i > s.len() {
        0
    } else if s[i - 1] == LF {
        i
    } else {
        line_start(s, i - 1)
    }
}

/// The start of the line whose text stops at `stop`.
pub fn prev_line_start(data: &[u8], stop: usize) -> (b: usize)
    requires
        stop <= data.len(),
    ensures
        b == line_start(data@, stop as int),
        b <= stop,
        stop > 0 && data@[stop - 1] != LF ==> b < stop,
{
    let mut k: usize = stop;
    while k > 0 && data[k - 1] != LF
        invariant
            k <= stop <= data.len(),
            line_start(data@, stop as int) == line_start(data@, k as int),
        decreases k,
    {
        k -= 1;
    }
    k
}

/// Where the text of the last line before `stop` stops: before the line
/// feed that ends it, where it has one.
pub open spec fn tail_text_end(s: Seq<u8>, stop: int) -> int {
    if 0 < stop <= s.len() && s[stop - 1] == LF {
        stop - 1
    } else {
        stop
    }
}

/// The last `n` lines of `s` before position `stop`, the last one first,
/// or as many as there are.
pub open spec fn tail_lines(s: Seq<u8>, stop: int, n: nat) -> Seq<Seq<u8>>
    decreases n,
{
    if n == 0 || stop <= 0 || stop > s.len() {
        Seq::empty()
    } else {
        let end = tail_text_end(s, stop);
        let start = line_start(s, end);
        seq![s.subrange(start, end)] + tail_lines(s, start, (n - 1) as nat)
    }
}

/// The lines of `s` from position `pos` on that end before position
/// `stop`, each as the positions where it starts and where it ends.
pub open spec fn lines_until(s: Seq<u8>, pos: int, stop: int) -> Seq<(int, int)>
    decreases s.len() - pos,
    via lines_until_decreases
{
    if pos < 0 || pos >= s.len() || line_end(s, pos) >= stop {
        Seq::empty()
    } else {
        seq![(pos, line_end(s, pos))] + lines_until(s, line_end(s, pos), stop)
    }
}

#[via_fn]
proof fn lines_until_decreases(s: Seq<u8>, pos: int, stop: int) {
    if 0 <= pos < s.len() {
        lemma_line_end(s, pos);
    }
}

/// The lines from `pos` on that end before `stop` lie one behind the
/// other, without a gap: the first starts at `pos`, each other one where
/// the one before it ends, and each is a whole line that ends before
/// `stop`.
pub proof fn lemma_lines_until_tile(s: Seq<u8>, pos: int, stop: int)
    ensures
        forall|i: int|
            #![trigger lines_until(s, pos, stop)[i]]
            0 <= i < lines_until(s, pos, stop).len() ==> {
                let line = lines_until(s, pos, stop)[i];
                &&& line.0 == (if i == 0 {
                    pos
                } else {
                    lines_until(s, pos, stop)[i - 1].1
                })
                &&& 0 <= line.0 < line.1 <= s.len()
                &&& line.1 == line_end(s, line.0)
                &&& line.1 < stop
            },
    decreases s.len() - pos,
{
    let lines = lines_until(s, pos, stop);
    if lines.len() > 0 {
        let end = line_end(s, pos);
        let rest = lines_until(s, end, stop);
        lemma_line_end(s, pos);
        lemma_lines_until_tile(s, end, stop);
        assert forall|i: int| 0 <= i < lines.len() implies {
            let line = #[trigger] lines[i];
            &&& line.0 == (if i == 0 {
                pos
            } else {
                lines[i - 1].1
            })
            &&& 0 <= line.0 < line.1 <= s.len()
            &&& line.1 == line_end(s, line.0)
            &&& line.1 < stop
        } by {
            if i > 0 {
                assert(lines[i] == rest[i - 1]);
                if i > 1 {
                    assert(lines[i - 1] == rest[i - 2]);
                }
            }
        }
    }
}

} // verus!
