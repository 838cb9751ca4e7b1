//! The lines of a text.

use vstd::prelude::*;

use crate::code_blocks::{find_line_end, line_end};
use crate::editorial::bare_line;
use crate::text::{join, slice, to_chars};

verus! {

/// A line with its line feed, and the position of its first character.
pub struct Line {
    pub at: usize,
    pub text: String,
}

/// The value of a line.
pub struct LineModel {
    pub at: int,
    pub text: Seq<char>,
}

impl View for Line {
    type V = LineModel;

    open spec fn view(&self) -> LineModel {
        LineModel { at: self.at as int, text: self.text@ }
    }
}

/// The values of some lines.
pub open spec fn line_models(v: Seq<Line>) -> Seq<LineModel> {
    v.map_values(|l: Line| l@)
}

/// The lines of a text from the one at `from` on.
pub open spec fn lines_from(s: Seq<char>, from: int) -> Seq<LineModel>
    decreases s.len() - from,
{
    if 0 <= from < line_end(s, from) <= s.len() {
        let end = line_end(s, from);
        seq![LineModel { at: from, text: s.subrange(from, end) }] + lines_from(s, end)
    } else {
        Seq::empty()
    }
}

/// The lines of a text.
pub open spec fn lines_in(s: Seq<char>) -> Seq<LineModel> {
    lines_from(s, 0)
}

/// Lines follow one another through the whole text.
pub open spec fn lines_ok(s: Seq<char>, lines: Seq<LineModel>, from: int) -> bool {
    &&& forall|k: int|
        0 <= k < lines.len() ==> {
            let l = #[trigger] lines[k];
            from <= l.at && l.at + l.text.len() <= s.len() && l.text.len() > 0 && l.text
                == s.subrange(l.at, l.at + l.text.len() as int)
        }
    &&& forall|j: int, k: int|
        0 <= j < k < lines.len() ==> (#[trigger] lines[j]).at + lines[j].text.len() <= (
        #[trigger] lines[k]).at
}

/// The lines of a text follow one another.
pub proof fn lemma_lines(s: Seq<char>, from: int)
    requires
        0 <= from,
    ensures
        lines_ok(s, lines_from(s, from), from),
    decreases s.len() - from,
{
    if 0 <= from < line_end(s, from) <= s.len() {
        let end = line_end(s, from);
        lemma_lines(s, end);
        let rest = lines_from(s, end);
        let all = lines_from(s, from);
        assert forall|k: int| 0 <= k < all.len() implies {
            let l = #[trigger] all[k];
            from <= l.at && l.at + l.text.len() <= s.len() && l.text.len() > 0 && l.text
                == s.subrange(l.at, l.at + l.text.len() as int)
        } by {
            if k > 0 {
                assert(all[k] == rest[k - 1]);
            }
        }
        assert forall|j: int, k: int| 0 <= j < k < all.len() implies (#[trigger] all[j]).at
            + all[j].text.len() <= (#[trigger] all[k]).at by {
            assert(all[k] == rest[k - 1]);
            if j > 0 {
                assert(all[j] == rest[j - 1]);
            }
        }
    }
}

/// Splits a text into its lines, each with its line feed.
pub fn split_lines(text: &str) -> (r: Vec<Line>)
    ensures
        line_models(r@) == lines_in(text@),
        lines_ok(text@, line_models(r@), 0),
{
    let chars = to_chars(text);
    let n: usize = chars.len();
    let ghost s = text@;
    let ghost goal = lines_in(s);
    let mut r: Vec<Line> = Vec::new();
    let mut from: usize = 0;
    assert(line_models(r@) + goal =~= goal);
    while from < n
        invariant
            from <= n == s.len(),
            chars@ == s,
            line_models(r@) + lines_from(s, from as int) == goal,
        decreases n - from,
    {
        let end: usize = find_line_end(chars.as_slice(), from);
        let l = Line { at: from, text: slice(chars.as_slice(), from, end) };
        proof {
            let rest = lines_from(s, end as int);
            assert(line_models(r@.push(l)) =~= line_models(r@).push(l@));
            assert(line_models(r@) + (seq![l@] + rest) =~= line_models(r@).push(l@) + rest);
        }
        r.push(l);
        from = end;
    }
    proof {
        lemma_lines(s, 0);
        assert(line_models(r@) + lines_from(s, from as int) =~= line_models(r@));
    }
    r
}

/// A line without its line feed and the carriage return before it.
pub fn strip_ending(raw: &str) -> (r: String)
    ensures
        r@ == bare_line(raw@),
{
    let chars = to_chars(raw);
    let mut end: usize = chars.len();
    if end > 0 && chars[end - 1] == '\n' {
        end -= 1;
        assert(raw@.drop_last() =~= raw@.subrange(0, end as int));
    } else {
        assert(raw@.subrange(0, end as int) =~= raw@);
    }
    let ghost once = raw@.subrange(0, end as int);
    if end > 0 && chars[end - 1] == '\r' {
        assert(once.last() == '\r');
        end -= 1;
        assert(once.drop_last() =~= raw@.subrange(0, end as int));
    } else if end > 0 {
        assert(once.last() == raw@[end - 1]);
    }
    slice(chars.as_slice(), 0, end)
}

/// Some lines without their endings, joined by line feeds.
pub open spec fn joined_lines(parts: Seq<Seq<char>>) -> Seq<char> {
    join(parts, "\n"@)
}

} // verus!
