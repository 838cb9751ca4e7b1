//! A draft in subsections, and the repair of some of them.

use vstd::prelude::*;
use vstd::string::StringExecFns;

use super::fences::{unwrap_outer_markdown_fence, unwrapped};
use super::lines::{line_models, lines_in, lines_ok, split_lines, LineModel};
use crate::code_blocks::{
    char_at, code, extents, find_code, find_run_end, lies_within, run_end, within, Extent,
};
use crate::json::{parse_natural, JsonModel};
use crate::llm::repair::skip_space;
use crate::text::{
    blen, decimal, is_ascii_digit, is_space, join, join_with, matches_at, number, occurs_at, slice, space,
    texts, to_chars, trim, trim_bounds, trimmed,
};

verus! {

// ---------------------------------------------------------------------------
// Subsections
// ---------------------------------------------------------------------------

/// The level of the heading that a line is, whatever its indentation; 0 where it
/// is none.
pub open spec fn line_level(line: Seq<char>) -> int {
    let rest = line.skip(run_end(line, ' ', 0));
    let level = run_end(rest, '#', 0);
    if 1 <= level <= 6 && char_at(rest, level) == ' ' {
        level
    } else {
        0
    }
}

/// The level of the heading that a line of a text is, outside code.
pub open spec fn level_at(l: LineModel, literals: Seq<Extent>) -> int {
    if within(literals, l.at) {
        0
    } else {
        line_level(l.text)
    }
}

/// The highest level of the headings in the first `count` lines; 0 where there
/// is none.
pub open spec fn highest(lines: Seq<LineModel>, literals: Seq<Extent>, count: nat) -> int
    decreases count,
{
    if count == 0 {
        0
    } else {
        let so_far = highest(lines, literals, (count - 1) as nat);
        let level = level_at(lines[count - 1], literals);
        if level > 0 && (so_far == 0 || level < so_far) {
            level
        } else {
            so_far
        }
    }
}

/// Where the headings of a level begin in the first `count` lines.
pub open spec fn headings_of_level(
    lines: Seq<LineModel>,
    literals: Seq<Extent>,
    level: int,
    count: nat,
) -> Seq<int>
    decreases count,
{
    if count == 0 {
        Seq::empty()
    } else {
        let so_far = headings_of_level(lines, literals, level, (count - 1) as nat);
        if level_at(lines[count - 1], literals) == level {
            so_far.push(lines[count - 1].at)
        } else {
            so_far
        }
    }
}

/// The parts of a text between the first `count` pairs of neighboring cuts,
/// without those that are blank.
pub open spec fn parts_between(s: Seq<char>, cuts: Seq<int>, count: nat) -> Seq<Seq<char>>
    decreases count,
{
    if count == 0 {
        Seq::empty()
    } else {
        let so_far = parts_between(s, cuts, (count - 1) as nat);
        let part = trim(s.subrange(cuts[count - 1], cuts[count as int]));
        if part.len() == 0 {
            so_far
        } else {
            so_far.push(part)
        }
    }
}

/// Cuts with the beginning and the end of a text.
pub open spec fn with_ends(cuts: Seq<int>, len: int) -> Seq<int> {
    (if cuts.len() > 0 && cuts[0] == 0 {
        cuts
    } else {
        seq![0int] + cuts
    }).push(len)
}

/// A draft split at its topmost headings outside code. What stands before the
/// first of them is a part of its own.
pub open spec fn subsections_of(s: Seq<char>) -> Seq<Seq<char>> {
    let lines = lines_in(s);
    let literals = code(s);
    let top = highest(lines, literals, lines.len());
    if top == 0 {
        seq![s]
    } else {
        let cuts = with_ends(
            headings_of_level(lines, literals, top, lines.len()),
            s.len() as int,
        );
        parts_between(s, cuts, (cuts.len() - 1) as nat)
    }
}

/// The level of the heading that a line is.
fn find_level(line: &str) -> (r: usize)
    ensures
        r == line_level(line@),
{
    let chars = to_chars(line);
    let n: usize = chars.len();
    assert(line@.subrange(0, n as int) =~= line@);
    let lead: usize = find_run_end(chars.as_slice(), ' ', 0, n);
    let ghost rest = line@.skip(lead as int);
    assert(rest =~= line@.subrange(lead as int, n as int));
    let end: usize = find_run_end(chars.as_slice(), '#', lead, n);
    let level: usize = end - lead;
    if level < 1 || level > 6 || end == n || chars[end] != ' ' {
        0
    } else {
        level
    }
}

/// The values of cuts.
spec fn cut_models(v: Seq<usize>) -> Seq<int> {
    v.map_values(|c: usize| c as int)
}

/// Cuts rise and lie in the text.
spec fn cuts_ok(v: Seq<usize>, len: nat) -> bool {
    &&& forall|k: int| 0 <= k < v.len() ==> (#[trigger] v[k]) <= len
    &&& forall|j: int, k: int| 0 <= j < k < v.len() ==> v[j] <= v[k]
}

/// Splits a draft at its topmost headings outside code.
pub fn subsections(markdown: &str) -> (r: Vec<String>)
    ensures
        texts(r@) == subsections_of(markdown@),
{
    let ghost s = markdown@;
    let chars = to_chars(markdown);
    let total: usize = chars.len();
    let literals = find_code(chars.as_slice());
    let ghost lits = code(s);
    let lines = split_lines(markdown);
    let ghost ls = line_models(lines@);
    let n: usize = lines.len();
    assert(ls.len() == n);
    let mut top: usize = 0;
    let mut levels: Vec<usize> = Vec::new();
    let mut i: usize = 0;
    while i < n
        invariant
            i <= n == lines@.len(),
            ls == line_models(lines@),
            extents(literals@) == lits,
            top == highest(ls, lits, i as nat),
            levels@.len() == i,
            forall|k: int| 0 <= k < i ==> #[trigger] levels@[k] == level_at(ls[k], lits),
        decreases n - i,
    {
        assert(ls[i as int] == lines@[i as int]@);
        let level: usize = if lies_within(&literals, lines[i].at) {
            0
        } else {
            find_level(lines[i].text.as_str())
        };
        if level > 0 && (top == 0 || level < top) {
            top = level;
        }
        levels.push(level);
        i += 1;
    }
    if top == 0 {
        let r = vec![String::from_str(markdown)];
        assert(texts(r@) =~= seq![s]);
        return r;
    }
    let ghost goal_cuts = headings_of_level(ls, lits, top as int, n as nat);
    let mut cuts: Vec<usize> = Vec::new();
    let mut k: usize = 0;
    assert(cut_models(cuts@) =~= Seq::empty());
    while k < n
        invariant
            k <= n == lines@.len(),
            ls == line_models(lines@),
            lines_ok(s, ls, 0),
            levels@.len() == n,
            forall|j: int| 0 <= j < n ==> #[trigger] levels@[j] == level_at(ls[j], lits),
            cut_models(cuts@) == headings_of_level(ls, lits, top as int, k as nat),
            cuts_ok(cuts@, s.len()),
            forall|j: int|
                0 <= j < cuts@.len() ==> (k < n ==> (#[trigger] cuts@[j]) <= ls[k as int].at),
        decreases n - k,
    {
        assert(ls[k as int] == lines@[k as int]@);
        assert(levels@[k as int] == level_at(ls[k as int], lits));
        let at: usize = lines[k].at;
        if levels[k] == top {
            assert(cut_models(cuts@.push(at)) =~= cut_models(cuts@).push(at as int));
            cuts.push(at);
        }
        proof {
            if k + 1 < n {
                assert(ls[k as int].at + ls[k as int].text.len() <= ls[k + 1].at);
            }
        }
        k += 1;
    }
    if cuts.len() == 0 || cuts[0] != 0 {
        let ghost was = cut_models(cuts@);
        cuts.insert(0, 0);
        assert(cut_models(cuts@) =~= seq![0int] + was);
    } else {
        assert(cut_models(cuts@)[0] == 0);
    }
    let ghost most = cut_models(cuts@);
    cuts.push(total);
    let ghost all = cut_models(cuts@);
    assert(all =~= most.push(total as int));
    assert(all == with_ends(goal_cuts, s.len() as int));
    let mut r: Vec<String> = Vec::new();
    let mut m: usize = 1;
    assert(texts(r@) =~= Seq::empty());
    while m < cuts.len()
        invariant
            1 <= m <= cuts@.len(),
            chars@ == s,
            all == cut_models(cuts@),
            cuts_ok(cuts@, s.len()),
            texts(r@) == parts_between(s, all, (m - 1) as nat),
        decreases cuts@.len() - m,
    {
        assert(all[m - 1] == cuts@[m - 1]);
        assert(all[m as int] == cuts@[m as int]);
        assert(cuts@[m - 1] <= cuts@[m as int]);
        let b = trim_bounds(chars.as_slice(), cuts[m - 1], cuts[m]);
        if b.0 < b.1 {
            let part = slice(chars.as_slice(), b.0, b.1);
            assert(texts(r@.push(part)) =~= texts(r@).push(part@));
            r.push(part);
        }
        m += 1;
    }
    r
}

// ---------------------------------------------------------------------------
// Markers
// ---------------------------------------------------------------------------

/// How the marker of a subsection begins.
pub const SUBSECTION_MARKER: &'static str = "<!-- DOCCRAFT_SUBSECTION ";

/// The first position from `at` on that holds neither white space, a colon nor a
/// number sign.
pub open spec fn skip_marks(s: Seq<char>, at: int) -> int
    decreases s.len() - at,
{
    if 0 <= at < s.len() && (is_space(s[at]) || s[at] == ':' || s[at] == '#') {
        skip_marks(s, at + 1)
    } else {
        at
    }
}

/// Whether `\d` of the `regex` crate matches a character that is not ASCII.
pub uninterp spec fn unicode_digit(c: char) -> bool;

/// A decimal digit of some script.
pub open spec fn decimal_digit(c: char) -> bool {
    if (c as u32) < 128 {
        is_ascii_digit(c)
    } else {
        unicode_digit(c)
    }
}

/// `regex::Regex::is_match` with the class `\d` alone, which is a function of the
/// character: the decimal digits of Unicode, of ASCII `0` to `9`.
#[verifier::external_body]
fn is_decimal_digit(c: char) -> (r: bool)
    ensures
        r == (if (c as u32) < 128 {
            is_ascii_digit(c)
        } else {
            unicode_digit(c)
        }),
{
    regex::Regex::new(r"^\d$").is_ok_and(|digit| digit.is_match(c.encode_utf8(&mut [0; 4])))
}

/// Where the digits that begin at `from` end.
pub open spec fn decimal_end(s: Seq<char>, from: int) -> int
    decreases s.len() - from,
{
    if 0 <= from < s.len() && decimal_digit(s[from]) {
        decimal_end(s, from + 1)
    } else {
        from
    }
}

/// The digits in a line that is the marker of a subsection.
pub open spec fn marker_digits(line: Seq<char>) -> Option<Seq<char>> {
    let name = skip_space(line, 4);
    let mark = skip_marks(line, name + 19);
    let end = decimal_end(line, mark);
    let close = skip_space(line, end);
    if occurs_at(line, "<!--"@, 0) && occurs_at(line, "DOCCRAFT_SUBSECTION"@, name) && mark < end
        && close + 3 == line.len() && occurs_at(line, "-->"@, close) {
        Some(line.subrange(mark, end))
    } else {
        None
    }
}

/// The number that digits write, where it fits.
pub open spec fn small_number(digits: Seq<char>) -> Option<usize> {
    match JsonModel::Num(digits).natural() {
        Some(n) => if n <= usize::MAX {
            Some(n as usize)
        } else {
            None
        },
        None => None,
    }
}

/// A marker: where its line begins and ends, and the number on it, where it
/// fits.
pub struct MarkerModel {
    pub at: int,
    pub end: int,
    pub number: Option<usize>,
}

/// The markers in the first `count` lines, outside code.
pub open spec fn markers_in(lines: Seq<LineModel>, literals: Seq<Extent>, count: nat) -> Seq<
    MarkerModel,
>
    decreases count,
{
    if count == 0 {
        Seq::empty()
    } else {
        let so_far = markers_in(lines, literals, (count - 1) as nat);
        let l = lines[count - 1];
        match marker_digits(trim(l.text)) {
            Some(digits) => if within(literals, l.at) {
                so_far
            } else {
                so_far.push(
                    MarkerModel {
                        at: l.at,
                        end: l.at + l.text.len() as int,
                        number: small_number(digits),
                    },
                )
            },
            None => so_far,
        }
    }
}

/// The digits in a line that is the marker of a subsection.
fn find_marker(line: &str) -> (r: Option<String>)
    ensures
        match marker_digits(line@) {
            Some(d) => r is Some && r->0@ == d,
            None => r is None,
        },
{
    let chars = to_chars(line);
    let n: usize = chars.len();
    let ghost s = line@;
    let open = to_chars("<!--");
    let word = to_chars("DOCCRAFT_SUBSECTION");
    let close = to_chars("-->");
    proof {
        reveal_strlit("<!--");
        reveal_strlit("DOCCRAFT_SUBSECTION");
        reveal_strlit("-->");
    }
    if n < 4 || !matches_at(chars.as_slice(), open.as_slice(), 0) {
        return None;
    }
    let mut name: usize = 4;
    while name < n && space(chars[name])
        invariant
            4 <= name <= n == s.len(),
            chars@ == s,
            skip_space(s, 4) == skip_space(s, name as int),
        decreases n - name,
    {
        name += 1;
    }
    if !matches_at(chars.as_slice(), word.as_slice(), name) {
        return None;
    }
    let mut mark: usize = name + 19;
    while mark < n && (space(chars[mark]) || chars[mark] == ':' || chars[mark] == '#')
        invariant
            name + 19 <= mark <= n == s.len(),
            chars@ == s,
            skip_marks(s, name + 19) == skip_marks(s, mark as int),
        decreases n - mark,
    {
        mark += 1;
    }
    let mut end: usize = mark;
    while end < n && is_decimal_digit(chars[end])
        invariant
            mark <= end <= n == s.len(),
            chars@ == s,
            decimal_end(s, mark as int) == decimal_end(s, end as int),
        decreases n - end,
    {
        end += 1;
    }
    if end == mark {
        return None;
    }
    let mut last: usize = end;
    while last < n && space(chars[last])
        invariant
            end <= last <= n == s.len(),
            chars@ == s,
            skip_space(s, end as int) == skip_space(s, last as int),
        decreases n - last,
    {
        last += 1;
    }
    if n - last != 3 || !matches_at(chars.as_slice(), close.as_slice(), last) {
        return None;
    }
    Some(slice(chars.as_slice(), mark, end))
}

/// A marker.
struct Marker {
    at: usize,
    end: usize,
    number: Option<usize>,
}

impl View for Marker {
    type V = MarkerModel;

    closed spec fn view(&self) -> MarkerModel {
        MarkerModel { at: self.at as int, end: self.end as int, number: self.number }
    }
}

spec fn marker_models(v: Seq<Marker>) -> Seq<MarkerModel> {
    v.map_values(|m: Marker| m@)
}

/// Markers follow one another in the text.
spec fn markers_ok(v: Seq<Marker>, len: nat) -> bool {
    &&& forall|k: int| 0 <= k < v.len() ==> (#[trigger] v[k]).at <= v[k].end <= len
    &&& forall|j: int, k: int|
        0 <= j < k < v.len() ==> (#[trigger] v[j]).end <= (#[trigger] v[k]).at
}

/// The markers in a text, outside code.
fn find_markers(output: &str) -> (r: Vec<Marker>)
    ensures
        marker_models(r@) == markers_in(
            lines_in(output@),
            code(output@),
            lines_in(output@).len(),
        ),
        markers_ok(r@, output@.len()),
{
    let ghost s = output@;
    let chars = to_chars(output);
    let total: usize = chars.len();
    let literals = find_code(chars.as_slice());
    let ghost lits = code(s);
    let lines = split_lines(output);
    let ghost ls = line_models(lines@);
    let n: usize = lines.len();
    assert(ls.len() == n);
    let mut r: Vec<Marker> = Vec::new();
    let mut i: usize = 0;
    assert(marker_models(r@) =~= Seq::empty());
    while i < n
        invariant
            i <= n == lines@.len(),
            total == s.len(),
            ls == line_models(lines@),
            lines_ok(s, ls, 0),
            extents(literals@) == lits,
            marker_models(r@) == markers_in(ls, lits, i as nat),
            markers_ok(r@, s.len()),
            forall|j: int|
                0 <= j < r@.len() ==> (i < n ==> (#[trigger] r@[j]).end <= ls[i as int].at),
        decreases n - i,
    {
        let l = &lines[i];
        assert(ls[i as int] == l@);
        let bare = trimmed(l.text.as_str());
        if let Some(digits) = find_marker(bare.as_str()) {
            if !lies_within(&literals, l.at) {
                let size: usize = to_chars(l.text.as_str()).len();
                assert(l.at + size <= total);
                let number = match parse_natural(digits.as_str()) {
                    Some(v) => if v <= usize::MAX as u64 {
                        Some(v as usize)
                    } else {
                        None
                    },
                    None => None,
                };
                let m = Marker { at: l.at, end: l.at + size, number };
                assert(marker_models(r@.push(m)) =~= marker_models(r@).push(m@));
                r.push(m);
            }
        }
        proof {
            if i + 1 < n {
                assert(ls[i as int].at + ls[i as int].text.len() <= ls[i + 1].at);
            }
        }
        i += 1;
    }
    r
}

// ---------------------------------------------------------------------------
// Splicing
// ---------------------------------------------------------------------------

/// Why a repair cannot be applied.
#[derive(Clone, Copy, Debug, PartialEq, Eq, Structural)]
pub enum SpliceFault {
    /// The number on a marker cannot be read.
    Number,
    /// There are no markers though several subsections were shown.
    NoMarkers,
    /// There are no markers, and the answer is too short to be the whole
    /// section: its bytes, and those of the draft.
    TooShort(usize, usize),
    /// Text stands before the first marker.
    Before,
    /// A marker names a subsection that was not shown.
    NotShown(usize),
    /// A marker names no subsection.
    NoSuch(usize),
    /// A subsection is replaced twice.
    Twice(usize),
}

/// The bytes of the first `count` parts.
pub open spec fn draft_bytes(parts: Seq<Seq<char>>, count: nat) -> nat
    decreases count,
{
    if count == 0 {
        0
    } else {
        draft_bytes(parts, (count - 1) as nat) + blen(parts[count - 1])
    }
}

/// What is put in place of each part, and behind the last one.
pub type Replacements = Seq<Option<Seq<char>>>;

/// Nothing is replaced.
pub open spec fn nothing_replaced(parts: nat) -> Replacements {
    Seq::new(parts + 1, |i: int| None::<Seq<char>>)
}

/// Where the text behind a marker ends.
pub open spec fn body_end(markers: Seq<MarkerModel>, i: int, len: int) -> int {
    if i + 1 < markers.len() {
        markers[i + 1].at
    } else {
        len
    }
}

/// What the first `count` markers replace, or what is wrong with them.
pub open spec fn replacements(
    output: Seq<char>,
    markers: Seq<MarkerModel>,
    parts: nat,
    targets: Option<Seq<usize>>,
    count: nat,
) -> Result<Replacements, SpliceFault>
    decreases count,
{
    if count == 0 {
        Ok(nothing_replaced(parts))
    } else {
        match replacements(output, markers, parts, targets, (count - 1) as nat) {
            Err(f) => Err(f),
            Ok(so_far) => {
                let m = markers[count - 1];
                let n = m.number->0;
                let body = trim(
                    output.subrange(m.end, body_end(markers, count - 1, output.len() as int)),
                );
                if targets is Some && !targets->0.contains(n) {
                    Err(SpliceFault::NotShown(n))
                } else if targets is None && n >= parts {
                    Err(SpliceFault::NoSuch(n))
                } else if so_far[n as int] is Some {
                    Err(SpliceFault::Twice(n))
                } else {
                    Ok(so_far.update(n as int, Some(body)))
                }
            },
        }
    }
}

/// The first `count` parts with their replacements, without those that are
/// empty.
pub open spec fn replaced_parts(parts: Seq<Seq<char>>, with: Replacements, count: nat) -> Seq<
    Seq<char>,
>
    decreases count,
{
    if count == 0 {
        Seq::empty()
    } else {
        let so_far = replaced_parts(parts, with, (count - 1) as nat);
        let part = match with[count - 1] {
            Some(t) => t,
            None => parts[count - 1],
        };
        if part.len() == 0 {
            so_far
        } else {
            so_far.push(part)
        }
    }
}

/// A draft with replacements, and with what is put behind it.
pub open spec fn spliced(parts: Seq<Seq<char>>, with: Replacements) -> Seq<char> {
    let body = replaced_parts(parts, with, parts.len());
    join(
        match with[parts.len() as int] {
            Some(t) => if t.len() == 0 {
                body
            } else {
                body.push(t)
            },
            None => body,
        },
        "\n\n"@,
    )
}

/// What a repair comes to: the whole section anew, a draft with replacements, or
/// a fault.
pub enum Splice {
    Whole,
    Spliced(Seq<char>),
    Fault(SpliceFault),
}

/// What the repair of a draft comes to.
pub open spec fn splice_of(
    parts: Seq<Seq<char>>,
    answer: Seq<char>,
    targets: Option<Seq<usize>>,
) -> Splice {
    let output = unwrapped(answer);
    let lines = lines_in(output);
    let markers = markers_in(lines, code(output), lines.len());
    let whole = trim(output);
    if exists|k: int| 0 <= k < markers.len() && (#[trigger] markers[k]).number is None {
        Splice::Fault(SpliceFault::Number)
    } else if markers.len() == 0 {
        match targets {
            Some(list) => if list.len() == 1 {
                Splice::Spliced(
                    spliced(
                        parts,
                        nothing_replaced(parts.len()).update(list[0] as int, Some(whole)),
                    ),
                )
            } else {
                Splice::Fault(SpliceFault::NoMarkers)
            },
            None => if blen(whole) * 2 >= draft_bytes(parts, parts.len()) {
                Splice::Whole
            } else {
                Splice::Fault(
                    SpliceFault::TooShort(
                        blen(whole) as usize,
                        draft_bytes(parts, parts.len()) as usize,
                    ),
                )
            },
        }
    } else if trim(output.take(markers[0].at)).len() > 0 {
        Splice::Fault(SpliceFault::Before)
    } else {
        match replacements(output, markers, parts.len(), targets, markers.len()) {
            Err(f) => Splice::Fault(f),
            Ok(with) => Splice::Spliced(spliced(parts, with)),
        }
    }
}

/// A repair changes nothing but the subsections that its markers name: what was
/// shown, where subsections were shown.
pub proof fn only_shown_subsections_change(
    output: Seq<char>,
    markers: Seq<MarkerModel>,
    parts: nat,
    targets: Seq<usize>,
    count: nat,
    i: usize,
)
    requires
        replacements(output, markers, parts, Some(targets), count) is Ok,
        i <= parts,
        !targets.contains(i),
        forall|k: int| 0 <= k < targets.len() ==> (#[trigger] targets[k]) <= parts,
    ensures
        replacements(output, markers, parts, Some(targets), count)->Ok_0.len() == parts + 1,
        replacements(output, markers, parts, Some(targets), count)->Ok_0[i as int] is None,
    decreases count,
{
    if count > 0 {
        only_shown_subsections_change(
            output,
            markers,
            parts,
            targets,
            (count - 1) as nat,
            i,
        );
    }
}

proof fn lemma_replacements(
    output: Seq<char>,
    markers: Seq<MarkerModel>,
    parts: nat,
    targets: Option<Seq<usize>>,
    count: nat,
    all: nat,
)
    requires
        count <= all,
    ensures
        replacements(output, markers, parts, targets, count) is Err ==> replacements(
            output,
            markers,
            parts,
            targets,
            all,
        ) == replacements(output, markers, parts, targets, count),
    decreases all - count,
{
    if count < all {
        lemma_replacements(output, markers, parts, targets, count, (all - 1) as nat);
    }
}

/// The values of replacements.
spec fn replacement_models(v: Seq<Option<String>>) -> Replacements {
    v.map_values(
        |t: Option<String>|
            match t {
                Some(t) => Some(t@),
                None => None,
            },
    )
}

/// A draft with replacements.
fn write_spliced(parts: &Vec<String>, with: &Vec<Option<String>>) -> (r: String)
    requires
        with@.len() == parts@.len() + 1,
    ensures
        r@ == spliced(texts(parts@), replacement_models(with@)),
{
    let ghost ps = texts(parts@);
    let ghost ws = replacement_models(with@);
    let n: usize = parts.len();
    let mut list: Vec<String> = Vec::new();
    let mut i: usize = 0;
    assert(texts(list@) =~= Seq::empty());
    assert(ps.len() == n);
    while i < n
        invariant
            i <= n == parts@.len(),
            with@.len() == n + 1,
            ps == texts(parts@),
            ws == replacement_models(with@),
            texts(list@) == replaced_parts(ps, ws, i as nat),
        decreases n - i,
    {
        assert(ps[i as int] == parts@[i as int]@);
        assert(ws[i as int] == (match with@[i as int] {
            Some(t) => Some(t@),
            None => None,
        }));
        let part = match &with[i] {
            Some(t) => t.clone(),
            None => parts[i].clone(),
        };
        if part.as_str().unicode_len() > 0 {
            assert(texts(list@.push(part)) =~= texts(list@).push(part@));
            list.push(part);
        }
        i += 1;
    }
    assert(ws[n as int] == (match with@[n as int] {
        Some(t) => Some(t@),
        None => None,
    }));
    if let Some(t) = &with[n] {
        if t.as_str().unicode_len() > 0 {
            let part = t.clone();
            assert(texts(list@.push(part)) =~= texts(list@).push(part@));
            list.push(part);
        }
    }
    join_with(&list, "\n\n")
}

/// The numbers of a list of targets.
pub open spec fn target_numbers(targets: Option<&[usize]>) -> Option<Seq<usize>> {
    match targets {
        Some(t) => Some(t@),
        None => None,
    }
}

/// Whether a list holds a number.
fn holds_number(list: &[usize], n: usize) -> (r: bool)
    ensures
        r == list@.contains(n),
{
    let mut i: usize = 0;
    while i < list.len()
        invariant
            i <= list@.len(),
            forall|k: int| 0 <= k < i ==> list@[k] != n,
        decreases list@.len() - i,
    {
        if list[i] == n {
            return true;
        }
        i += 1;
    }
    false
}

/// The bytes of a draft, as far as a number holds them.
fn count_draft(parts: &Vec<String>) -> (r: usize)
    requires
        draft_bytes(texts(parts@), parts@.len()) <= usize::MAX,
    ensures
        r == draft_bytes(texts(parts@), parts@.len()),
{
    let ghost ps = texts(parts@);
    let mut r: usize = 0;
    let mut i: usize = 0;
    while i < parts.len()
        invariant
            i <= parts@.len(),
            ps == texts(parts@),
            draft_bytes(ps, parts@.len()) <= usize::MAX,
            r == draft_bytes(ps, i as nat),
        decreases parts@.len() - i,
    {
        proof {
            assert(ps[i as int] == parts@[i as int]@);
            lemma_draft(ps, (i + 1) as nat, parts@.len());
        }
        r += parts[i].as_str().as_bytes().len();
        i += 1;
    }
    r
}

proof fn lemma_draft(parts: Seq<Seq<char>>, count: nat, all: nat)
    requires
        count <= all,
    ensures
        draft_bytes(parts, count) <= draft_bytes(parts, all),
    decreases all - count,
{
    if count < all {
        lemma_draft(parts, count, (all - 1) as nat);
    }
}

/// Applies a repair that returned only the subsections that it changed.
///
/// `targets`, where given, are the subsections that the repair was shown, with
/// the number of parts standing for a new one; only those may come back, and an
/// answer without markers to a single target is that target. Without `targets`,
/// `None` is an answer without markers about as long as the draft: the whole
/// section anew. A much shorter one has lost its markers, and taking it as the
/// whole would throw every untouched subsection away.
pub fn splice_subsections(parts: &Vec<String>, output: &str, targets: Option<&[usize]>) -> (r: Result<
    Option<String>,
    SpliceFault,
>)
    requires
        parts@.len() < usize::MAX,
        draft_bytes(texts(parts@), parts@.len()) <= usize::MAX,
        targets matches Some(list) ==> forall|k: int|
            0 <= k < list@.len() ==> (#[trigger] list@[k]) <= parts@.len(),
    ensures
        match splice_of(texts(parts@), output@, target_numbers(targets)) {
            Splice::Whole => r is Ok && r->Ok_0 is None,
            Splice::Spliced(text) => r is Ok && r->Ok_0 is Some && r->Ok_0->0@ == text,
            Splice::Fault(f) => r == Err::<Option<String>, SpliceFault>(f),
        },
{
    let ghost ps = texts(parts@);
    let ghost ts = target_numbers(targets);
    let n: usize = parts.len();
    assert(ps.len() == n);
    let answer = unwrap_outer_markdown_fence(output);
    let ghost s = answer@;
    let chars = to_chars(answer.as_str());
    let total: usize = chars.len();
    let markers = find_markers(answer.as_str());
    let ghost ms = marker_models(markers@);
    let mut i: usize = 0;
    while i < markers.len()
        invariant
            i <= markers@.len(),
            ms == marker_models(markers@),
            s == answer@,
            s == unwrapped(output@),
            ms == markers_in(lines_in(s), code(s), lines_in(s).len()),
            forall|k: int| 0 <= k < i ==> (#[trigger] ms[k]).number is Some,
        decreases markers@.len() - i,
    {
        assert(ms[i as int] == markers@[i as int]@);
        if markers[i].number.is_none() {
            return Err(SpliceFault::Number);
        }
        i += 1;
    }
    let whole = trimmed(answer.as_str());
    let mut with: Vec<Option<String>> = Vec::new();
    let mut j: usize = 0;
    while j <= n
        invariant
            j <= n + 1,
            n < usize::MAX,
            with@.len() == j,
            forall|k: int| 0 <= k < j ==> (#[trigger] with@[k]) is None,
        decreases n + 1 - j,
    {
        with.push(None);
        j += 1;
    }
    assert(replacement_models(with@) =~= nothing_replaced(n as nat));
    if markers.len() == 0 {
        assert(ms.len() == 0);
        match targets {
            Some(list) => {
                if list.len() != 1 {
                    return Err(SpliceFault::NoMarkers);
                }
                let at: usize = list[0];
                let ghost wm = whole@;
                with.set(at, Some(whole));
                assert(replacement_models(with@) =~= nothing_replaced(n as nat).update(
                    at as int,
                    Some(wm),
                ));
                return Ok(Some(write_spliced(parts, &with)));
            },
            None => {
                let draft: usize = count_draft(parts);
                let size: usize = whole.as_str().as_bytes().len();
                let half: usize = draft / 2 + draft % 2;
                if size >= half {
                    return Ok(None);
                }
                return Err(SpliceFault::TooShort(size, draft));
            },
        }
    }
    assert(ms[0] == markers@[0]@);
    let b = trim_bounds(chars.as_slice(), 0, markers[0].at);
    assert(s.take(markers@[0].at as int) =~= s.subrange(0, markers@[0].at as int));
    if b.0 < b.1 {
        return Err(SpliceFault::Before);
    }
    let mut k: usize = 0;
    while k < markers.len()
        invariant
            k <= markers@.len(),
            n == parts@.len(),
            ps == texts(parts@),
            ps.len() == n,
            ts == target_numbers(targets),
            targets matches Some(list) ==> forall|k: int|
                0 <= k < list@.len() ==> (#[trigger] list@[k]) <= n,
            s == answer@,
            s == unwrapped(output@),
            chars@ == s,
            total == s.len(),
            ms == marker_models(markers@),
            ms == markers_in(lines_in(s), code(s), lines_in(s).len()),
            ms.len() > 0,
            markers_ok(markers@, s.len()),
            forall|k: int| 0 <= k < ms.len() ==> (#[trigger] ms[k]).number is Some,
            trim(s.take(ms[0].at)).len() == 0,
            with@.len() == n + 1,
            replacements(s, ms, n as nat, ts, k as nat) == Ok::<Replacements, SpliceFault>(
                replacement_models(with@),
            ),
        decreases markers@.len() - k,
    {
        assert(ms[k as int] == markers@[k as int]@);
        proof {
            lemma_replacements(s, ms, n as nat, ts, (k + 1) as nat, ms.len());
        }
        let at: usize = match markers[k].number {
            Some(v) => v,
            None => 0,
        };
        match targets {
            Some(list) => {
                if !holds_number(list, at) {
                    return Err(SpliceFault::NotShown(at));
                }
            },
            None => {
                if at >= n {
                    return Err(SpliceFault::NoSuch(at));
                }
            },
        }
        assert(replacement_models(with@)[at as int] == (match with@[at as int] {
            Some(t) => Some(t@),
            None => None,
        }));
        if with[at].is_some() {
            return Err(SpliceFault::Twice(at));
        }
        let end: usize = if k + 1 < markers.len() {
            assert(ms[k + 1] == markers@[k + 1]@);
            markers[k + 1].at
        } else {
            total
        };
        let b = trim_bounds(chars.as_slice(), markers[k].end, end);
        let body = slice(chars.as_slice(), b.0, b.1);
        let ghost was = replacement_models(with@);
        let ghost bm = body@;
        with.set(at, Some(body));
        assert(replacement_models(with@) =~= was.update(at as int, Some(bm)));
        k += 1;
    }
    assert(ms.len() == markers@.len());
    Ok(Some(write_spliced(parts, &with)))
}

// ---------------------------------------------------------------------------
// Messages
// ---------------------------------------------------------------------------

/// The first `count` numbers of a list, with commas between them.
pub open spec fn listed(list: Seq<usize>, count: nat) -> Seq<char>
    decreases count,
{
    if count == 0 {
        Seq::empty()
    } else {
        let so_far = listed(list, (count - 1) as nat);
        (if count == 1 {
            so_far
        } else {
            so_far + ", "@
        }) + decimal(list[count - 1] as nat)
    }
}

/// What the next attempt is told of a repair that cannot be applied.
pub open spec fn splice_text(f: SpliceFault, parts: nat, targets: Seq<usize>) -> Seq<char> {
    match f {
        SpliceFault::Number => "A subsection marker has a number that cannot be read"@,
        SpliceFault::NoMarkers => "The repair returned subsections without "@ + SUBSECTION_MARKER@
            + "n --> markers; return each shown subsection after its marker"@,
        SpliceFault::TooShort(size, draft) => "The repair returned "@ + decimal(size as nat)
            + " bytes without "@ + SUBSECTION_MARKER@ + "n --> markers for a "@ + decimal(
            draft as nat,
        )
            + "-byte section. Either return the changed subsections each after its marker, or return the whole corrected section"@,
        SpliceFault::Before => "Text appears before the first "@ + SUBSECTION_MARKER@
            + "n --> marker; put every change inside the subsection it replaces"@,
        SpliceFault::NotShown(n) => "Subsection marker "@ + decimal(n as nat)
            + " names a subsection this repair was not shown; return only ["@ + listed(
            targets,
            targets.len(),
        ) + "]"@,
        SpliceFault::NoSuch(n) => "Subsection marker "@ + decimal(n as nat)
            + " names no subsection; the draft has subsections 0-"@ + decimal(
            if parts == 0 {
                0
            } else {
                (parts - 1) as nat
            },
        ),
        SpliceFault::Twice(n) => "Subsection "@ + decimal(n as nat) + " is replaced twice"@,
    }
}

impl SpliceFault {
    /// What the next attempt is told of a repair that cannot be applied, given
    /// the number of parts and the targets.
    pub fn message(&self, parts: usize, targets: &[usize]) -> (r: String)
        ensures
            r@ == splice_text(*self, parts as nat, targets@),
    {
        match self {
            SpliceFault::Number => String::from_str(
                "A subsection marker has a number that cannot be read",
            ),
            SpliceFault::NoMarkers => {
                let mut s = String::from_str("The repair returned subsections without ");
                s.push_str(SUBSECTION_MARKER);
                s.push_str("n --> markers; return each shown subsection after its marker");
                s
            },
            SpliceFault::TooShort(size, draft) => {
                let mut s = String::from_str("The repair returned ");
                s.push_str(number(*size as u64).as_str());
                s.push_str(" bytes without ");
                s.push_str(SUBSECTION_MARKER);
                s.push_str("n --> markers for a ");
                s.push_str(number(*draft as u64).as_str());
                s.push_str(
                    "-byte section. Either return the changed subsections each after its marker, or return the whole corrected section",
                );
                s
            },
            SpliceFault::Before => {
                let mut s = String::from_str("Text appears before the first ");
                s.push_str(SUBSECTION_MARKER);
                s.push_str("n --> marker; put every change inside the subsection it replaces");
                s
            },
            SpliceFault::NotShown(n) => {
                let mut s = String::from_str("Subsection marker ");
                s.push_str(number(*n as u64).as_str());
                s.push_str(" names a subsection this repair was not shown; return only [");
                let ghost head = s@;
                let mut i: usize = 0;
                assert(head + listed(targets@, 0) =~= head);
                while i < targets.len()
                    invariant
                        i <= targets@.len(),
                        s@ == head + listed(targets@, i as nat),
                    decreases targets@.len() - i,
                {
                    if i > 0 {
                        s.push_str(", ");
                    }
                    s.push_str(number(targets[i] as u64).as_str());
                    assert(s@ =~= head + listed(targets@, (i + 1) as nat));
                    i += 1;
                }
                s.push_str("]");
                s
            },
            SpliceFault::NoSuch(n) => {
                let mut s = String::from_str("Subsection marker ");
                s.push_str(number(*n as u64).as_str());
                s.push_str(" names no subsection; the draft has subsections 0-");
                let last: u64 = if parts == 0 {
                    0
                } else {
                    (parts - 1) as u64
                };
                s.push_str(number(last).as_str());
                s
            },
            SpliceFault::Twice(n) => {
                let mut s = String::from_str("Subsection ");
                s.push_str(number(*n as u64).as_str());
                s.push_str(" is replaced twice");
                s
            },
        }
    }
}

} // verus!
