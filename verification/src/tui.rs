//! The terminal interface's text: history cells drawn with box characters,
//! lines wrapped to the width, the scroll position of the history, and the
//! input line with its history.
use crate::agent::{AgentEvent, AgentTask, EventView, TaskView};
use crate::text::{
    append_chars, chars_of, is_ws, char_is_ws, join, lines, split_lines, starts_with_lit,
    string_of, trim, trim_chars, trim_end, trim_end_chars, trim_start, trim_start_chars,
    lemma_trim_lengths,
};
use crate::world::lit_string;
use vstd::prelude::*;

verus! {

// ---------------------------------------------------------------------------
// Widths
// ---------------------------------------------------------------------------

/// The first `width` characters of a text.
pub open spec fn take_width(value: Seq<char>, width: nat) -> Seq<char> {
    if width < value.len() {
        value.take(width as int)
    } else {
        value
    }
}

/// The first `width` characters of a text.
pub fn trim_to_width(value: &str, width: usize) -> (r: String)
    ensures
        r@ == take_width(value@, width as nat),
{
    let v = chars_of(value);
    if width < v.len() {
        let mut r: Vec<char> = Vec::new();
        let mut i: usize = 0;
        while i < width
            invariant
                0 <= i <= width < v@.len(),
                r@ == v@.take(i as int),
            decreases width - i,
        {
            r.push(v[i]);
            i += 1;
            assert(r@ =~= v@.take(i as int));
        }
        string_of(r.as_slice())
    } else {
        value.to_owned()
    }
}

proof fn lemma_encode_utf8_append(a: Seq<char>, b: Seq<char>)
    ensures
        vstd::utf8::encode_utf8(a + b) == vstd::utf8::encode_utf8(a) + vstd::utf8::encode_utf8(b),
    decreases a.len(),
{
    if a.len() > 0 {
        assert((a + b).drop_first() =~= a.drop_first() + b);
        lemma_encode_utf8_append(a.drop_first(), b);
        assert(vstd::utf8::encode_scalar(a[0] as u32) + (vstd::utf8::encode_utf8(a.drop_first())
            + vstd::utf8::encode_utf8(b)) =~= (vstd::utf8::encode_scalar(a[0] as u32)
            + vstd::utf8::encode_utf8(a.drop_first())) + vstd::utf8::encode_utf8(b));
    } else {
        assert(a + b =~= b);
        assert(vstd::utf8::encode_utf8(a) =~= Seq::<u8>::empty());
        assert(Seq::<u8>::empty() + vstd::utf8::encode_utf8(b) =~= vstd::utf8::encode_utf8(b));
    }
}

/// The number of UTF-8 bytes of a character.
fn utf8_width(c: char) -> (r: usize)
    ensures
        r == vstd::utf8::encode_utf8(seq![c]).len(),
{
    let u = c as u32;
    proof {
        vstd::utf8::char_is_scalar(c);
        assert(seq![c].drop_first() =~= Seq::<char>::empty());
        assert(vstd::utf8::encode_utf8(Seq::<char>::empty()) =~= Seq::<u8>::empty());
        assert(vstd::utf8::encode_utf8(seq![c]) =~= vstd::utf8::encode_scalar(u));
    }
    if u <= 0x7f {
        1
    } else if u <= 0x7ff {
        2
    } else if u <= 0xffff {
        3
    } else {
        4
    }
}

/// The byte position of the character at position `width`, or the byte
/// length of a text with no more than `width` characters.
pub fn byte_index_at_width(value: &str, width: usize) -> (r: usize)
    ensures
        r == vstd::utf8::encode_utf8(take_width(value@, width as nat)).len(),
{
    let v = chars_of(value);
    let ghost s = value@;
    let limit = if width < v.len() {
        width
    } else {
        v.len()
    };
    let total_bytes = value.as_bytes().len();
    assert(total_bytes == vstd::utf8::encode_utf8(s).len());
    let mut total: usize = 0;
    let mut i: usize = 0;
    assert(s.take(0) =~= Seq::<char>::empty());
    while i < limit
        invariant
            0 <= i <= limit <= v@.len(),
            v@ == s,
            total_bytes == vstd::utf8::encode_utf8(s).len(),
            total == vstd::utf8::encode_utf8(s.take(i as int)).len(),
        decreases limit - i,
    {
        proof {
            assert(s.take(i + 1) =~= s.take(i as int) + seq![s[i as int]]);
            lemma_encode_utf8_append(s.take(i as int), seq![s[i as int]]);
            assert(s =~= s.take(i + 1) + s.skip(i + 1));
            lemma_encode_utf8_append(s.take(i + 1), s.skip(i + 1));
        }
        let w = utf8_width(v[i]);
        total = total + w;
        i += 1;
    }
    proof {
        if width >= s.len() {
            assert(s.take(limit as int) =~= s);
        }
    }
    total
}

// ---------------------------------------------------------------------------
// Wrapping
// ---------------------------------------------------------------------------

/// The position of the last whitespace character, if any.
pub open spec fn last_ws_index(p: Seq<char>) -> Option<int>
    decreases p.len(),
{
    if p.len() == 0 {
        None
    } else if is_ws(p.last()) {
        Some(p.len() - 1)
    } else {
        last_ws_index(p.drop_last())
    }
}

/// Where a line longer than the width is broken: at the last whitespace
/// within the width (unless it is the first character), else at the width.
pub open spec fn break_point(remaining: Seq<char>, width: nat) -> int {
    match last_ws_index(remaining.take(width as int)) {
        Some(j) => if j > 0 {
            j
        } else {
            width as int
        },
        None => width as int,
    }
}

pub proof fn lemma_last_ws_index_bounds(p: Seq<char>)
    ensures
        last_ws_index(p) matches Some(j) ==> 0 <= j < p.len() && is_ws(p[j]),
    decreases p.len(),
{
    if p.len() > 0 && !is_ws(p.last()) {
        lemma_last_ws_index_bounds(p.drop_last());
    }
}

/// The pieces of a line longer than the width: each break drops the
/// whitespace at its end and at the start of what follows.
pub open spec fn wrap_pieces(remaining: Seq<char>, width: nat) -> Seq<Seq<char>>
    decreases remaining.len(),
{
    if width > 0 && remaining.len() > width {
        let split = break_point(remaining, width);
        proof {
            lemma_last_ws_index_bounds(remaining.take(width as int));
            lemma_trim_lengths(remaining.skip(split));
        }
        seq![trim_end(remaining.take(split))] + wrap_pieces(trim_start(remaining.skip(split)), width)
    } else {
        seq![remaining]
    }
}

/// A line wrapped to the width (one empty piece for an empty line or no width).
pub open spec fn wrapped(line: Seq<char>, width: nat) -> Seq<Seq<char>> {
    if width == 0 || line.len() == 0 {
        seq![seq![]]
    } else {
        wrap_pieces(trim_end(line), width)
    }
}

fn break_point_of(remaining: &[char], width: usize) -> (r: usize)
    requires
        0 < width < remaining@.len(),
    ensures
        r == break_point(remaining@, width as nat),
        0 < r <= width,
{
    let ghost p = remaining@.take(width as int);
    let mut j: usize = width;
    assert(p.take(width as int) =~= p);
    while j > 0 && !char_is_ws(remaining[j - 1])
        invariant
            0 <= j <= width < remaining@.len(),
            p == remaining@.take(width as int),
            last_ws_index(p) == last_ws_index(p.take(j as int)),
        decreases j,
    {
        assert(p.take(j as int).drop_last() =~= p.take(j - 1));
        j -= 1;
    }
    if j == 0 {
        assert(p.take(0) =~= Seq::<char>::empty());
        width
    } else {
        assert(p.take(j as int).last() == remaining@[j - 1]);
        if j - 1 > 0 {
            j - 1
        } else {
            width
        }
    }
}

fn wrap_pieces_of(line: &[char], width: usize) -> (r: Vec<Vec<char>>)
    requires
        width > 0,
    ensures
        r@.map_values(|w: Vec<char>| w@) == wrap_pieces(line@, width as nat),
{
    let mut remaining: Vec<char> = slice_all(line);
    let mut pieces: Vec<Vec<char>> = Vec::new();
    assert(pieces@.map_values(|w: Vec<char>| w@) + wrap_pieces(remaining@, width as nat)
        =~= wrap_pieces(line@, width as nat));
    while remaining.len() > width
        invariant
            width > 0,
            pieces@.map_values(|w: Vec<char>| w@) + wrap_pieces(remaining@, width as nat)
                == wrap_pieces(line@, width as nat),
        decreases remaining@.len(),
    {
        let split = break_point_of(remaining.as_slice(), width);
        let head = crate::text::slice_chars(remaining.as_slice(), 0, split);
        let segment = trim_end_chars(head.as_slice());
        let tail = crate::text::slice_chars(remaining.as_slice(), split, remaining.len());
        let next = trim_start_chars(tail.as_slice());
        proof {
            assert(head@ =~= remaining@.take(split as int));
            assert(tail@ =~= remaining@.skip(split as int));
            lemma_trim_lengths(tail@);
        }
        let ghost before = pieces@.map_values(|w: Vec<char>| w@);
        pieces.push(segment);
        assert(pieces@.map_values(|w: Vec<char>| w@) =~= before.push(trim_end(remaining@.take(split as int))));
        assert(wrap_pieces(remaining@, width as nat) == seq![trim_end(remaining@.take(split as int))]
            + wrap_pieces(next@, width as nat));
        assert(before.push(trim_end(remaining@.take(split as int))) + wrap_pieces(next@, width as nat)
            =~= before + wrap_pieces(remaining@, width as nat));
        remaining = next;
    }
    let ghost before = pieces@.map_values(|w: Vec<char>| w@);
    pieces.push(remaining);
    assert(pieces@.map_values(|w: Vec<char>| w@) =~= before + wrap_pieces(remaining@, width as nat));
    pieces
}

fn slice_all(v: &[char]) -> (r: Vec<char>)
    ensures
        r@ == v@,
{
    let r = crate::text::slice_chars(v, 0, v.len());
    assert(r@ =~= v@);
    r
}

/// A line wrapped to the width.
pub fn wrap_line(line: &str, width: usize) -> (r: Vec<String>)
    ensures
        r.deep_view() == wrapped(line@, width as nat),
{
    let v = chars_of(line);
    if width == 0 || v.len() == 0 {
        let mut r: Vec<String> = Vec::new();
        r.push(String::new());
        assert(r.deep_view() =~= seq![Seq::<char>::empty()]);
        return r;
    }
    let t = trim_end_chars(v.as_slice());
    let pieces = wrap_pieces_of(t.as_slice(), width);
    let ghost pv = pieces@.map_values(|w: Vec<char>| w@);
    let mut r: Vec<String> = Vec::new();
    let mut i: usize = 0;
    while i < pieces.len()
        invariant
            0 <= i <= pieces@.len(),
            pv == pieces@.map_values(|w: Vec<char>| w@),
            r.deep_view() == pv.take(i as int),
        decreases pieces@.len() - i,
    {
        let ghost before = r.deep_view();
        r.push(string_of(pieces[i].as_slice()));
        assert(r.deep_view() =~= before.push(pv[i as int]));
        assert(pv.take(i + 1) =~= pv.take(i as int).push(pv[i as int]));
        i += 1;
    }
    assert(pv.take(pieces@.len() as int) =~= pv);
    r
}

// ---------------------------------------------------------------------------
// Cells
// ---------------------------------------------------------------------------

/// `n` copies of a character.
pub open spec fn repeat_char(c: char, n: nat) -> Seq<char> {
    Seq::new(n, |i: int| c)
}

fn push_repeat(v: &mut Vec<char>, c: char, n: usize)
    ensures
        final(v)@ == old(v)@ + repeat_char(c, n as nat),
{
    let ghost start = v@;
    let mut i: usize = 0;
    while i < n
        invariant
            0 <= i <= n,
            v@ == start + repeat_char(c, i as nat),
        decreases n - i,
    {
        v.push(c);
        i += 1;
        assert(v@ =~= start + repeat_char(c, i as nat));
    }
}

/// The top border of a cell: the title set into the line, cut at the width.
pub open spec fn cell_top(title: Seq<char>, width: nat) -> Seq<char> {
    let content_width: nat = if width >= 2 {
        (width - 2) as nat
    } else {
        0
    };
    let t = "─ "@ + title + " "@;
    if t.len() >= content_width {
        "┌"@ + take_width(t, content_width) + "┐"@
    } else {
        "┌"@ + t + repeat_char('─', (content_width - t.len()) as nat) + "┐"@
    }
}

/// The top border of a cell.
pub fn render_cell_top(title: &str, width: usize) -> (r: String)
    ensures
        r@ == cell_top(title@, width as nat),
{
    let content_width: usize = if width >= 2 {
        width - 2
    } else {
        0
    };
    let mut t = chars_of("─ ");
    append_chars(&mut t, chars_of(title).as_slice());
    append_chars(&mut t, chars_of(" ").as_slice());
    let mut r = chars_of("┌");
    if t.len() >= content_width {
        let ts = string_of(t.as_slice());
        let cut = trim_to_width(ts.as_str(), content_width);
        append_chars(&mut r, chars_of(cut.as_str()).as_slice());
    } else {
        let tl = t.len();
        append_chars(&mut r, t.as_slice());
        push_repeat(&mut r, '─', content_width - tl);
    }
    append_chars(&mut r, chars_of("┐").as_slice());
    string_of(r.as_slice())
}

/// A text padded with spaces to at least `width` characters.
pub open spec fn pad_to(s: Seq<char>, width: nat) -> Seq<char> {
    if s.len() < width {
        s + repeat_char(' ', (width - s.len()) as nat)
    } else {
        s
    }
}

/// A content row of a cell.
pub open spec fn cell_row(s: Seq<char>, content_width: nat) -> Seq<char> {
    "│"@ + pad_to(s, content_width) + "│"@
}

/// The content rows for the pieces of the body's lines.
pub open spec fn body_rows(ls: Seq<Seq<char>>, content_width: nat) -> Seq<Seq<char>>
    decreases ls.len(),
{
    if ls.len() == 0 {
        seq![]
    } else {
        body_rows(ls.drop_last(), content_width) + wrapped(ls.last(), content_width).map_values(
            |p: Seq<char>| cell_row(p, content_width),
        )
    }
}

/// The lines of a cell: the top with the title, a row per wrapped piece of
/// the body (and an empty one when the body ends with a line break), and
/// the bottom; the width is at least two.
pub open spec fn cell_lines(title: Seq<char>, body: Seq<char>, width: nat) -> Seq<Seq<char>> {
    let w: nat = if width < 2 {
        2
    } else {
        width
    };
    let content_width = (w - 2) as nat;
    let rows = body_rows(lines(body), content_width);
    let rows2 = if body.len() > 0 && body.last() == '\n' {
        rows.push(cell_row(seq![], content_width))
    } else {
        rows
    };
    seq![cell_top(title, w)] + rows2 + seq!["└"@ + repeat_char('─', content_width) + "┘"@]
}

fn cell_row_of(s: &[char], content_width: usize) -> (r: String)
    ensures
        r@ == cell_row(s@, content_width as nat),
{
    let mut v = chars_of("│");
    append_chars(&mut v, s);
    if s.len() < content_width {
        push_repeat(&mut v, ' ', content_width - s.len());
    }
    append_chars(&mut v, chars_of("│").as_slice());
    string_of(v.as_slice())
}

/// The lines of a cell.
pub fn render_cell_lines(title: &str, body: &str, width: usize) -> (r: Vec<String>)
    ensures
        r.deep_view() == cell_lines(title@, body@, width as nat),
{
    let w: usize = if width < 2 {
        2
    } else {
        width
    };
    let content_width = w - 2;
    let mut out: Vec<String> = Vec::new();
    out.push(render_cell_top(title, w));
    let bv = chars_of(body);
    let ls = split_lines(bv.as_slice());
    let ghost lv = ls@.map_values(|x: Vec<char>| x@);
    assert(out.deep_view() =~= seq![cell_top(title@, w as nat)] + body_rows(lv.take(0), content_width as nat));
    let mut i: usize = 0;
    while i < ls.len()
        invariant
            0 <= i <= ls@.len(),
            lv == ls@.map_values(|x: Vec<char>| x@),
            lv == lines(body@),
            content_width == w - 2,
            out.deep_view() == seq![cell_top(title@, w as nat)] + body_rows(lv.take(i as int), content_width as nat),
        decreases ls@.len() - i,
    {
        assert(lv.take(i + 1).drop_last() =~= lv.take(i as int));
        assert(lv.take(i + 1).last() == ls@[i as int]@);
        let line = string_of(ls[i].as_slice());
        let pieces = wrap_line(line.as_str(), content_width);
        let ghost pv = pieces.deep_view();
        let ghost start = out.deep_view();
        let mut j: usize = 0;
        while j < pieces.len()
            invariant
                0 <= j <= pieces@.len(),
                pv == pieces.deep_view(),
                out.deep_view() == start + pv.take(j as int).map_values(
                    |p: Seq<char>| cell_row(p, content_width as nat),
                ),
            decreases pieces@.len() - j,
        {
            let ghost before = out.deep_view();
            let row = cell_row_of(chars_of(pieces[j].as_str()).as_slice(), content_width);
            out.push(row);
            assert(out.deep_view() =~= before.push(cell_row(pv[j as int], content_width as nat)));
            assert(pv.take(j + 1).map_values(|p: Seq<char>| cell_row(p, content_width as nat))
                =~= pv.take(j as int).map_values(|p: Seq<char>| cell_row(p, content_width as nat)).push(
                cell_row(pv[j as int], content_width as nat)));
            j += 1;
        }
        assert(pv.take(pieces@.len() as int) =~= pv);
        assert(out.deep_view() =~= seq![cell_top(title@, w as nat)] + body_rows(lv.take(i + 1), content_width as nat));
        i += 1;
    }
    assert(lv.take(ls@.len() as int) =~= lv);
    if bv.len() > 0 && bv[bv.len() - 1] == '\n' {
        let ghost before = out.deep_view();
        out.push(cell_row_of(Vec::<char>::new().as_slice(), content_width));
        assert(out.deep_view() =~= before.push(cell_row(seq![], content_width as nat)));
    }
    let mut bottom = chars_of("└");
    push_repeat(&mut bottom, '─', content_width);
    append_chars(&mut bottom, chars_of("┘").as_slice());
    let ghost before = out.deep_view();
    out.push(string_of(bottom.as_slice()));
    assert(out.deep_view() =~= before.push("└"@ + repeat_char('─', content_width as nat) + "┘"@));
    assert(out.deep_view() =~= cell_lines(title@, body@, width as nat));
    out
}

/// Adds a cell to the history.
pub fn append_history_cell(history_lines: &mut Vec<String>, title: &str, body: &str, width: usize)
    ensures
        final(history_lines).deep_view() == old(history_lines).deep_view() + cell_lines(
            title@,
            body@,
            width as nat,
        ),
{
    let cell = render_cell_lines(title, body, width);
    let ghost start = history_lines.deep_view();
    let ghost cv = cell.deep_view();
    let mut i: usize = 0;
    while i < cell.len()
        invariant
            0 <= i <= cell@.len(),
            cv == cell.deep_view(),
            history_lines.deep_view() == start + cv.take(i as int),
        decreases cell@.len() - i,
    {
        let ghost before = history_lines.deep_view();
        history_lines.push(cell[i].clone());
        assert(history_lines.deep_view() =~= before.push(cv[i as int]));
        assert(cv.take(i + 1) =~= cv.take(i as int).push(cv[i as int]));
        i += 1;
    }
    assert(cv.take(cell@.len() as int) =~= cv);
}

/// The body of an agent cell: the thought and the action, each under its
/// heading, separated by a blank line.
pub open spec fn agent_cell_body(thought: Option<Seq<char>>, action: Option<Seq<char>>) -> Seq<char> {
    let sections = match thought {
        Some(t) => seq!["Thought:\n"@ + t],
        None => seq![],
    };
    let sections = match action {
        Some(a) => sections.push("Action:\n"@ + a),
        None => sections,
    };
    join(sections, "\n\n"@)
}

/// Adds a cell with the agent's thought and action.
pub fn append_agent_cell(
    history_lines: &mut Vec<String>,
    thought: Option<&str>,
    action: Option<&str>,
    width: usize,
)
    ensures
        final(history_lines).deep_view() == old(history_lines).deep_view() + cell_lines(
            "AGENT"@,
            agent_cell_body(
                match thought {
                    Some(t) => Some(t@),
                    None => None,
                },
                match action {
                    Some(a) => Some(a@),
                    None => None,
                },
            ),
            width as nat,
        ),
{
    let mut sections: Vec<Vec<char>> = Vec::new();
    let ghost tv: Option<Seq<char>> = match thought {
        Some(t) => Some(t@),
        None => None,
    };
    let ghost av: Option<Seq<char>> = match action {
        Some(a) => Some(a@),
        None => None,
    };
    if let Some(t) = thought {
        let mut s = chars_of("Thought:\n");
        append_chars(&mut s, chars_of(t).as_slice());
        sections.push(s);
    }
    if let Some(a) = action {
        let mut s = chars_of("Action:\n");
        append_chars(&mut s, chars_of(a).as_slice());
        let ghost before = sections@.map_values(|x: Vec<char>| x@);
        sections.push(s);
        assert(sections@.map_values(|x: Vec<char>| x@) =~= before.push("Action:\n"@ + a@));
    }
    proof {
        let first: Seq<Seq<char>> = match tv {
            Some(t) => seq!["Thought:\n"@ + t],
            None => seq![],
        };
        let want = match av {
            Some(a) => first.push("Action:\n"@ + a),
            None => first,
        };
        assert(sections@.map_values(|x: Vec<char>| x@) =~= want);
    }
    let body = join_chars_sep(&sections);
    append_history_cell(history_lines, "AGENT", string_of(body.as_slice()).as_str(), width);
}

fn join_chars_sep(sections: &Vec<Vec<char>>) -> (r: Vec<char>)
    ensures
        r@ == join(sections@.map_values(|x: Vec<char>| x@), "\n\n"@),
{
    let sep = chars_of("\n\n");
    crate::text::join_chars(sections, sep.as_slice())
}

// ---------------------------------------------------------------------------
// Scrolling the history
// ---------------------------------------------------------------------------

/// The lines shown: the window of `viewport_height` lines (or all lines, if
/// fewer) that starts at the requested line or, by default, ends at the
/// last line; never past the end.
pub open spec fn history_bounds(total: nat, viewport_height: nat, requested: Option<usize>) -> (
    nat,
    nat,
) {
    if total == 0 || viewport_height == 0 {
        (0, 0)
    } else {
        let visible: nat = if viewport_height < total {
            viewport_height
        } else {
            total
        };
        let max_start = (total - visible) as nat;
        let start: nat = match requested {
            Some(s) => if s < max_start {
                s as nat
            } else {
                max_start
            },
            None => max_start,
        };
        (start, start + visible)
    }
}

/// The lines shown of the history.
pub fn visible_history_bounds(
    total_lines: usize,
    viewport_height: usize,
    requested_start: Option<usize>,
) -> (r: (usize, usize))
    ensures
        (r.0 as nat, r.1 as nat) == history_bounds(
            total_lines as nat,
            viewport_height as nat,
            requested_start,
        ),
        r.0 <= r.1 <= total_lines,
{
    if total_lines == 0 || viewport_height == 0 {
        return (0, 0);
    }
    let visible = if viewport_height < total_lines {
        viewport_height
    } else {
        total_lines
    };
    let max_start = total_lines - visible;
    let start = match requested_start {
        Some(s) => if s < max_start {
            s
        } else {
            max_start
        },
        None => max_start,
    };
    (start, start + visible)
}

/// The scroll position after scrolling up by `amount` lines (at least one)
/// from the line shown first, stopping at the first line.
pub open spec fn scrolled_up(visible_start: usize, amount: usize) -> Option<usize> {
    let step: int = if amount > 0 {
        amount as int
    } else {
        1
    };
    Some((if visible_start >= step {
        visible_start - step
    } else {
        0
    }) as usize)
}

/// The scroll position after scrolling down by `amount` lines (at least
/// one): following the end of the history again once the bottom is reached.
pub open spec fn scrolled_down(
    visible_start: usize,
    total_lines: usize,
    viewport_height: usize,
    amount: usize,
) -> Option<usize> {
    let step: int = if amount > 0 {
        amount as int
    } else {
        1
    };
    let next: int = visible_start + step;
    let bottom = history_bounds(total_lines as nat, viewport_height as nat, None).1;
    if next + viewport_height >= bottom {
        None
    } else {
        Some(next as usize)
    }
}

/// Scrolls up by `amount` lines (at least one) from the line shown first.
pub fn scroll_history_up(history_start: &mut Option<usize>, visible_start: usize, amount: usize)
    ensures
        *final(history_start) == scrolled_up(visible_start, amount),
{
    let step = if amount > 0 {
        amount
    } else {
        1
    };
    *history_start = Some(if visible_start >= step {
        visible_start - step
    } else {
        0
    });
}

/// Scrolls down by `amount` lines (at least one); reaching the bottom
/// follows the end of the history again.
pub fn scroll_history_down(
    history_start: &mut Option<usize>,
    visible_start: usize,
    total_lines: usize,
    viewport_height: usize,
    amount: usize,
)
    requires
        visible_start + (if amount > 0 {
            amount as int
        } else {
            1
        }) + viewport_height <= usize::MAX,
    ensures
        *final(history_start) == scrolled_down(visible_start, total_lines, viewport_height, amount),
{
    let step = if amount > 0 {
        amount
    } else {
        1
    };
    let next_start = visible_start + step;
    let (_, bottom_end) = visible_history_bounds(total_lines, viewport_height, None);
    if next_start + viewport_height >= bottom_end {
        *history_start = None;
    } else {
        *history_start = Some(next_start);
    }
}

/// Keeps at most `max_history_lines` lines, dropping the oldest and moving
/// the scroll position with them; with no room, clears the history and
/// follows its end.
pub fn trim_history_lines(
    history_lines: &mut Vec<String>,
    max_history_lines: usize,
    history_start: &mut Option<usize>,
)
    ensures
        max_history_lines == 0 ==> final(history_lines)@.len() == 0 && *final(history_start)
            == None::<usize>,
        max_history_lines > 0 && old(history_lines)@.len() > max_history_lines ==> ({
            let drop = old(history_lines)@.len() - max_history_lines;
            &&& final(history_lines).deep_view() == old(history_lines).deep_view().skip(drop)
            &&& *final(history_start) == match *old(history_start) {
                Some(s) => Some((if s >= drop { s - drop } else { 0 }) as usize),
                None => None,
            }
        }),
        max_history_lines > 0 && old(history_lines)@.len() <= max_history_lines ==> (final(history_lines)@ == old(history_lines)@ && *final(history_start) == *old(history_start)),
{
    if max_history_lines == 0 {
        history_lines.clear();
        *history_start = None;
        return;
    }
    if history_lines.len() > max_history_lines {
        let drop_count = history_lines.len() - max_history_lines;
        let ghost old_lines = history_lines.deep_view();
        let mut kept: Vec<String> = Vec::new();
        let mut i = drop_count;
        while i < history_lines.len()
            invariant
                drop_count <= i <= history_lines@.len(),
                old_lines == history_lines.deep_view(),
                kept.deep_view() == old_lines.subrange(drop_count as int, i as int),
            decreases history_lines@.len() - i,
        {
            let ghost before = kept.deep_view();
            kept.push(history_lines[i].clone());
            assert(kept.deep_view() =~= before.push(old_lines[i as int]));
            assert(old_lines.subrange(drop_count as int, i + 1) =~= old_lines.subrange(drop_count as int, i as int).push(old_lines[i as int]));
            i += 1;
        }
        assert(old_lines.subrange(drop_count as int, old_lines.len() as int) =~= old_lines.skip(drop_count as int));
        *history_lines = kept;
        match *history_start {
            Some(s) => {
                *history_start = Some(if s >= drop_count {
                    s - drop_count
                } else {
                    0
                });
            },
            None => {},
        }
    }
}

/// Remembers an input line: not an empty one, not one equal to the last,
/// and keeping at most `limit` lines by dropping the oldest.
pub open spec fn recorded_input(history: Seq<Seq<char>>, limit: nat, line: Seq<char>) -> Seq<Seq<char>> {
    if limit == 0 || line.len() == 0 || (history.len() > 0 && history.last() == line) {
        history
    } else {
        let h = history.push(line);
        if h.len() > limit {
            h.skip(h.len() - limit)
        } else {
            h
        }
    }
}

/// Remembers an input line.
pub fn record_input_history(history: &mut Vec<String>, limit: usize, line: &str)
    ensures
        final(history).deep_view() == recorded_input(old(history).deep_view(), limit as nat, line@),
{
    let n = history.len();
    if limit == 0 || line.is_empty() {
        return;
    }
    if n > 0 {
        assert(history.deep_view().last() == history@[n - 1]@);
        let owned = line.to_owned();
        if history[n - 1] == owned {
            return;
        }
    }
    let ghost before = history.deep_view();
    history.push(line.to_owned());
    assert(history.deep_view() =~= before.push(line@));
    if history.len() > limit {
        let drop_count = history.len() - limit;
        let ghost old_lines = history.deep_view();
        let mut kept: Vec<String> = Vec::new();
        let mut i = drop_count;
        while i < history.len()
            invariant
                drop_count <= i <= history@.len(),
                old_lines == history.deep_view(),
                kept.deep_view() == old_lines.subrange(drop_count as int, i as int),
            decreases history@.len() - i,
        {
            let ghost b = kept.deep_view();
            kept.push(history[i].clone());
            assert(kept.deep_view() =~= b.push(old_lines[i as int]));
            assert(old_lines.subrange(drop_count as int, i + 1) =~= old_lines.subrange(drop_count as int, i as int).push(old_lines[i as int]));
            i += 1;
        }
        assert(old_lines.subrange(drop_count as int, old_lines.len() as int) =~= old_lines.skip(drop_count as int));
        *history = kept;
    }
}


// ---------------------------------------------------------------------------
// Agent events in the history
// ---------------------------------------------------------------------------

/// What an agent event adds to the history, the thought left waiting, and
/// whether the task ends: a thought waits for the action it leads to (a
/// thought already waiting is shown alone); an action is shown with the
/// waiting thought; an observation, a completion or a failure first shows a
/// waiting thought alone, then its text in a cell of its own; the last two
/// end the task.
pub open spec fn agent_event_effect(pending: Option<Seq<char>>, e: EventView, width: nat) -> (
    Seq<Seq<char>>,
    Option<Seq<char>>,
    bool,
) {
    let flushed = match pending {
        Some(t) => cell_lines("AGENT"@, agent_cell_body(Some(t), None), width),
        None => seq![],
    };
    match e {
        EventView::Thought(t) => (flushed, Some(t), false),
        EventView::Action(a) => (cell_lines("AGENT"@, agent_cell_body(pending, Some(a)), width), None, false),
        EventView::Observation(o) => (flushed + cell_lines("GAME OUTPUT"@, o, width), None, false),
        EventView::Completed(m) => (flushed + cell_lines("SYSTEM MESSAGE"@, m, width), None, true),
        EventView::Failed(m) => (flushed + cell_lines("SYSTEM MESSAGE"@, m, width), None, true),
    }
}

/// The optional text of an optional string.
pub open spec fn opt_text(o: Option<String>) -> Option<Seq<char>> {
    match o {
        Some(s) => Some(s@),
        None => None,
    }
}

/// Shows an agent event in the history; whether the task ended.
pub fn show_agent_event(
    history_lines: &mut Vec<String>,
    pending_thought: &mut Option<String>,
    event: AgentEvent,
    width: usize,
) -> (ended: bool)
    ensures
        ({
            let (added, waiting, done) = agent_event_effect(opt_text(*old(pending_thought)), event@, width as nat);
            &&& final(history_lines).deep_view() == old(history_lines).deep_view() + added
            &&& opt_text(*final(pending_thought)) == waiting
            &&& ended == done
        }),
{
    let ghost start = history_lines.deep_view();
    let ghost waiting = opt_text(*pending_thought);
    match event {
        AgentEvent::Thought(t) => {
            match pending_thought.take() {
                Some(previous) => {
                    append_agent_cell(history_lines, Some(previous.as_str()), None, width);
                },
                None => {
                    assert(history_lines.deep_view() =~= start + Seq::<Seq<char>>::empty());
                },
            }
            *pending_thought = Some(t);
            false
        },
        AgentEvent::Action(a) => {
            match pending_thought.take() {
                Some(thought) => append_agent_cell(history_lines, Some(thought.as_str()), Some(a.as_str()), width),
                None => append_agent_cell(history_lines, None, Some(a.as_str()), width),
            }
            false
        },
        AgentEvent::Observation(o) => {
            flush_thought(history_lines, pending_thought, width);
            let ghost mid = history_lines.deep_view();
            append_history_cell(history_lines, "GAME OUTPUT", o.as_str(), width);
            false
        },
        AgentEvent::Completed(m) => {
            flush_thought(history_lines, pending_thought, width);
            append_history_cell(history_lines, "SYSTEM MESSAGE", m.as_str(), width);
            true
        },
        AgentEvent::Failed(m) => {
            flush_thought(history_lines, pending_thought, width);
            append_history_cell(history_lines, "SYSTEM MESSAGE", m.as_str(), width);
            true
        },
    }
}

fn flush_thought(history_lines: &mut Vec<String>, pending_thought: &mut Option<String>, width: usize)
    ensures
        final(history_lines).deep_view() == old(history_lines).deep_view() + match opt_text(*old(pending_thought)) {
            Some(t) => cell_lines("AGENT"@, agent_cell_body(Some(t), None), width as nat),
            None => Seq::<Seq<char>>::empty(),
        },
        *final(pending_thought) == None::<String>,
{
    let ghost start = history_lines.deep_view();
    match pending_thought.take() {
        Some(thought) => append_agent_cell(history_lines, Some(thought.as_str()), None, width),
        None => {
            assert(history_lines.deep_view() =~= start + Seq::<Seq<char>>::empty());
        },
    }
}

// ---------------------------------------------------------------------------
// Typed input lines
// ---------------------------------------------------------------------------

/// What a submitted input line asks of the session.
#[derive(Clone, Debug)]
pub enum InputAction {
    /// An empty line: nothing happens.
    Ignore,
    /// The session ends.
    Exit,
    /// The line was handled.
    Continue,
    /// The command is to be sent to the game, its answer shown as game output.
    Send(String),
}

pub enum InputActionView {
    Ignore,
    Exit,
    Continue,
    Send(Seq<char>),
}

impl View for InputAction {
    type V = InputActionView;

    open spec fn view(&self) -> InputActionView {
        match self {
            InputAction::Ignore => InputActionView::Ignore,
            InputAction::Exit => InputActionView::Exit,
            InputAction::Continue => InputActionView::Continue,
            InputAction::Send(c) => InputActionView::Send(c@),
        }
    }
}

pub open spec fn task_opt_view(t: Option<AgentTask>) -> Option<TaskView> {
    match t {
        Some(task) => Some(task@),
        None => None,
    }
}

/// What a submitted line does: the history added, the task afterwards, and
/// the action. `exit` and `/exit` end the session; `/cancel` cancels the
/// running task; `/send` sends the rest of the line to the game; any other
/// line starts a task, unless one is running.
pub open spec fn input_effect(line: Seq<char>, task: Option<TaskView>, width: nat) -> (
    Seq<Seq<char>>,
    Option<TaskView>,
    InputActionView,
) {
    let system = "SYSTEM MESSAGE"@;
    if line.len() == 0 {
        (seq![], task, InputActionView::Ignore)
    } else if line == "exit"@ || line == "/exit"@ {
        (cell_lines(system, "Exiting session."@, width), task, InputActionView::Exit)
    } else if line == "/cancel"@ {
        if task is Some {
            (cell_lines(system, "Task canceled."@, width), None, InputActionView::Continue)
        } else {
            (cell_lines(system, "No active task."@, width), None, InputActionView::Continue)
        }
    } else if crate::text::starts_with(line, "/send"@) {
        let cmd = trim(line.skip(5));
        (cell_lines("USER COMMAND"@, cmd, width), task, InputActionView::Send(cmd))
    } else if task is Some {
        (
            cell_lines("USER TASK"@, line, width) + cell_lines(
                system,
                "A task is already running. Use /cancel first."@,
                width,
            ),
            task,
            InputActionView::Continue,
        )
    } else {
        (
            cell_lines("USER TASK"@, line, width) + cell_lines(
                system,
                "Task running... type /cancel to interrupt."@,
                width,
            ),
            Some(
                TaskView {
                    prompt: line,
                    max_turns: crate::agent::default_max_turns(),
                    turns: 0,
                    repeated_guard: 0,
                    last_command: None,
                },
            ),
            InputActionView::Continue,
        )
    }
}

/// Handles a submitted input line.
pub fn handle_input_line(
    line: &str,
    history_lines: &mut Vec<String>,
    width: usize,
    active_task: &mut Option<AgentTask>,
) -> (r: InputAction)
    ensures
        ({
            let (added, task, action) = input_effect(line@, task_opt_view(*old(active_task)), width as nat);
            &&& final(history_lines).deep_view() == old(history_lines).deep_view() + added
            &&& task_opt_view(*final(active_task)) == task
            &&& r@ == action
        }),
{
    let v = chars_of(line);
    let ghost start = history_lines.deep_view();
    if v.len() == 0 {
        assert(history_lines.deep_view() =~= start + Seq::<Seq<char>>::empty());
        return InputAction::Ignore;
    }
    if crate::text::eq_lit(v.as_slice(), "exit") || crate::text::eq_lit(v.as_slice(), "/exit") {
        append_history_cell(history_lines, "SYSTEM MESSAGE", "Exiting session.", width);
        return InputAction::Exit;
    }
    if crate::text::eq_lit(v.as_slice(), "/cancel") {
        if active_task.is_some() {
            *active_task = None;
            append_history_cell(history_lines, "SYSTEM MESSAGE", "Task canceled.", width);
        } else {
            append_history_cell(history_lines, "SYSTEM MESSAGE", "No active task.", width);
        }
        return InputAction::Continue;
    }
    if starts_with_lit(v.as_slice(), "/send") {
        proof {
            reveal_strlit("/send");
        }
        let rest = crate::text::slice_chars(v.as_slice(), 5, v.len());
        assert(rest@ =~= line@.skip(5));
        let cmd = trim_chars(rest.as_slice());
        let cmd = string_of(cmd.as_slice());
        append_history_cell(history_lines, "USER COMMAND", cmd.as_str(), width);
        return InputAction::Send(cmd);
    }
    append_history_cell(history_lines, "USER TASK", line, width);
    if active_task.is_some() {
        append_history_cell(
            history_lines,
            "SYSTEM MESSAGE",
            "A task is already running. Use /cancel first.",
            width,
        );
        return InputAction::Continue;
    }
    *active_task = Some(AgentTask::new(line.to_owned()));
    append_history_cell(
        history_lines,
        "SYSTEM MESSAGE",
        "Task running... type /cancel to interrupt.",
        width,
    );
    InputAction::Continue
}

// ---------------------------------------------------------------------------
// Keys
// ---------------------------------------------------------------------------

/// A key press or wheel movement the interface reacts to.
#[derive(Clone, Copy, Debug, PartialEq, Eq, Structural)]
pub enum UiKey {
    Char(char),
    Backspace,
    Up,
    Down,
    PageUp,
    PageDown,
    Home,
    End,
    Enter,
    Escape,
    /// Ctrl-C.
    Interrupt,
    WheelUp,
    WheelDown,
    Other,
}

/// The input line, the lines entered before, where in them the input line
/// was taken from, and the requested scroll position of the history (`None`
/// follows its end).
#[derive(Clone, Debug)]
pub struct InputLine {
    pub input: String,
    pub input_history: Vec<String>,
    pub history_cursor: Option<usize>,
    pub history_start: Option<usize>,
}

pub struct InputLineView {
    pub input: Seq<char>,
    pub input_history: Seq<Seq<char>>,
    pub history_cursor: Option<usize>,
    pub history_start: Option<usize>,
}

impl View for InputLine {
    type V = InputLineView;

    open spec fn view(&self) -> InputLineView {
        InputLineView {
            input: self.input@,
            input_history: self.input_history.deep_view(),
            history_cursor: self.history_cursor,
            history_start: self.history_start,
        }
    }
}

/// The cursor into the entered lines points at one of them.
pub open spec fn input_line_wf(s: InputLineView) -> bool {
    s.history_cursor matches Some(i) ==> i < s.input_history.len()
}

/// What a key asks of the session besides changing the input line.
#[derive(Clone, Debug)]
pub enum KeyOutcome {
    Continue,
    /// A line was entered.
    Submit(String),
    /// The session ends at once.
    Exit,
    /// Ctrl-C: the session ends as if `exit` had been entered.
    Interrupt,
}

pub enum KeyOutcomeView {
    Continue,
    Submit(Seq<char>),
    Exit,
    Interrupt,
}

impl View for KeyOutcome {
    type V = KeyOutcomeView;

    open spec fn view(&self) -> KeyOutcomeView {
        match self {
            KeyOutcome::Continue => KeyOutcomeView::Continue,
            KeyOutcome::Submit(l) => KeyOutcomeView::Submit(l@),
            KeyOutcome::Exit => KeyOutcomeView::Exit,
            KeyOutcome::Interrupt => KeyOutcomeView::Interrupt,
        }
    }
}

impl InputLine {
    /// An empty input line with no history, following the end of the history.
    pub fn new() -> (r: Self)
        ensures
            r@ == (InputLineView {
                input: seq![],
                input_history: seq![],
                history_cursor: None,
                history_start: None,
            }),
    {
        let r = InputLine {
            input: String::new(),
            input_history: Vec::new(),
            history_cursor: None,
            history_start: None,
        };
        assert(r@.input_history =~= Seq::<Seq<char>>::empty());
        r
    }
}

/// What a key does: typing edits the input (and leaves the entered lines);
/// Up and Down walk through the entered lines; the page keys and the wheel
/// scroll the history (a page is the history's height, the wheel three
/// lines), Home and End jump to its start and end; Enter enters the trimmed
/// input; Escape ends the session.
pub open spec fn key_effect(
    s: InputLineView,
    key: UiKey,
    visible_start: usize,
    total_lines: usize,
    viewport_height: usize,
    input_history_limit: usize,
) -> (InputLineView, KeyOutcomeView) {
    let h = s.input_history;
    match key {
        UiKey::Char(c) => (InputLineView { input: s.input.push(c), history_cursor: None, ..s }, KeyOutcomeView::Continue),
        UiKey::Backspace => (
            InputLineView {
                input: if s.input.len() > 0 { s.input.drop_last() } else { s.input },
                history_cursor: None,
                ..s
            },
            KeyOutcomeView::Continue,
        ),
        UiKey::Up => if h.len() > 0 {
            let index: int = match s.history_cursor {
                Some(i) => if i == 0 { 0 } else { i - 1 },
                None => h.len() - 1,
            };
            (InputLineView { input: h[index], history_cursor: Some(index as usize), ..s }, KeyOutcomeView::Continue)
        } else {
            (s, KeyOutcomeView::Continue)
        },
        UiKey::Down => match s.history_cursor {
            Some(i) => if i + 1 < h.len() {
                (InputLineView { input: h[i + 1], history_cursor: Some((i + 1) as usize), ..s }, KeyOutcomeView::Continue)
            } else {
                (InputLineView { input: seq![], history_cursor: None, ..s }, KeyOutcomeView::Continue)
            },
            None => (s, KeyOutcomeView::Continue),
        },
        UiKey::PageUp => (InputLineView { history_start: scrolled_up(visible_start, viewport_height), ..s }, KeyOutcomeView::Continue),
        UiKey::PageDown => (
            InputLineView {
                history_start: scrolled_down(visible_start, total_lines, viewport_height, viewport_height),
                ..s
            },
            KeyOutcomeView::Continue,
        ),
        UiKey::WheelUp => (InputLineView { history_start: scrolled_up(visible_start, 3), ..s }, KeyOutcomeView::Continue),
        UiKey::WheelDown => (
            InputLineView { history_start: scrolled_down(visible_start, total_lines, viewport_height, 3), ..s },
            KeyOutcomeView::Continue,
        ),
        UiKey::Home => (InputLineView { history_start: Some(0usize), ..s }, KeyOutcomeView::Continue),
        UiKey::End => (InputLineView { history_start: None, ..s }, KeyOutcomeView::Continue),
        UiKey::Enter => {
            let line = trim(s.input);
            (
                InputLineView {
                    input: seq![],
                    history_cursor: None,
                    input_history: recorded_input(h, input_history_limit as nat, line),
                    ..s
                },
                KeyOutcomeView::Submit(line),
            )
        },
        UiKey::Escape => (s, KeyOutcomeView::Exit),
        UiKey::Interrupt => (s, KeyOutcomeView::Interrupt),
        UiKey::Other => (s, KeyOutcomeView::Continue),
    }
}

/// Reacts to a key; `visible_start` is the first history line shown,
/// `viewport_height` the number of history lines shown.
pub fn handle_key(
    state: &mut InputLine,
    key: UiKey,
    visible_start: usize,
    total_lines: usize,
    viewport_height: usize,
    input_history_limit: usize,
) -> (r: KeyOutcome)
    requires
        input_line_wf(old(state)@),
        visible_start + 2 * viewport_height + 3 <= usize::MAX,
    ensures
        ({
            let (s, outcome) = key_effect(old(state)@, key, visible_start, total_lines, viewport_height, input_history_limit);
            &&& final(state)@ == s
            &&& r@ == outcome
        }),
        input_line_wf(final(state)@),
{
    assert(input_line_wf(state@));
    assert(state.input_history.deep_view().len() == state.input_history@.len());
    match key {
        UiKey::Char(c) => {
            let mut v = chars_of(state.input.as_str());
            v.push(c);
            state.input = string_of(v.as_slice());
            state.history_cursor = None;
            KeyOutcome::Continue
        },
        UiKey::Backspace => {
            let v = chars_of(state.input.as_str());
            if v.len() > 0 {
                let w = crate::text::slice_chars(v.as_slice(), 0, v.len() - 1);
                assert(w@ =~= v@.drop_last());
                state.input = string_of(w.as_slice());
            }
            state.history_cursor = None;
            KeyOutcome::Continue
        },
        UiKey::Up => {
            let n = state.input_history.len();
            if n > 0 {
                let index = match state.history_cursor {
                    Some(i) => if i == 0 {
                        0
                    } else {
                        i - 1
                    },
                    None => n - 1,
                };
                state.history_cursor = Some(index);
                assert(state.input_history.deep_view()[index as int] == state.input_history@[index as int]@);
                state.input = state.input_history[index].clone();
            }
            KeyOutcome::Continue
        },
        UiKey::Down => {
            assert(state.input_history.deep_view().len() == state.input_history@.len());
            match state.history_cursor {
                Some(i) => {
                    let n = state.input_history.len();
                    if i < n && n - i > 1 {
                        state.history_cursor = Some(i + 1);
                        assert(state.input_history.deep_view()[i + 1] == state.input_history@[i + 1]@);
                        state.input = state.input_history[i + 1].clone();
                    } else {
                        state.history_cursor = None;
                        state.input = String::new();
                    }
                },
                None => {},
            }
            KeyOutcome::Continue
        },
        UiKey::PageUp => {
            scroll_history_up(&mut state.history_start, visible_start, viewport_height);
            KeyOutcome::Continue
        },
        UiKey::PageDown => {
            scroll_history_down(
                &mut state.history_start,
                visible_start,
                total_lines,
                viewport_height,
                viewport_height,
            );
            KeyOutcome::Continue
        },
        UiKey::WheelUp => {
            scroll_history_up(&mut state.history_start, visible_start, 3);
            KeyOutcome::Continue
        },
        UiKey::WheelDown => {
            scroll_history_down(&mut state.history_start, visible_start, total_lines, viewport_height, 3);
            KeyOutcome::Continue
        },
        UiKey::Home => {
            state.history_start = Some(0);
            KeyOutcome::Continue
        },
        UiKey::End => {
            state.history_start = None;
            KeyOutcome::Continue
        },
        UiKey::Enter => {
            let v = chars_of(state.input.as_str());
            let t = trim_chars(v.as_slice());
            let line = string_of(t.as_slice());
            state.input = String::new();
            state.history_cursor = None;
            record_input_history(&mut state.input_history, input_history_limit, line.as_str());
            KeyOutcome::Submit(line)
        },
        UiKey::Escape => KeyOutcome::Exit,
        UiKey::Interrupt => KeyOutcome::Interrupt,
        UiKey::Other => KeyOutcome::Continue,
    }
}

} // verus!
