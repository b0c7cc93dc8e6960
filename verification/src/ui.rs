//! What the picker shows: the highlighted runs of a name, the alias summary,
//! the preview lines, the row head, the footer count and badge, and which
//! rows of the list are visible.
use vstd::prelude::*;

use crate::app::{escape_text, hex_text, spec_label, OutputMode};
use crate::glyph::{spec_aliases_of, spec_char_of, spec_set_of, string_views, Glyph};
use crate::text::{
    char_index_at_byte, char_utf8_width, chars_of, decimal, is_char_offset, lemma_utf8_len_push,
    lemma_utf8_len_take_strict, lower_hex, pad_left, pad_right, padded_left, padded_right,
    push_char, push_decimal, push_lower_hex, push_seq, string_of, string_of_range, utf8_len,
    utf8_width,
};

verus! {

broadcast use vstd::seq_lib::group_seq_properties;

// ---------------------------------------------------------------------------
// Highlighted runs of a name
// ---------------------------------------------------------------------------

/// A run of a name's characters that are all highlighted, or all not.
#[derive(Debug)]
pub struct NameSpan {
    pub content: String,
    pub highlighted: bool,
}

/// For each of `n` characters, whether its position is among `indices`.
pub open spec fn highlight_flags(n: nat, indices: Seq<u32>) -> Seq<bool> {
    Seq::new(n, |i: int| exists|k: int| 0 <= k < indices.len() && indices[k] == i)
}

/// The text of a sequence of runs, concatenated.
pub open spec fn span_text(spans: Seq<NameSpan>) -> Seq<char>
    decreases spans.len(),
{
    if spans.len() == 0 {
        Seq::empty()
    } else {
        span_text(spans.drop_last()) + spans.last().content@
    }
}

/// Each character's highlight, as the runs give it.
pub open spec fn span_flags(spans: Seq<NameSpan>) -> Seq<bool>
    decreases spans.len(),
{
    if spans.len() == 0 {
        Seq::empty()
    } else {
        span_flags(spans.drop_last()) + Seq::new(
            spans.last().content@.len(),
            |i: int| spans.last().highlighted,
        )
    }
}

/// Whether the runs are maximal: none is empty, and neighbours differ.
pub open spec fn maximal_runs(spans: Seq<NameSpan>) -> bool {
    &&& forall|i: int| 0 <= i < spans.len() ==> (#[trigger] spans[i]).content@.len() > 0
    &&& forall|i: int|
        0 <= i < spans.len() - 1 ==> (#[trigger] spans[i]).highlighted != spans[i + 1].highlighted
}

/// `name` cut into maximal runs of highlighted and plain characters; a
/// character is highlighted when its position is among `indices`.
pub fn name_spans(name: &str, indices: &[u32]) -> (spans: Vec<NameSpan>)
    ensures
        span_text(spans@) == name@,
        span_flags(spans@) == highlight_flags(name@.len(), indices@),
        maximal_runs(spans@),
{
    let chars = chars_of(name);
    let n = chars.len();
    let mut hl: Vec<bool> = Vec::new();
    let mut i: usize = 0;
    while i < n
        invariant
            i <= n == chars@.len(),
            hl@.len() == i,
            forall|j: int| 0 <= j < i ==> !(#[trigger] hl@[j]),
        decreases n - i,
    {
        hl.push(false);
        i = i + 1;
    }
    let mut k: usize = 0;
    while k < indices.len()
        invariant
            n == chars@.len(),
            hl@.len() == n,
            0 <= k <= indices@.len(),
            forall|j: int|
                0 <= j < n ==> (#[trigger] hl@[j] <==> exists|m: int|
                    0 <= m < k && indices@[m] == j),
        decreases indices@.len() - k,
    {
        let x = indices[k] as usize;
        if x < n {
            hl.set(x, true);
        }
        proof {
            assert forall|j: int| 0 <= j < n implies (#[trigger] hl@[j] <==> exists|m: int|
                0 <= m < k + 1 && indices@[m] == j) by {
                if j == indices@[k as int] {
                    assert(indices@[k as int] == j);
                } else if hl@[j] {
                    let m = choose|m: int| 0 <= m < k && indices@[m] == j;
                    assert(0 <= m < k + 1 && indices@[m] == j);
                }
            }
        }
        k = k + 1;
    }
    assert(hl@ =~= highlight_flags(name@.len(), indices@));
    let mut spans: Vec<NameSpan> = Vec::new();
    let mut buf: Vec<char> = Vec::new();
    let mut cur: bool = false;
    let mut i: usize = 0;
    while i < n
        invariant
            n == chars@.len() == hl@.len(),
            chars@ == name@,
            0 <= i <= n,
            span_text(spans@) + buf@ == chars@.take(i as int),
            span_flags(spans@) + Seq::new(buf@.len(), |x: int| cur) == hl@.take(i as int),
            maximal_runs(spans@),
            i > 0 ==> buf@.len() > 0,
            i == 0 ==> buf@.len() == 0 && spans@.len() == 0,
            spans@.len() > 0 ==> spans@.last().highlighted != cur,
        decreases n - i,
    {
        let c = chars[i];
        let active = hl[i];
        proof {
            assert(chars@.take(i + 1) =~= chars@.take(i as int).push(c));
            assert(hl@.take(i + 1) =~= hl@.take(i as int).push(active));
        }
        if i == 0 || active == cur {
            let ghost old_buf = buf@;
            buf.push(c);
            cur = active;
            proof {
                assert(span_text(spans@) + buf@ =~= (span_text(spans@) + old_buf).push(c));
                assert(span_flags(spans@) + Seq::new(buf@.len(), |x: int| cur) =~= (span_flags(
                    spans@,
                ) + Seq::new(old_buf.len(), |x: int| cur)).push(active));
            }
        } else {
            let ghost old_spans = spans@;
            let ghost old_buf = buf@;
            let content = string_of(&buf);
            spans.push(NameSpan { content, highlighted: cur });
            proof {
                assert(spans@.drop_last() =~= old_spans);
                assert(span_text(spans@) =~= span_text(old_spans) + old_buf);
                assert(span_flags(spans@) =~= span_flags(old_spans) + Seq::new(
                    old_buf.len(),
                    |x: int| cur,
                ));
                assert forall|j: int| 0 <= j < spans@.len() implies (#[trigger] spans@[j]).content@.len()
                    > 0 by {
                    if j < old_spans.len() {
                        assert(spans@[j] == old_spans[j]);
                    }
                }
                assert forall|j: int| 0 <= j < spans@.len() - 1 implies (#[trigger] spans@[j]).highlighted
                    != spans@[j + 1].highlighted by {
                    assert(spans@[j] == old_spans[j]);
                    if j + 1 < old_spans.len() {
                        assert(spans@[j + 1] == old_spans[j + 1]);
                    }
                }
            }
            buf = Vec::new();
            buf.push(c);
            cur = active;
            proof {
                assert(span_text(spans@) + buf@ =~= (span_text(old_spans) + old_buf).push(c));
                assert(span_flags(spans@) + Seq::new(buf@.len(), |x: int| cur) =~= (span_flags(
                    old_spans,
                ) + Seq::new(old_buf.len(), |x: int| !cur)).push(active));
            }
        }
        i = i + 1;
    }
    if n > 0 {
        let ghost old_spans = spans@;
        let ghost old_buf = buf@;
        let content = string_of(&buf);
        spans.push(NameSpan { content, highlighted: cur });
        proof {
            assert(spans@.drop_last() =~= old_spans);
            assert forall|j: int| 0 <= j < spans@.len() implies (#[trigger] spans@[j]).content@.len()
                > 0 by {
                if j < old_spans.len() {
                    assert(spans@[j] == old_spans[j]);
                }
            }
            assert forall|j: int| 0 <= j < spans@.len() - 1 implies (#[trigger] spans@[j]).highlighted
                != spans@[j + 1].highlighted by {
                assert(spans@[j] == old_spans[j]);
                if j + 1 < old_spans.len() {
                    assert(spans@[j + 1] == old_spans[j + 1]);
                }
            }
        }
    }
    assert(chars@.take(n as int) =~= chars@);
    assert(hl@.take(n as int) =~= hl@);
    spans
}

// ---------------------------------------------------------------------------
// The alias summary
// ---------------------------------------------------------------------------

/// `parts` joined with `sep` between neighbours.
pub open spec fn join(parts: Seq<Seq<char>>, sep: Seq<char>) -> Seq<char>
    decreases parts.len(),
{
    if parts.len() == 0 {
        Seq::empty()
    } else if parts.len() == 1 {
        parts[0]
    } else {
        join(parts.drop_last(), sep) + sep + parts.last()
    }
}

/// The separator of the alias list.
pub open spec fn comma_space() -> Seq<char> {
    seq![',', ' ']
}

/// The byte length the summary is cut to when it does not fit.
pub open spec fn summary_keep(width: usize) -> int {
    if width >= 1 {
        width - 1
    } else {
        0
    }
}

/// The alias summary: `-` for no aliases; else the aliases joined by `, `,
/// and when that takes more than `width` bytes, its first `width - 1` bytes
/// followed by an ellipsis.
pub open spec fn spec_aliases_summary(aliases: Seq<Seq<char>>, width: usize) -> Seq<char> {
    if aliases.len() == 0 {
        seq!['-']
    } else {
        let j = join(aliases, comma_space());
        if utf8_len(j) > width {
            j.take(choose|k: int| is_char_offset(j, summary_keep(width), k)).push('\u{2026}')
        } else {
            j
        }
    }
}

/// Whether [`aliases_summary`] can cut the joined aliases: they fit, or the
/// cut falls on a character boundary (`String::truncate` panics otherwise).
pub open spec fn summary_cuttable(aliases: Seq<Seq<char>>, width: usize) -> bool {
    let j = join(aliases, comma_space());
    aliases.len() == 0 || utf8_len(j) <= width || exists|k: int|
        is_char_offset(j, summary_keep(width), k)
}

/// The alias list shortened to fit a panel `width` bytes wide, with a
/// trailing ellipsis when it was cut.
pub fn aliases_summary(aliases: &[String], width: usize) -> (s: String)
    requires
        summary_cuttable(string_views(aliases@), width),
    ensures
        s@ == spec_aliases_summary(string_views(aliases@), width),
{
    let ghost parts = string_views(aliases@);
    if aliases.len() == 0 {
        let mut s = String::new();
        push_char(&mut s, '-');
        return s;
    }
    let mut joined: Vec<char> = Vec::new();
    let mut i: usize = 0;
    while i < aliases.len()
        invariant
            parts == string_views(aliases@),
            0 <= i <= aliases@.len(),
            aliases@.len() > 0,
            joined@ == join(parts.take(i as int), comma_space()),
        decreases aliases@.len() - i,
    {
        if i > 0 {
            joined.push(',');
            joined.push(' ');
        }
        let part = chars_of(aliases[i].as_str());
        let mut j: usize = 0;
        let ghost before = joined@;
        while j < part.len()
            invariant
                0 <= j <= part@.len(),
                joined@ == before + part@.take(j as int),
            decreases part@.len() - j,
        {
            joined.push(part[j]);
            j = j + 1;
        }
        proof {
            assert(part@.take(part@.len() as int) =~= part@);
            assert(parts.take(i + 1).drop_last() =~= parts.take(i as int));
            assert(parts.take(i + 1).last() == aliases@[i as int]@);
            if i == 0 {
                assert(join(parts.take(0), comma_space()) =~= Seq::<char>::empty());
                assert(joined@ =~= parts.take(1)[0]);
            } else {
                assert(joined@ =~= join(parts.take(i as int), comma_space()) + comma_space()
                    + parts.take(i + 1).last());
            }
        }
        i = i + 1;
    }
    assert(parts.take(aliases@.len() as int) =~= parts);
    // Is the joined list longer than `width` bytes?
    let mut bytes: usize = 0;
    let mut k: usize = 0;
    let mut over = false;
    assert(utf8_len(joined@.take(0)) == 0) by {
        assert(joined@.take(0) =~= Seq::<char>::empty());
        assert(vstd::utf8::encode_utf8(Seq::<char>::empty()) =~= Seq::<u8>::empty());
    }
    while k < joined.len() && !over
        invariant
            0 <= k <= joined@.len(),
            !over ==> bytes == utf8_len(joined@.take(k as int)) && bytes <= width,
            over ==> utf8_len(joined@) > width,
        decreases joined@.len() - k,
    {
        let w = char_utf8_width(joined[k]);
        proof {
            assert(joined@.take(k as int).push(joined@[k as int]) =~= joined@.take(k + 1));
            lemma_utf8_len_push(joined@.take(k as int), joined@[k as int]);
        }
        if w > width - bytes {
            over = true;
            proof {
                if k + 1 < joined@.len() {
                    lemma_utf8_len_take_strict(joined@, k + 1, joined@.len() as int);
                }
                assert(joined@.take(joined@.len() as int) =~= joined@);
            }
        } else {
            bytes = bytes + w;
        }
        k = k + 1;
    }
    if !over {
        assert(joined@.take(joined@.len() as int) =~= joined@);
        return string_of(&joined);
    }
    let keep: usize = if width >= 1 {
        width - 1
    } else {
        0
    };
    match char_index_at_byte(&joined, keep) {
        Some(cut) => {
            let mut s = string_of_range(&joined, 0, cut);
            push_char(&mut s, '\u{2026}');
            proof {
                let c = choose|c: int| is_char_offset(joined@, summary_keep(width), c);
                crate::text::lemma_char_offset_unique(joined@, keep as int, cut as int, c);
            }
            s
        },
        None => {
            // `requires` rules this out: the cut falls on a character boundary.
            proof {
                let c = choose|c: int| is_char_offset(joined@, summary_keep(width), c);
                assert(is_char_offset(joined@, keep as int, c));
            }
            String::new()
        },
    }
}

// ---------------------------------------------------------------------------
// The preview, the row head, and the footer
// ---------------------------------------------------------------------------

/// The lines of the preview panel for a highlighted glyph.
pub struct Preview {
    /// The glyph, or `<none>` when its codepoint is not a character.
    pub display: String,
    /// `set:  {set} ({alias summary})`.
    pub set_line: String,
    /// `hex:  0x{codepoint, at least four digits}`.
    pub hex_line: String,
    /// `esc:  {escape}`, the escape empty when the codepoint is not a character.
    pub esc_line: String,
}

/// The characters `<none>`.
pub open spec fn none_text() -> Seq<char> {
    seq!['<', 'n', 'o', 'n', 'e', '>']
}

/// The preview's first line.
pub open spec fn spec_display(cp: u32) -> Seq<char> {
    match spec_char_of(cp) {
        Some(c) => seq![c],
        None => none_text(),
    }
}

/// The escape shown in the preview.
pub open spec fn spec_escape(cp: u32) -> Seq<char> {
    match spec_char_of(cp) {
        Some(c) => escape_text(cp),
        None => Seq::empty(),
    }
}

/// The preview's set line.
pub open spec fn spec_set_line(name: Seq<char>, width: usize) -> Seq<char> {
    seq!['s', 'e', 't', ':', ' ', ' '] + spec_set_of(name) + seq![' ', '('] + spec_aliases_summary(
        spec_aliases_of(name),
        width,
    ) + seq![')']
}

/// The preview's hex line.
pub open spec fn spec_hex_line(cp: u32) -> Seq<char> {
    seq!['h', 'e', 'x', ':', ' ', ' '] + hex_text(cp)
}

/// The preview's escape line.
pub open spec fn spec_esc_line(cp: u32) -> Seq<char> {
    seq!['e', 's', 'c', ':', ' ', ' '] + spec_escape(cp)
}

/// The preview lines for glyph `g` in a panel `width` bytes wide.
pub fn preview(g: &Glyph, width: usize) -> (p: Preview)
    requires
        summary_cuttable(spec_aliases_of(g.name@), width),
    ensures
        p.display@ == spec_display(g.codepoint),
        p.set_line@ == spec_set_line(g.name@, width),
        p.hex_line@ == spec_hex_line(g.codepoint),
        p.esc_line@ == spec_esc_line(g.codepoint),
{
    let ch = g.char();
    let mut display = String::new();
    let mut esc: Vec<char> = Vec::new();
    match ch {
        Some(c) => {
            push_char(&mut display, c);
            esc.push('\\');
            esc.push('u');
            esc.push('{');
            push_lower_hex(&mut esc, c as u32);
            esc.push('}');
            assert(c as u32 == g.codepoint);
            assert(esc@ =~= escape_text(g.codepoint));
        },
        None => {
            proof {
                reveal_strlit("<none>");
            }
            display.append("<none>");
            assert(display@ =~= none_text());
        },
    }
    let aliases = g.aliases();
    let summary = aliases_summary(aliases.as_slice(), width);
    let set = chars_of(g.set());
    let mut set_line = String::new();
    proof {
        reveal_strlit("set:  ");
        reveal_strlit(" (");
        reveal_strlit("hex:  0x");
        reveal_strlit("esc:  ");
    }
    set_line.append("set:  ");
    push_seq(&mut set_line, &set);
    set_line.append(" (");
    let sv = chars_of(summary.as_str());
    push_seq(&mut set_line, &sv);
    push_char(&mut set_line, ')');
    assert(set_line@ =~= spec_set_line(g.name@, width));
    let mut hex_line = String::new();
    hex_line.append("hex:  0x");
    let mut hex: Vec<char> = Vec::new();
    push_lower_hex(&mut hex, g.codepoint);
    assert(hex@ =~= lower_hex(g.codepoint as nat));
    let padded = padded_left(hex, '0', 4);
    push_seq(&mut hex_line, &padded);
    assert(hex_line@ =~= spec_hex_line(g.codepoint));
    let mut esc_line = String::new();
    esc_line.append("esc:  ");
    push_seq(&mut esc_line, &esc);
    assert(esc_line@ =~= spec_esc_line(g.codepoint));
    Preview { display, set_line, hex_line, esc_line }
}

/// The head of a list row: the glyph and a space, or two spaces when the
/// codepoint is not a character.
pub open spec fn spec_row_head(cp: u32) -> Seq<char> {
    match spec_char_of(cp) {
        Some(c) => seq![c, ' '],
        None => seq![' ', ' '],
    }
}

/// The head of glyph `g`'s list row.
pub fn row_head(g: &Glyph) -> (s: String)
    ensures
        s@ == spec_row_head(g.codepoint),
{
    let mut s = String::new();
    match g.char() {
        Some(c) => {
            push_char(&mut s, c);
            push_char(&mut s, ' ');
        },
        None => {
            push_char(&mut s, ' ');
            push_char(&mut s, ' ');
        },
    }
    s
}

/// The footer's position counter: ` {pos:>4}/{total:<4}`, where `pos` is the
/// one-based row of the cursor, or 0 when the list is empty.
pub open spec fn spec_footer_count(cursor: usize, total: usize) -> Seq<char> {
    let pos: nat = if total == 0 {
        0
    } else {
        (cursor + 1) as nat
    };
    seq![' '] + pad_left(decimal(pos), ' ', 4) + seq!['/'] + pad_right(decimal(total as nat), ' ', 4)
}

/// The footer's position counter.
pub fn footer_count(cursor: usize, total: usize) -> (s: String)
    requires
        total == 0 || cursor < usize::MAX,
    ensures
        s@ == spec_footer_count(cursor, total),
{
    let pos = if total == 0 {
        0
    } else {
        cursor + 1
    };
    let mut a: Vec<char> = Vec::new();
    push_decimal(&mut a, pos);
    let a = padded_left(a, ' ', 4);
    let mut b: Vec<char> = Vec::new();
    push_decimal(&mut b, total);
    let b = padded_right(b, ' ', 4);
    let mut s = String::new();
    push_char(&mut s, ' ');
    push_seq(&mut s, &a);
    push_char(&mut s, '/');
    push_seq(&mut s, &b);
    assert(a@ =~= pad_left(decimal(pos as nat), ' ', 4));
    assert(s@ =~= spec_footer_count(cursor, total));
    s
}

/// The footer's mode badge: `OUTPUT: {label} → `.
pub open spec fn spec_output_badge(m: OutputMode) -> Seq<char> {
    seq!['O', 'U', 'T', 'P', 'U', 'T', ':', ' '] + spec_label(m) + seq![' ', '\u{2192}', ' ']
}

/// The footer's mode badge.
pub fn output_badge(m: OutputMode) -> (s: String)
    ensures
        s@ == spec_output_badge(m),
{
    let mut s = String::new();
    proof {
        reveal_strlit("OUTPUT: ");
        reveal_strlit(" \u{2192} ");
    }
    s.append("OUTPUT: ");
    let label = m.label();
    let lv = chars_of(label);
    push_seq(&mut s, &lv);
    s.append(" \u{2192} ");
    assert(s@ =~= spec_output_badge(m));
    s
}

// ---------------------------------------------------------------------------
// The visible rows of the list
// ---------------------------------------------------------------------------

/// The rows `start..end` of a list of `len` rows shown from row `scroll` in
/// `rows` rows, and the cursor's place among them if it is shown.
pub open spec fn spec_list_window(scroll: usize, cursor: usize, len: usize, rows: usize) -> (
    usize,
    usize,
    Option<usize>,
) {
    let start = if scroll <= len {
        scroll
    } else {
        len
    };
    let end = if start + rows <= len {
        (start + rows) as usize
    } else {
        len
    };
    (
        start,
        end,
        if start <= cursor < end {
            Some((cursor - start) as usize)
        } else {
            None
        },
    )
}

/// The visible rows of the list and the selected one among them.
pub fn list_window(scroll: usize, cursor: usize, len: usize, rows: usize) -> (r: (
    usize,
    usize,
    Option<usize>,
))
    ensures
        r == spec_list_window(scroll, cursor, len, rows),
{
    let start = if scroll <= len {
        scroll
    } else {
        len
    };
    let end = if rows <= len - start {
        start + rows
    } else {
        len
    };
    let sel = if start <= cursor && cursor < end {
        Some(cursor - start)
    } else {
        None
    };
    (start, end, sel)
}

} // verus!
