//! The picker's state machine: the query, the filtered list, the cursor and
//! the scroll window, the output mode, and how each key changes them.
use vstd::prelude::*;

use crate::glyph::{spec_char_of, Glyph};
use crate::matcher::{all_hits, filter, filter_outcome, FuzzyMatcher, Hit};
use crate::text::{
    chars_of, is_cc, is_control, lower_hex, pad_left, padded_left, push_char, push_lower_hex,
    push_seq, string_of_range,
};

verus! {

/// What [`App::update`] wants the run loop to do next.
#[derive(Debug)]
pub enum Action {
    Continue,
    Cancel,
    Quit(usize),
}

/// What is emitted to stdout and the clipboard when a glyph is selected.
#[derive(Clone, Copy, PartialEq, Eq, Debug, Structural)]
pub enum OutputMode {
    /// The glyph character itself.
    Char,
    /// A unicode escape usable in any string literal, e.g. `\u{f07d}`.
    Escape,
    /// The canonical nf- name, e.g. `nf-md-folder`.
    Name,
    /// Lowercase hex codepoint with `0x` prefix, e.g. `0xf0493`.
    Hex,
}

impl Default for OutputMode {
    fn default() -> (m: Self)
        ensures
            m == OutputMode::Char,
    {
        OutputMode::Char
    }
}

/// The mode after `m` in display order; the last wraps to the first.
pub open spec fn spec_next(m: OutputMode) -> OutputMode {
    match m {
        OutputMode::Char => OutputMode::Escape,
        OutputMode::Escape => OutputMode::Name,
        OutputMode::Name => OutputMode::Hex,
        OutputMode::Hex => OutputMode::Char,
    }
}

/// The footer label of a mode.
pub open spec fn spec_label(m: OutputMode) -> Seq<char> {
    match m {
        OutputMode::Char => seq!['c', 'h', 'a', 'r'],
        OutputMode::Escape => seq!['e', 's', 'c'],
        OutputMode::Name => seq!['n', 'a', 'm', 'e'],
        OutputMode::Hex => seq!['h', 'e', 'x'],
    }
}

/// `\u{` + the codepoint in lower hex + `}`.
pub open spec fn escape_text(cp: u32) -> Seq<char> {
    seq!['\\', 'u', '{'] + lower_hex(cp as nat) + seq!['}']
}

/// `0x` + the codepoint in lower hex, zero-padded to at least four digits.
pub open spec fn hex_text(cp: u32) -> Seq<char> {
    seq!['0', 'x'] + pad_left(lower_hex(cp as nat), '0', 4)
}

/// What a glyph is rendered to in mode `m`: its character, its escape, its
/// name, or its hex codepoint. The first two are empty when the codepoint is
/// not a valid `char`.
pub open spec fn spec_render(m: OutputMode, name: Seq<char>, cp: u32) -> Seq<char> {
    match m {
        OutputMode::Char => match spec_char_of(cp) {
            Some(c) => seq![c],
            None => Seq::empty(),
        },
        OutputMode::Escape => match spec_char_of(cp) {
            Some(c) => escape_text(cp),
            None => Seq::empty(),
        },
        OutputMode::Name => name,
        OutputMode::Hex => hex_text(cp),
    }
}

impl OutputMode {
    /// Cycle to the next mode in display order.
    pub fn next(self) -> (m: Self)
        ensures
            m == spec_next(self),
    {
        match self {
            OutputMode::Char => OutputMode::Escape,
            OutputMode::Escape => OutputMode::Name,
            OutputMode::Name => OutputMode::Hex,
            OutputMode::Hex => OutputMode::Char,
        }
    }

    /// Short status string shown in the footer.
    pub fn label(self) -> (s: &'static str)
        ensures
            s@ == spec_label(self),
    {
        match self {
            OutputMode::Char => {
                proof {
                    reveal_strlit("char");
                }
                "char"
            },
            OutputMode::Escape => {
                proof {
                    reveal_strlit("esc");
                }
                "esc"
            },
            OutputMode::Name => {
                proof {
                    reveal_strlit("name");
                }
                "name"
            },
            OutputMode::Hex => {
                proof {
                    reveal_strlit("hex");
                }
                "hex"
            },
        }
    }

    /// Format `g` into the string that should hit stdout and the clipboard
    /// when this mode is active.
    pub fn render(self, g: &Glyph) -> (s: String)
        ensures
            s@ == spec_render(self, g.name@, g.codepoint),
    {
        match self {
            OutputMode::Char => {
                let mut s = String::new();
                match g.char() {
                    Some(c) => push_char(&mut s, c),
                    None => {},
                }
                s
            },
            OutputMode::Escape => {
                let mut s = String::new();
                match g.char() {
                    Some(c) => {
                        push_char(&mut s, '\\');
                        push_char(&mut s, 'u');
                        push_char(&mut s, '{');
                        let mut hex: Vec<char> = Vec::new();
                        push_lower_hex(&mut hex, c as u32);
                        assert(c as u32 == g.codepoint);
                        push_seq(&mut s, &hex);
                        push_char(&mut s, '}');
                        assert(s@ =~= escape_text(g.codepoint));
                    },
                    None => {},
                }
                s
            },
            OutputMode::Name => g.name.clone(),
            OutputMode::Hex => {
                let mut s = String::new();
                push_char(&mut s, '0');
                push_char(&mut s, 'x');
                let mut hex: Vec<char> = Vec::new();
                push_lower_hex(&mut hex, g.codepoint);
                assert(hex@ =~= lower_hex(g.codepoint as nat));
                let padded = padded_left(hex, '0', 4);
                push_seq(&mut s, &padded);
                assert(s@ =~= hex_text(g.codepoint));
                s
            },
        }
    }
}

/// Applying [`OutputMode::next`] four times comes back to the start, and it
/// never leaves a mode unchanged.
pub proof fn lemma_next_cycles(m: OutputMode)
    ensures
        spec_next(spec_next(spec_next(spec_next(m)))) == m,
        spec_next(m) != m,
{
}

/// Typing a character and then pressing Backspace gives the query back.
pub proof fn lemma_type_then_backspace(q: Seq<char>, c: char)
    ensures
        edited_query(
            edited_query(q, KeyEvent { code: KeyCode::Char(c), ctrl: false }),
            KeyEvent { code: KeyCode::Backspace, ctrl: false },
        ) == q,
{
    assert(q.push(c).drop_last() =~= q);
}

/// PageDown on a list of `len` rows moves the cursor a page down, and to the
/// last row when fewer rows than a page lie below it.
pub proof fn lemma_page_down_moves_a_page(cursor: usize, len: nat, height: usize, ctrl: bool)
    requires
        0 < len <= usize::MAX,
    ensures
        visible_cursor(
            moved_cursor(cursor, len, KeyEvent { code: KeyCode::PageDown, ctrl }, height) as usize,
            len,
        ) == (if cursor + page(height) < len {
            cursor + page(height)
        } else {
            len - 1
        }),
{
}

/// Only Esc and Ctrl-C cancel; a typed character without Control never does,
/// and when it is not a control character it is appended to the query.
pub proof fn lemma_only_esc_and_ctrl_c_cancel(key: KeyEvent, q: Seq<char>)
    ensures
        is_cancel(key) <==> (key.code == KeyCode::Esc || (key.code == KeyCode::Char('c')
            && key.ctrl)),
        key.code matches KeyCode::Char(c) ==> (!is_cc(c) && !key.ctrl ==> edits_query(key)
            && edited_query(q, key) == q.push(c)),
{
}

/// The glyphs that a list names, in order.
pub open spec fn listed_glyphs(hits: Seq<Hit>) -> Seq<usize> {
    hits.map_values(|h: Hit| h.glyph_idx)
}

/// Typing a character and then pressing Backspace lists the same glyphs, in
/// the same order, as the list for the query before the character was typed:
/// [`App::update`] lists, after each edit, what [`filter`] gives for the new
/// query.
pub proof fn lemma_backspace_restores_list(
    glyphs: Seq<Glyph>,
    q: Seq<char>,
    c: char,
    before: Seq<Hit>,
    after: Seq<Hit>,
)
    requires
        filter_outcome(glyphs, q, before),
        filter_outcome(
            glyphs,
            edited_query(
                edited_query(q, KeyEvent { code: KeyCode::Char(c), ctrl: false }),
                KeyEvent { code: KeyCode::Backspace, ctrl: false },
            ),
            after,
        ),
    ensures
        listed_glyphs(after) == listed_glyphs(before),
{
    lemma_type_then_backspace(q, c);
    crate::matcher::lemma_filter_unique(glyphs, q, before, after);
    assert(listed_glyphs(after) =~= listed_glyphs(before));
}

/// The key that the picker reacts to, as the terminal reports it.
#[derive(Clone, Copy, Debug, PartialEq, Eq, Structural)]
pub enum KeyCode {
    Esc,
    Enter,
    Backspace,
    Char(char),
    Up,
    Down,
    PageUp,
    PageDown,
    Home,
    End,
    /// Any other key.
    Other,
}

/// A key press: the key, and whether Control was held.
#[derive(Clone, Copy, Debug)]
pub struct KeyEvent {
    pub code: KeyCode,
    pub ctrl: bool,
}

impl KeyEvent {
    /// A key press of `code`, with Control held when `ctrl` is set.
    pub fn new(code: KeyCode, ctrl: bool) -> (k: Self)
        ensures
            k.code == code,
            k.ctrl == ctrl,
    {
        KeyEvent { code, ctrl }
    }
}

/// The picker: the glyphs, the matcher, the query and what it matches, the
/// highlighted row and the first visible row, and the output mode.
pub struct App<'a> {
    pub glyphs: &'a [Glyph],
    pub matcher: FuzzyMatcher,
    pub query: String,
    pub items: Vec<Hit>,
    pub cursor: usize,
    pub scroll: usize,
    pub output_mode: OutputMode,
}

/// Rows of the list: the height less 3 (input), 1 (footer) and 2 (border).
pub open spec fn spec_list_height(height: usize) -> usize {
    if height >= 6 {
        (height - 6) as usize
    } else {
        0
    }
}

/// The list height, and at least one row.
pub open spec fn page(height: usize) -> usize {
    if spec_list_height(height) >= 1 {
        spec_list_height(height)
    } else {
        1
    }
}

/// `a - b`, or 0 when `b > a`.
pub open spec fn sat_sub(a: int, b: int) -> int {
    if a >= b {
        a - b
    } else {
        0
    }
}

/// Minimum of two integers.
pub open spec fn min_int(a: int, b: int) -> int {
    if a <= b {
        a
    } else {
        b
    }
}

/// Maximum of two integers.
pub open spec fn max_int(a: int, b: int) -> int {
    if a >= b {
        a
    } else {
        b
    }
}

/// The cursor after it is brought into a list of `len` rows: the last row at
/// most (and unchanged when the list is empty).
pub open spec fn visible_cursor(cursor: usize, len: nat) -> int {
    if len == 0 {
        cursor as int
    } else {
        min_int(cursor as int, len - 1)
    }
}

/// The first visible row after the cursor is made visible in a window of `lh`
/// rows: the scroll is kept where it can be, moved just enough to show the
/// cursor, and never leaves the window past the end of the list.
pub open spec fn visible_scroll(cursor: usize, scroll: usize, len: nat, lh: int) -> int {
    if len == 0 {
        0
    } else {
        let c = min_int(cursor as int, len - 1);
        min_int(max_int(min_int(scroll as int, c), sat_sub(c + 1, lh)), sat_sub(len as int, lh))
    }
}

/// Whether the key cancels the picker: Esc, or Ctrl-C.
pub open spec fn is_cancel(key: KeyEvent) -> bool {
    key.code == KeyCode::Esc || (key.code == KeyCode::Char('c') && key.ctrl)
}

/// Whether the key types a character into the query.
pub open spec fn types_char(key: KeyEvent) -> bool {
    match key.code {
        KeyCode::Char(c) => !is_cc(c) && !key.ctrl,
        _ => false,
    }
}

/// Whether the key edits the query: Backspace, or a typed character.
pub open spec fn edits_query(key: KeyEvent) -> bool {
    !is_cancel(key) && (key.code == KeyCode::Backspace || types_char(key))
}

/// The query after an editing key: one character less for Backspace, one
/// more for a typed character.
pub open spec fn edited_query(q: Seq<char>, key: KeyEvent) -> Seq<char> {
    match key.code {
        KeyCode::Char(c) => q.push(c),
        _ => if q.len() > 0 {
            q.drop_last()
        } else {
            q
        },
    }
}

/// Whether the key moves the cursor (without Control for Up and Down).
pub open spec fn moves_cursor(key: KeyEvent) -> bool {
    !is_cancel(key) && !types_char(key) && (((key.code == KeyCode::Up || key.code
        == KeyCode::Down) && !key.ctrl) || key.code == KeyCode::PageUp || key.code
        == KeyCode::PageDown || key.code == KeyCode::Home || key.code == KeyCode::End)
}

/// The cursor after a moving key, before it is made visible.
pub open spec fn moved_cursor(cursor: usize, len: nat, key: KeyEvent, height: usize) -> int {
    match key.code {
        KeyCode::Up => sat_sub(cursor as int, 1),
        KeyCode::Down => if cursor + 1 < len {
            cursor + 1
        } else {
            cursor as int
        },
        KeyCode::PageUp => sat_sub(cursor as int, page(height) as int),
        KeyCode::PageDown => min_int(cursor + page(height), sat_sub(len as int, 1)),
        KeyCode::Home => 0,
        _ => sat_sub(len as int, 1),
    }
}

/// Whether the key switches the output mode: Ctrl-Y.
pub open spec fn switches_mode(key: KeyEvent) -> bool {
    key.code == KeyCode::Char('y') && key.ctrl
}

/// Whether the highlighted row is in the list (or the list is empty and the
/// cursor at 0), and the first visible row is not below it.
pub open spec fn cursor_ok(cursor: usize, scroll: usize, len: nat) -> bool {
    &&& (len == 0 ==> cursor == 0)
    &&& (len > 0 ==> cursor < len)
    &&& scroll <= cursor
}

impl<'a> App<'a> {
    /// Whether the cursor and the scroll fit the list.
    pub open spec fn inv(&self) -> bool {
        cursor_ok(self.cursor, self.scroll, self.items@.len())
    }

    /// A picker over `glyphs` with an empty query: every glyph is listed, the
    /// first one highlighted, and the output mode is the glyph character.
    pub fn new(glyphs: &'a [Glyph]) -> (app: Self)
        ensures
            app.glyphs@ == glyphs@,
            app.query@.len() == 0,
            all_hits(glyphs@.len(), app.items@),
            app.cursor == 0,
            app.scroll == 0,
            app.output_mode == OutputMode::Char,
            app.inv(),
    {
        let mut app = App {
            glyphs,
            matcher: FuzzyMatcher::new(),
            query: String::new(),
            items: Vec::new(),
            cursor: 0,
            scroll: 0,
            output_mode: OutputMode::Char,
        };
        app.refilter();
        proof {
            assert(crate::matcher::spec_split_query(app.query@).0 is None) by {
                crate::matcher::lemma_split_empty();
            }
        }
        app
    }

    /// The glyph index of the highlighted row, if there is one.
    pub fn selected(&self) -> (r: Option<usize>)
        ensures
            r == (if self.cursor < self.items@.len() {
                Some(self.items@[self.cursor as int].glyph_idx)
            } else {
                None::<usize>
            }),
    {
        if self.cursor < self.items.len() {
            Some(self.items[self.cursor].glyph_idx)
        } else {
            None
        }
    }

    /// Recomputes the list for the query, keeps the cursor in it, and scrolls
    /// to the top.
    fn refilter(&mut self)
        ensures
            final(self).glyphs@ == old(self).glyphs@,
            final(self).query == old(self).query,
            final(self).output_mode == old(self).output_mode,
            filter_outcome(old(self).glyphs@, old(self).query@, final(self).items@),
            final(self).cursor == (if final(self).items@.len() == 0 {
                0
            } else {
                min_int(old(self).cursor as int, final(self).items@.len() - 1)
            }),
            final(self).scroll == 0,
    {
        self.items = filter(self.glyphs, self.query.as_str(), &mut self.matcher);
        let last = if self.items.len() > 0 {
            self.items.len() - 1
        } else {
            0
        };
        if self.cursor > last {
            self.cursor = last;
        }
        self.scroll = 0;
    }

    /// Rows of the list for a terminal of `height` rows.
    fn list_height(height: usize) -> (h: usize)
        ensures
            h == spec_list_height(height),
    {
        if height >= 6 {
            height - 6
        } else {
            0
        }
    }

    /// Brings the cursor into the list and scrolls just enough to show it.
    fn ensure_visible(&mut self, height: usize)
        ensures
            final(self).glyphs@ == old(self).glyphs@,
            final(self).query == old(self).query,
            final(self).items == old(self).items,
            final(self).output_mode == old(self).output_mode,
            final(self).cursor == visible_cursor(old(self).cursor, old(self).items@.len()),
            final(self).scroll == visible_scroll(
                old(self).cursor,
                old(self).scroll,
                old(self).items@.len(),
                page(height) as int,
            ),
            old(self).items@.len() > 0 ==> final(self).scroll <= final(self).cursor
                < final(self).scroll + page(height),
    {
        let h = Self::list_height(height);
        let lh = if h >= 1 {
            h
        } else {
            1
        };
        let max = self.items.len();
        if max == 0 {
            self.scroll = 0;
            return ;
        }
        if self.cursor >= max {
            self.cursor = max - 1;
        }
        if self.scroll > self.cursor {
            self.scroll = self.cursor;
        }
        // The scroll is at most the cursor now, so the subtractions stay in range.
        if self.cursor - self.scroll >= lh {
            self.scroll = self.cursor + 1 - lh;
        }
        if lh > max - self.scroll {
            self.scroll = if max >= lh {
                max - lh
            } else {
                0
            };
        }
    }

    /// Handles one key press for a terminal of `height` rows, and says
    /// whether the picker goes on, is cancelled, or picks a glyph.
    pub fn update(&mut self, key: KeyEvent, height: usize) -> (act: Action)
        ensures
            final(self).glyphs@ == old(self).glyphs@,
            // Esc and Ctrl-C cancel and change nothing.
            is_cancel(key) ==> act == Action::Cancel && *final(self) == *old(self),
            // Enter picks the highlighted glyph, if there is one, and changes nothing.
            !is_cancel(key) && key.code == KeyCode::Enter ==> *final(self) == *old(self) && act == (
            if old(self).cursor < old(self).items@.len() {
                Action::Quit(old(self).items@[old(self).cursor as int].glyph_idx)
            } else {
                Action::Continue
            }),
            !is_cancel(key) && key.code != KeyCode::Enter ==> act == Action::Continue,
            // Editing the query refilters and goes back to the top.
            edits_query(key) ==> {
                &&& final(self).query@ == edited_query(old(self).query@, key)
                &&& filter_outcome(old(self).glyphs@, final(self).query@, final(self).items@)
                &&& final(self).cursor == 0
                &&& final(self).scroll == 0
                &&& final(self).output_mode == old(self).output_mode
            },
            // Moving keys move the cursor and scroll to show it.
            moves_cursor(key) ==> {
                &&& final(self).query == old(self).query
                &&& final(self).items == old(self).items
                &&& final(self).output_mode == old(self).output_mode
                &&& key.code == KeyCode::Home ==> final(self).cursor == 0 && final(self).scroll == 0
                &&& key.code != KeyCode::Home ==> {
                    let c = moved_cursor(
                        old(self).cursor,
                        old(self).items@.len(),
                        key,
                        height,
                    ) as usize;
                    &&& final(self).cursor == visible_cursor(c, old(self).items@.len())
                    &&& final(self).scroll == visible_scroll(
                        c,
                        old(self).scroll,
                        old(self).items@.len(),
                        page(height) as int,
                    )
                }
            },
            // Ctrl-Y switches the output mode.
            !is_cancel(key) && !moves_cursor(key) && switches_mode(key) ==> {
                &&& final(self).output_mode == spec_next(old(self).output_mode)
                &&& final(self).query == old(self).query
                &&& final(self).items == old(self).items
                &&& final(self).cursor == old(self).cursor
                &&& final(self).scroll == old(self).scroll
            },
            // Any other key changes nothing.
            !is_cancel(key) && key.code != KeyCode::Enter && !edits_query(key) && !moves_cursor(key)
                && !switches_mode(key) ==> *final(self) == *old(self),
            // Only Esc and Ctrl-C cancel.
            (act == Action::Cancel) <==> (key.code == KeyCode::Esc || (key.code == KeyCode::Char('c')
                && key.ctrl)),
            // A typed character (not a control character, without Control)
            // goes on, and is appended to the query.
            key.code matches KeyCode::Char(c) ==> (!is_cc(c) && !key.ctrl ==> act == Action::Continue
                && final(self).query@ == old(self).query@.push(c)),
            // PageDown on a non-empty list moves the cursor a page down, and
            // to the last row when fewer rows than a page lie below it.
            key.code == KeyCode::PageDown && old(self).items@.len() > 0 ==> final(self).cursor == (
            if old(self).cursor + page(height) < old(self).items@.len() {
                old(self).cursor + page(height)
            } else {
                old(self).items@.len() - 1
            }),
            // The cursor stays in the list.
            old(self).inv() ==> final(self).inv(),
            edits_query(key) ==> final(self).inv(),
            moves_cursor(key) && old(self).items@.len() > 0 ==> final(self).inv(),
    {
        let ctrl = key.ctrl;
        if key.code == KeyCode::Esc || (key.code == KeyCode::Char('c') && ctrl) {
            return Action::Cancel;
        }
        match key.code {
            KeyCode::Enter => {
                return match self.selected() {
                    Some(idx) => Action::Quit(idx),
                    None => Action::Continue,
                };
            },
            KeyCode::Backspace => {
                let chars = chars_of(self.query.as_str());
                let keep = if chars.len() > 0 {
                    chars.len() - 1
                } else {
                    0
                };
                self.query = string_of_range(&chars, 0, keep);
                assert(self.query@ =~= edited_query(old(self).query@, key));
                self.refilter();
                self.cursor = 0;
                self.ensure_visible(height);
            },
            KeyCode::Char(c) => {
                if !is_control(c) && !ctrl {
                    push_char(&mut self.query, c);
                    self.refilter();
                    self.cursor = 0;
                    self.ensure_visible(height);
                } else if c == 'y' && ctrl {
                    self.output_mode = self.output_mode.next();
                }
                // Other characters with Control held do nothing. Plain `k` and
                // `j` are typed into the query like any other character.
            },
            KeyCode::Up => {
                if !ctrl {
                    self.cursor = if self.cursor >= 1 {
                        self.cursor - 1
                    } else {
                        0
                    };
                    self.ensure_visible(height);
                }
            },
            KeyCode::Down => {
                if !ctrl {
                    if self.items.len() > 0 && self.cursor < self.items.len() - 1 {
                        self.cursor = self.cursor + 1;
                    }
                    self.ensure_visible(height);
                }
            },
            KeyCode::PageUp => {
                let h = Self::list_height(height);
                let lh = if h >= 1 {
                    h
                } else {
                    1
                };
                self.cursor = if self.cursor >= lh {
                    self.cursor - lh
                } else {
                    0
                };
                self.ensure_visible(height);
            },
            KeyCode::PageDown => {
                let h = Self::list_height(height);
                let lh = if h >= 1 {
                    h
                } else {
                    1
                };
                let last = if self.items.len() > 0 {
                    self.items.len() - 1
                } else {
                    0
                };
                // The sum is capped at the last row, so it is compared without overflow.
                self.cursor = if self.cursor >= last || lh >= last - self.cursor {
                    last
                } else {
                    self.cursor + lh
                };
                self.ensure_visible(height);
            },
            KeyCode::Home => {
                self.cursor = 0;
                self.scroll = 0;
            },
            KeyCode::End => {
                self.cursor = if self.items.len() > 0 {
                    self.items.len() - 1
                } else {
                    0
                };
                self.ensure_visible(height);
            },
            _ => {},
        }
        Action::Continue
    }
}

} // verus!
