//! Editing state of a text input: its text, focus and a byte-position cursor.
use vstd::prelude::*;

use crate::app::{Key, NamedKey};
use crate::pluto_objects::text2d::{
    byte_offset, byte_offset_of, chars_of, chars_within, chars_within_of, clamp_to_boundary,
    is_char_boundary, lemma_byte_offset_len, lemma_byte_offset_monotone, lemma_byte_offset_prefix,
    lemma_byte_offset_splice, lemma_byte_offset_step, lemma_chars_within,
    lemma_chars_within_offset, lemma_utf8_len_concat, lemma_utf8_len_single, utf8_len, utf8_len_of, Text2DInternal,
};

verus! {

/// Number of `'\n'` chars in `s`.
pub open spec fn count_newlines(s: Seq<char>) -> nat
    decreases s.len(),
{
    if s.len() == 0 {
        0
    } else {
        count_newlines(s.drop_last()) + (if s.last() == '\n' { 1nat } else { 0nat })
    }
}

/// Number of chars after the last `'\n'` of `s` (all of `s` when it has none).
pub open spec fn column_of(s: Seq<char>) -> nat
    decreases s.len(),
{
    if s.len() == 0 {
        0
    } else if s.last() == '\n' {
        0
    } else {
        column_of(s.drop_last()) + 1
    }
}

/// Char index at which line `line` starts: just after the `line`-th `'\n'`,
/// or `s.len()` when `s` has fewer newlines.
pub open spec fn line_start_char(s: Seq<char>, line: nat) -> nat
    decreases s.len(),
{
    if line == 0 || s.len() == 0 {
        0
    } else if s[0] == '\n' {
        1 + line_start_char(s.drop_first(), (line - 1) as nat)
    } else {
        1 + line_start_char(s.drop_first(), line)
    }
}

/// Char index reached by moving right from `start` by up to `column` chars,
/// stopping at a `'\n'` or the end of `s`.
pub open spec fn advance_in_line(s: Seq<char>, start: nat, column: nat) -> nat
    decreases column,
{
    if column == 0 || start >= s.len() || s[start as int] == '\n' {
        start
    } else {
        advance_in_line(s, start + 1, (column - 1) as nat)
    }
}

/// Char index of column `column` on line `line`, clamped to the end of that line.
pub open spec fn index_from_line_and_column(s: Seq<char>, line: nat, column: nat) -> nat {
    advance_in_line(s, line_start_char(s, line), column)
}

/// Number of content bytes a key press may insert.
pub open spec fn key_insert_len(key: Key) -> nat {
    match key {
        Key::Character(c) => utf8_len(c@),
        Key::Named(NamedKey::Space) => 1,
        Key::Named(NamedKey::Enter) => 1,
        _ => 0,
    }
}

/// Effect of a key press on text `s` with the cursor before char `k`:
/// (new text, new cursor char index, whether the cursor moved, whether focus is dropped).
pub open spec fn key_press_effect(s: Seq<char>, k: nat, key: Key) -> (Seq<char>, nat, bool, bool) {
    let line = count_newlines(s.take(k as int));
    let column = column_of(s.take(k as int));
    match key {
        Key::Character(c) => if c@.len() > 0 {
            (s.take(k as int) + c@ + s.skip(k as int), k + c@.len(), true, false)
        } else {
            (s, k, false, false)
        },
        Key::Named(NamedKey::Backspace) => if k > 0 {
            (s.remove(k - 1), (k - 1) as nat, true, false)
        } else {
            (s, k, false, false)
        },
        Key::Named(NamedKey::Escape) => (s, k, false, true),
        Key::Named(NamedKey::Space) => (
            s.take(k as int) + seq![' '] + s.skip(k as int),
            k + 1,
            true,
            false,
        ),
        Key::Named(NamedKey::Enter) => (
            s.take(k as int) + seq!['\n'] + s.skip(k as int),
            k + 1,
            true,
            false,
        ),
        Key::Named(NamedKey::ArrowLeft) => if k > 0 {
            (s, (k - 1) as nat, true, false)
        } else {
            (s, k, false, false)
        },
        Key::Named(NamedKey::ArrowRight) => if k < s.len() {
            (s, k + 1, true, false)
        } else {
            (s, k, false, false)
        },
        Key::Named(NamedKey::ArrowUp) => if line > 0 {
            (s, index_from_line_and_column(s, (line - 1) as nat, column), true, false)
        } else {
            (s, k, false, false)
        },
        Key::Named(NamedKey::ArrowDown) => if line < count_newlines(s) {
            (s, index_from_line_and_column(s, line + 1, column), true, false)
        } else {
            (s, k, false, false)
        },
        _ => (s, k, false, false),
    }
}

/// Abstract state of a text input.
pub struct TextInputView {
    pub content: Seq<char>,
    /// Byte position of the cursor in the UTF-8 encoding of `content`.
    pub cursor_index: nat,
    /// Line of the cursor (number of newlines before it).
    pub current_line: nat,
    pub focused: bool,
}

pub struct TextInputInternal {
    text: Text2DInternal,
    focused: bool,
    cursor_index: usize,
    current_line: usize,
}

impl View for TextInputInternal {
    type V = TextInputView;

    closed spec fn view(&self) -> TextInputView {
        TextInputView {
            content: self.text@,
            cursor_index: self.cursor_index as nat,
            current_line: self.current_line as nat,
            focused: self.focused,
        }
    }
}

proof fn lemma_count_newlines_step(s: Seq<char>, i: int)
    requires
        0 <= i < s.len(),
    ensures
        count_newlines(s.take(i + 1)) == count_newlines(s.take(i)) + (if s[i] == '\n' {
            1nat
        } else {
            0nat
        }),
        column_of(s.take(i + 1)) == (if s[i] == '\n' { 0 } else { column_of(s.take(i)) + 1 }),
{
    assert(s.take(i + 1).drop_last() =~= s.take(i));
}

proof fn lemma_count_newlines_bound(s: Seq<char>)
    ensures
        count_newlines(s) <= s.len(),
    decreases s.len(),
{
    if s.len() > 0 {
        lemma_count_newlines_bound(s.drop_last());
    }
}

proof fn lemma_line_start_bound(s: Seq<char>, line: nat)
    ensures
        line_start_char(s, line) <= s.len(),
    decreases s.len(),
{
    if line > 0 && s.len() > 0 {
        if s[0] == '\n' {
            lemma_line_start_bound(s.drop_first(), (line - 1) as nat);
        } else {
            lemma_line_start_bound(s.drop_first(), line);
        }
    }
}

proof fn lemma_advance_bound(s: Seq<char>, start: nat, column: nat)
    requires
        start <= s.len(),
    ensures
        start <= advance_in_line(s, start, column) <= s.len(),
    decreases column,
{
    if !(column == 0 || start >= s.len() || s[start as int] == '\n') {
        lemma_advance_bound(s, start + 1, (column - 1) as nat);
    }
}

/// Number of newlines among the first `k` chars.
fn count_newlines_upto(s: &Vec<char>, k: usize) -> (r: usize)
    requires
        k <= s@.len(),
    ensures
        r == count_newlines(s@.take(k as int)),
{
    let mut count: usize = 0;
    let mut i: usize = 0;
    assert(s@.take(0) =~= Seq::<char>::empty());
    while i < k
        invariant
            i <= k <= s@.len(),
            count == count_newlines(s@.take(i as int)),
            count <= i,
        decreases k - i,
    {
        proof {
            lemma_count_newlines_step(s@, i as int);
        }
        if s[i] == '\n' {
            count = count + 1;
        }
        i = i + 1;
    }
    count
}

/// Number of chars after the last newline among the first `k` chars.
fn column_upto(s: &Vec<char>, k: usize) -> (r: usize)
    requires
        k <= s@.len(),
    ensures
        r == column_of(s@.take(k as int)),
{
    let mut column: usize = 0;
    let mut i: usize = 0;
    assert(s@.take(0) =~= Seq::<char>::empty());
    while i < k
        invariant
            i <= k <= s@.len(),
            column == column_of(s@.take(i as int)),
            column <= i,
        decreases k - i,
    {
        proof {
            lemma_count_newlines_step(s@, i as int);
        }
        if s[i] == '\n' {
            column = 0;
        } else {
            column = column + 1;
        }
        i = i + 1;
    }
    column
}

/// Char index at which line `target_line` starts.
fn line_start_char_of(s: &Vec<char>, target_line: usize) -> (r: usize)
    ensures
        r == line_start_char(s@, target_line as nat),
        r <= s@.len(),
{
    proof {
        lemma_line_start_bound(s@, target_line as nat);
    }
    if target_line == 0 {
        return 0;
    }
    let mut line: usize = 0;
    let mut i: usize = 0;
    assert(s@.skip(0) =~= s@);
    while i < s.len()
        invariant
            i <= s@.len(),
            line < target_line,
            line_start_char(s@, target_line as nat) == i + line_start_char(
                s@.skip(i as int),
                (target_line - line) as nat,
            ),
        decreases s@.len() - i,
    {
        assert(s@.skip(i as int).drop_first() =~= s@.skip(i + 1));
        assert(s@.skip(i as int)[0] == s@[i as int]);
        if s[i] == '\n' {
            assert(line_start_char(s@.skip(i as int), (target_line - line) as nat) == 1
                + line_start_char(s@.skip(i + 1), (target_line - line - 1) as nat));
            line = line + 1;
            if line == target_line {
                return i + 1;
            }
        }
        i = i + 1;
    }
    i
}

/// Char index reached from `start` by moving right by up to `column` chars within the line.
fn advance_in_line_of(s: &Vec<char>, start: usize, column: usize) -> (r: usize)
    requires
        start <= s@.len(),
    ensures
        r == advance_in_line(s@, start as nat, column as nat),
        start <= r <= s@.len(),
{
    proof {
        lemma_advance_bound(s@, start as nat, column as nat);
    }
    let mut idx = start;
    let mut remaining = column;
    while remaining > 0 && idx < s.len() && s[idx] != '\n'
        invariant
            start <= idx <= s@.len(),
            advance_in_line(s@, start as nat, column as nat) == advance_in_line(
                s@,
                idx as nat,
                remaining as nat,
            ),
        decreases remaining,
    {
        idx = idx + 1;
        remaining = remaining - 1;
    }
    idx
}

/// A copy of the given chars.
fn copy_chars(s: &Vec<char>) -> (r: Vec<char>)
    ensures
        r@ == s@,
{
    let mut out: Vec<char> = Vec::new();
    let mut i: usize = 0;
    while i < s.len()
        invariant
            i <= s@.len(),
            out@ == s@.take(i as int),
        decreases s@.len() - i,
    {
        out.push(s[i]);
        assert(s@.take(i + 1) =~= s@.take(i as int).push(s@[i as int]));
        i = i + 1;
    }
    assert(s@.take(s@.len() as int) =~= s@);
    out
}

impl TextInputInternal {
    /// The text fits in memory and the cursor is a char boundary of it.
    pub open spec fn wf(&self) -> bool {
        &&& utf8_len(self@.content) <= usize::MAX
        &&& is_char_boundary(self@.content, self@.cursor_index as int)
    }

    /// Char index of the cursor.
    pub open spec fn cursor_char(&self) -> nat {
        chars_within(self@.content, self@.cursor_index as int)
    }

    /// A text input over `text`, unfocused, with the cursor at the end.
    pub fn new(text: Text2DInternal) -> (r: Self)
        requires
            text.wf(),
        ensures
            r.wf(),
            r@.content == text@,
            r@.cursor_index == utf8_len(text@),
            r@.current_line == 0,
            !r@.focused,
    {
        let idx = text.content_len();
        proof {
            lemma_byte_offset_len(text@);
            lemma_chars_within_offset(text@, text@.len() as int);
        }
        Self { text, focused: false, cursor_index: idx, current_line: 0 }
    }

    pub fn is_focused(&self) -> (r: bool)
        ensures
            r == self@.focused,
    {
        self.focused
    }

    pub fn cursor_index(&self) -> (r: usize)
        ensures
            r == self@.cursor_index,
    {
        self.cursor_index
    }

    pub fn current_line(&self) -> (r: usize)
        ensures
            r == self@.current_line,
    {
        self.current_line
    }

    pub fn get_content(&self) -> (r: String)
        ensures
            r@ == self@.content,
    {
        self.text.get_content()
    }

    /// Mouse handling: a left click inside the input focuses it and moves the cursor to
    /// `hit_cursor_index` (the text position under the pointer); a click elsewhere unfocuses it.
    /// Returns whether the on-screen cursor needs repositioning.
    pub fn handle_mouse(
        &mut self,
        is_lmb_clicked: bool,
        pointer_inside: bool,
        hit_cursor_index: usize,
        hit_line: usize,
    ) -> (r: bool)
        requires
            old(self).wf(),
        ensures
            final(self).wf(),
            final(self)@.content == old(self)@.content,
            is_lmb_clicked && pointer_inside ==> {
                &&& final(self)@.focused
                &&& final(self)@.cursor_index == clamp_to_boundary(
                    old(self)@.content,
                    hit_cursor_index as int,
                )
                &&& final(self)@.current_line == count_newlines(
                    old(self)@.content.take(chars_within(old(self)@.content, hit_cursor_index as int) as int),
                )
                &&& r
            },
            is_lmb_clicked && !pointer_inside ==> {
                &&& !final(self)@.focused
                &&& final(self)@.cursor_index == old(self)@.cursor_index
                &&& final(self)@.current_line == old(self)@.current_line
                &&& r == old(self)@.focused
            },
            !is_lmb_clicked ==> final(self)@ == old(self)@ && !r,
    {
        if is_lmb_clicked {
            let was_focused = self.focused;
            if pointer_inside {
                self.set_focus(true);
                self.cursor_index = hit_cursor_index;
                self.current_line = hit_line;
                self.sync_cursor_state();
            } else {
                self.set_focus(false);
            }
            was_focused != self.focused || self.focused
        } else {
            false
        }
    }

    /// Clamps the cursor to a char boundary and recomputes its line.
    fn sync_cursor_state(&mut self)
        requires
            utf8_len(old(self)@.content) <= usize::MAX,
        ensures
            final(self).wf(),
            final(self)@.content == old(self)@.content,
            final(self)@.focused == old(self)@.focused,
            final(self)@.cursor_index == clamp_to_boundary(
                old(self)@.content,
                old(self)@.cursor_index as int,
            ),
            final(self)@.current_line == count_newlines(
                old(self)@.content.take(old(self).cursor_char() as int),
            ),
    {
        let content = self.text.content_chars();
        let (k, off) = chars_within_of(content, self.cursor_index);
        proof {
            lemma_chars_within_offset(content@, k as int);
        }
        self.current_line = count_newlines_upto(content, k);
        self.cursor_index = off;
    }

    /// The largest char boundary of `content` that is at most `index`.
    fn clamp_to_char_boundary(content: &Vec<char>, index: usize) -> (r: usize)
        requires
            utf8_len(content@) <= usize::MAX,
        ensures
            r == clamp_to_boundary(content@, index as int),
    {
        chars_within_of(content, index).1
    }

    /// The char boundary just before the (clamped) `index`, or 0.
    fn prev_char_boundary(content: &Vec<char>, index: usize) -> (r: usize)
        requires
            utf8_len(content@) <= usize::MAX,
        ensures
            ({
                let k = chars_within(content@, index as int);
                r == if k == 0 { 0 } else { byte_offset(content@, k - 1) }
            }),
    {
        let (k, _) = chars_within_of(content, index);
        if k == 0 {
            0
        } else {
            byte_offset_of(content, k - 1)
        }
    }

    /// The char boundary just after the (clamped) `index`, or the byte length.
    fn next_char_boundary(content: &Vec<char>, index: usize) -> (r: usize)
        requires
            utf8_len(content@) <= usize::MAX,
        ensures
            ({
                let k = chars_within(content@, index as int);
                r == if k >= content@.len() {
                    utf8_len(content@)
                } else {
                    byte_offset(content@, k + 1int)
                }
            }),
    {
        let (k, _) = chars_within_of(content, index);
        if k >= content.len() {
            utf8_len_of(content)
        } else {
            proof {
                lemma_byte_offset_monotone(content@, k + 1, content@.len() as int);
                lemma_byte_offset_len(content@);
            }
            byte_offset_of(content, k + 1)
        }
    }

    /// Line of the (clamped) byte position `index`.
    fn line_for_index(content: &Vec<char>, index: usize) -> (r: usize)
        requires
            utf8_len(content@) <= usize::MAX,
        ensures
            r == count_newlines(content@.take(chars_within(content@, index as int) as int)),
    {
        let (k, _) = chars_within_of(content, index);
        count_newlines_upto(content, k)
    }

    /// (line, column) of the cursor, the column counted in chars.
    fn get_cursor_line_and_column(&self, content: &Vec<char>) -> (r: (usize, usize))
        requires
            utf8_len(content@) <= usize::MAX,
        ensures
            ({
                let k = chars_within(content@, self.cursor_index as int) as int;
                r.0 == count_newlines(content@.take(k)) && r.1 == column_of(content@.take(k))
            }),
    {
        let (k, _) = chars_within_of(content, self.cursor_index);
        (count_newlines_upto(content, k), column_upto(content, k))
    }

    /// Byte position at which line `target_line` starts (the byte length when there is no such line).
    fn line_start_index(content: &Vec<char>, target_line: usize) -> (r: usize)
        requires
            utf8_len(content@) <= usize::MAX,
        ensures
            r == byte_offset(content@, line_start_char(content@, target_line as nat) as int),
    {
        let c = line_start_char_of(content, target_line);
        byte_offset_of(content, c)
    }

    /// Byte position of column `column` on line `line`, clamped to the end of that line.
    fn get_index_from_line_and_column(content: &Vec<char>, line: usize, column: usize) -> (r: usize)
        requires
            utf8_len(content@) <= usize::MAX,
        ensures
            r == byte_offset(content@, index_from_line_and_column(content@, line as nat, column as nat) as int),
            index_from_line_and_column(content@, line as nat, column as nat) <= content@.len(),
    {
        let start = line_start_char_of(content, line);
        let idx = advance_in_line_of(content, start, column);
        byte_offset_of(content, idx)
    }

    /// Applies a key press; returns whether the cursor moved.
    pub fn handle_key_press(&mut self, key: &Key) -> (r: bool)
        requires
            old(self).wf(),
            utf8_len(old(self)@.content) + key_insert_len(*key) <= usize::MAX,
        ensures
            final(self).wf(),
            ({
                let e = key_press_effect(old(self)@.content, old(self).cursor_char(), *key);
                &&& final(self)@.content == e.0
                &&& final(self)@.cursor_index == byte_offset(e.0, e.1 as int)
                &&& final(self)@.current_line == count_newlines(e.0.take(e.1 as int))
                &&& final(self)@.focused == (old(self)@.focused && !e.3)
                &&& r == e.2
            }),
    {
        let ghost s = self.text@;
        let ghost k0 = self.cursor_char();
        self.sync_cursor_state();
        proof {
            lemma_chars_within(s, old(self)@.cursor_index as int);
            lemma_chars_within_offset(s, k0 as int);
        }
        let content = copy_chars(self.text.content_chars());
        let (current_line_idx, current_column) = self.get_cursor_line_and_column(&content);
        let (k, _) = chars_within_of(&content, self.cursor_index);
        assert(k == k0);
        let mut cursor_moved = false;
        let ghost mut k1: nat = k0;
        match key {
            Key::Character(c) => {
                let ins = chars_of(c.as_str());
                if ins.len() > 0 {
                    proof {
                        lemma_byte_offset_len(s);
                        lemma_byte_offset_splice(s, k0 as int, c@);
                        lemma_byte_offset_monotone(s, k0 as int, s.len() as int);
                    }
                    self.text.insert_at(self.cursor_index, c.as_str());
                    let n = utf8_len_of(&ins);
                    self.cursor_index = self.cursor_index + n;
                    cursor_moved = true;
                    proof {
                        k1 = k0 + c@.len();
                        lemma_utf8_len_concat(s.take(k0 as int), c@);
                        lemma_utf8_len_concat(s.take(k0 as int) + c@, s.skip(k0 as int));
                        assert(s.take(k0 as int) + c@ + s.skip(k0 as int) == self.text@);
                        assert(self.text@.len() == s.len() + c@.len());
                        lemma_chars_within_offset(self.text@, k1 as int);
                    }
                }
            },
            Key::Named(NamedKey::Backspace) => {
                if self.cursor_index > 0 {
                    proof {
                        if k0 == 0 {
                            assert(s.take(0) =~= Seq::<char>::empty());
                        }
                    }
                    let delete_index = Self::prev_char_boundary(&content, self.cursor_index);
                    proof {
                        lemma_chars_within_offset(s, k0 - 1);
                        lemma_byte_offset_monotone(s, k0 - 1, s.len() as int);
                        lemma_byte_offset_step(s, k0 - 1);
                        lemma_byte_offset_len(s);
                    }
                    if self.text.remove_at(delete_index) {
                        self.cursor_index = delete_index;
                    }
                    cursor_moved = true;
                    proof {
                        k1 = (k0 - 1) as nat;
                        assert(s.remove(k1 as int).take(k1 as int) =~= s.take(k1 as int));
                        lemma_byte_offset_prefix(s, self.text@, k1 as int, k1 as int);
                        lemma_chars_within_offset(self.text@, k1 as int);
                    }
                }
            },
            Key::Named(NamedKey::Escape) => {
                self.focused = false;
            },
            Key::Named(NamedKey::Space) => {
                proof {
                    lemma_byte_offset_len(s);
                    lemma_byte_offset_splice(s, k0 as int, seq![' ']);
                    lemma_byte_offset_monotone(s, k0 as int, s.len() as int);
                    assert(utf8_len(seq![' ']) == 1) by {
                        lemma_utf8_len_single(' ');
                    }
                    reveal_strlit(" ");
                    assert(" "@ =~= seq![' ']);
                    lemma_utf8_len_concat(s.take(k0 as int), seq![' ']);
                    lemma_utf8_len_concat(s.take(k0 as int) + seq![' '], s.skip(k0 as int));
                }
                self.text.insert_at(self.cursor_index, " ");
                self.cursor_index = self.cursor_index + 1;
                cursor_moved = true;
                proof {
                    k1 = k0 + 1;
                    assert(self.text@ =~= s.take(k0 as int) + seq![' '] + s.skip(k0 as int));
                    lemma_chars_within_offset(self.text@, k1 as int);
                }
            },
            Key::Named(NamedKey::Enter) => {
                proof {
                    lemma_byte_offset_len(s);
                    lemma_byte_offset_splice(s, k0 as int, seq!['\n']);
                    lemma_byte_offset_monotone(s, k0 as int, s.len() as int);
                    assert(utf8_len(seq!['\n']) == 1) by {
                        lemma_utf8_len_single('\n');
                    }
                    reveal_strlit("\n");
                    assert("\n"@ =~= seq!['\n']);
                    lemma_utf8_len_concat(s.take(k0 as int), seq!['\n']);
                    lemma_utf8_len_concat(s.take(k0 as int) + seq!['\n'], s.skip(k0 as int));
                }
                self.text.insert_at(self.cursor_index, "\n");
                self.cursor_index = self.cursor_index + 1;
                cursor_moved = true;
                proof {
                    k1 = k0 + 1;
                    assert(self.text@ =~= s.take(k0 as int) + seq!['\n'] + s.skip(k0 as int));
                    lemma_chars_within_offset(self.text@, k1 as int);
                }
            },
            Key::Named(NamedKey::ArrowLeft) => {
                if self.cursor_index > 0 {
                    proof {
                        if k0 == 0 {
                            assert(s.take(0) =~= Seq::<char>::empty());
                        }
                    }
                    self.cursor_index = Self::prev_char_boundary(&content, self.cursor_index);
                    cursor_moved = true;
                    proof {
                        k1 = (k0 - 1) as nat;
                        lemma_chars_within_offset(s, k1 as int);
                    }
                }
            },
            Key::Named(NamedKey::ArrowRight) => {
                let len = utf8_len_of(&content);
                proof {
                    lemma_byte_offset_len(s);
                    if k0 < s.len() {
                        lemma_byte_offset_monotone(s, k0 as int, s.len() as int);
                    }
                }
                if self.cursor_index < len {
                    self.cursor_index = Self::next_char_boundary(&content, self.cursor_index);
                    cursor_moved = true;
                    proof {
                        k1 = k0 + 1;
                        lemma_chars_within_offset(s, k1 as int);
                    }
                }
            },
            Key::Named(NamedKey::ArrowUp) => {
                if current_line_idx > 0 {
                    self.cursor_index = Self::get_index_from_line_and_column(
                        &content,
                        current_line_idx - 1,
                        current_column,
                    );
                    cursor_moved = true;
                    proof {
                        k1 = index_from_line_and_column(
                            s,
                            (current_line_idx - 1) as nat,
                            current_column as nat,
                        );
                        lemma_chars_within_offset(s, k1 as int);
                    }
                }
            },
            Key::Named(NamedKey::ArrowDown) => {
                let total = count_newlines_upto(&content, content.len());
                assert(content@.take(content@.len() as int) =~= content@);
                if current_line_idx < total {
                    self.cursor_index = Self::get_index_from_line_and_column(
                        &content,
                        current_line_idx + 1,
                        current_column,
                    );
                    cursor_moved = true;
                    proof {
                        k1 = index_from_line_and_column(
                            s,
                            (current_line_idx + 1) as nat,
                            current_column as nat,
                        );
                        lemma_chars_within_offset(s, k1 as int);
                    }
                }
            },
            _ => {},
        }
        self.sync_cursor_state();
        proof {
            lemma_chars_within_offset(self.text@, k1 as int);
        }
        cursor_moved
    }

    pub fn set_focus(&mut self, focus: bool)
        ensures
            final(self)@ == (TextInputView { focused: focus, ..old(self)@ }),
    {
        self.focused = focus;
    }

    /// Replaces the text and moves the cursor to its end.
    pub fn set_content(&mut self, content: &str)
        ensures
            final(self).wf(),
            final(self)@.content == content@,
            final(self)@.cursor_index == utf8_len(content@),
            final(self)@.current_line == count_newlines(content@),
            final(self)@.focused == old(self)@.focused,
    {
        self.text.set_content(content);
        self.cursor_index = self.text.content_len();
        self.sync_cursor_state();
        proof {
            lemma_byte_offset_len(content@);
            lemma_chars_within_offset(content@, content@.len() as int);
            assert(content@.take(content@.len() as int) =~= content@);
        }
    }

    /// Empties the text and resets the cursor.
    pub fn clear(&mut self)
        ensures
            final(self).wf(),
            final(self)@.content == Seq::<char>::empty(),
            final(self)@.cursor_index == 0,
            final(self)@.current_line == 0,
            final(self)@.focused == old(self)@.focused,
    {
        proof {
            reveal_strlit("");
        }
        self.text.set_content("");
        self.cursor_index = 0;
        self.current_line = 0;
        proof {
            assert(self.text@ =~= Seq::<char>::empty());
            assert(self.text@.take(0) =~= Seq::<char>::empty());
            lemma_chars_within_offset(self.text@, 0);
        }
    }
}

/// Typing one char and then pressing Backspace restores the text and the cursor.
pub proof fn lemma_backspace_undoes_character(s: Seq<char>, k: nat, c: String)
    requires
        k <= s.len(),
        c@.len() == 1,
    ensures
        ({
            let typed = key_press_effect(s, k, Key::Character(c));
            let erased = key_press_effect(typed.0, typed.1, Key::Named(NamedKey::Backspace));
            erased.0 == s && erased.1 == k && typed.2 && erased.2
        }),
{
    let t = s.take(k as int) + c@ + s.skip(k as int);
    assert(t.remove(k as int) =~= s);
}

/// Pressing Enter and then Backspace restores the text and the cursor.
pub proof fn lemma_backspace_undoes_enter(s: Seq<char>, k: nat)
    requires
        k <= s.len(),
    ensures
        ({
            let typed = key_press_effect(s, k, Key::Named(NamedKey::Enter));
            let erased = key_press_effect(typed.0, typed.1, Key::Named(NamedKey::Backspace));
            erased.0 == s && erased.1 == k
        }),
{
    let t = s.take(k as int) + seq!['\n'] + s.skip(k as int);
    assert(t.remove(k as int) =~= s);
}

/// Moving left and then right returns the cursor to where it was, unless it started at the
/// beginning of the text.
pub proof fn lemma_left_then_right(s: Seq<char>, k: nat)
    requires
        0 < k <= s.len(),
    ensures
        ({
            let l = key_press_effect(s, k, Key::Named(NamedKey::ArrowLeft));
            let r = key_press_effect(l.0, l.1, Key::Named(NamedKey::ArrowRight));
            r.0 == s && r.1 == k
        }),
{
}

/// Key presses never move the cursor outside the text.
pub proof fn lemma_key_press_cursor_in_text(s: Seq<char>, k: nat, key: Key)
    requires
        k <= s.len(),
    ensures
        key_press_effect(s, k, key).1 <= key_press_effect(s, k, key).0.len(),
{
    let line = count_newlines(s.take(k as int));
    let column = column_of(s.take(k as int));
    let up = (line - 1) as nat;
    lemma_line_start_bound(s, up);
    lemma_advance_bound(s, line_start_char(s, up), column);
    lemma_line_start_bound(s, line + 1);
    lemma_advance_bound(s, line_start_char(s, line + 1), column);
    match key {
        Key::Character(c) => {
            assert((s.take(k as int) + c@ + s.skip(k as int)).len() == s.len() + c@.len());
        },
        _ => {},
    }
}

/// Typing a nonempty text inserts it at the cursor and moves the cursor, in bytes, past it onto
/// a char boundary; Escape drops focus and changes neither the text nor the cursor.
pub proof fn lemma_key_press_bytes(s: Seq<char>, k: nat, key: Key)
    requires
        k <= s.len(),
    ensures
        ({
            let e = key_press_effect(s, k, key);
            &&& e.1 <= e.0.len()
            &&& is_char_boundary(e.0, byte_offset(e.0, e.1 as int) as int)
            &&& (key matches Key::Character(c) && c@.len() > 0) ==> {
                &&& e.0 == s.take(k as int) + key->Character_0@ + s.skip(k as int)
                &&& byte_offset(e.0, e.1 as int) == byte_offset(s, k as int) + utf8_len(
                    key->Character_0@,
                )
                &&& e.2
            }
            &&& key == Key::Named(NamedKey::Escape) ==> e.0 == s && e.1 == k && e.3 && !e.2
        }),
{
    lemma_key_press_cursor_in_text(s, k, key);
    let e = key_press_effect(s, k, key);
    lemma_chars_within_offset(e.0, e.1 as int);
    if let Key::Character(c) = key {
        if c@.len() > 0 {
            let t = s.take(k as int) + c@ + s.skip(k as int);
            assert(t.take((k + c@.len()) as int) =~= s.take(k as int) + c@);
            lemma_utf8_len_concat(s.take(k as int), c@);
        }
    }
}

/// `t` is `s` with `ins` inserted at char position `k`.
pub open spec fn inserted_at(t: Seq<char>, s: Seq<char>, k: int, ins: Seq<char>) -> bool {
    &&& t.len() == s.len() + ins.len()
    &&& forall|j: int| 0 <= j < k ==> t[j] == s[j]
    &&& forall|j: int| 0 <= j < ins.len() ==> t[k + j] == ins[j]
    &&& forall|j: int| k <= j < s.len() ==> t[j + ins.len()] == s[j]
}

/// What each editing key does to the text `s` with the cursor before char `k`: typed text,
/// Space and Enter insert their text at the cursor and move it just past; Backspace removes the
/// char before the cursor and moves it back one; the arrows move it by one char within the
/// text; Escape drops focus. Only Escape unfocuses, and every key that changes nothing reports
/// no change.
pub proof fn lemma_key_press_edits_at_cursor(s: Seq<char>, k: nat, key: Key)
    requires
        k <= s.len(),
    ensures
        ({
            let e = key_press_effect(s, k, key);
            &&& (key matches Key::Character(c) && c@.len() > 0) ==> inserted_at(
                e.0,
                s,
                k as int,
                key->Character_0@,
            ) && e.1 == k + key->Character_0@.len() && e.2 && !e.3
            &&& key == Key::Named(NamedKey::Space) ==> inserted_at(e.0, s, k as int, seq![' '])
                && e.1 == k + 1 && e.2 && !e.3
            &&& key == Key::Named(NamedKey::Enter) ==> inserted_at(e.0, s, k as int, seq!['\n'])
                && e.1 == k + 1 && e.2 && !e.3
            &&& (key == Key::Named(NamedKey::Backspace) && k > 0) ==> inserted_at(
                s,
                e.0,
                k - 1,
                seq![s[k - 1]],
            ) && e.1 == k - 1 && e.2 && !e.3
            &&& (key == Key::Named(NamedKey::Backspace) && k == 0) ==> e.0 == s && e.1 == k
                && !e.2 && !e.3
            &&& key == Key::Named(NamedKey::ArrowLeft) ==> e.0 == s && e.1 == (if k > 0 {
                k - 1
            } else {
                k as int
            }) && e.2 == (k > 0) && !e.3
            &&& key == Key::Named(NamedKey::ArrowRight) ==> e.0 == s && e.1 == (if k < s.len() {
                (k + 1) as int
            } else {
                k as int
            }) && e.2 == (k < s.len()) && !e.3
            &&& key == Key::Named(NamedKey::Escape) ==> e.0 == s && e.1 == k && !e.2 && e.3
            &&& e.3 ==> key == Key::Named(NamedKey::Escape)
            &&& !e.2 ==> e.0 == s && e.1 == k
        }),
{
    let e = key_press_effect(s, k, key);
    if let Key::Character(c) = key {
        if c@.len() > 0 {
            let t = s.take(k as int) + c@ + s.skip(k as int);
            assert forall|j: int| 0 <= j < c@.len() implies t[k + j] == c@[j] by {
                assert(t[k + j] == (s.take(k as int) + c@)[k + j]);
            }
            assert forall|j: int| k <= j < s.len() implies t[j + c@.len()] == s[j] by {
                assert(t[j + c@.len()] == s.skip(k as int)[j - k]);
            }
        }
    }
    if key == Key::Named(NamedKey::Backspace) && k > 0 {
        assert(forall|j: int| k - 1 <= j < e.0.len() ==> e.0[j] == s[j + 1]);
    }
}

/// Backspace undoes Space, Enter and typing one char: the text and the cursor come back.
pub proof fn lemma_backspace_undoes_insertion(s: Seq<char>, k: nat, key: Key)
    requires
        k <= s.len(),
        key == Key::Named(NamedKey::Space) || key == Key::Named(NamedKey::Enter) || (
        key matches Key::Character(c) && c@.len() == 1),
    ensures
        ({
            let e = key_press_effect(s, k, key);
            let b = key_press_effect(e.0, e.1, Key::Named(NamedKey::Backspace));
            b.0 == s && b.1 == k
        }),
{
    let e = key_press_effect(s, k, key);
    lemma_key_press_edits_at_cursor(s, k, key);
    let b = key_press_effect(e.0, e.1, Key::Named(NamedKey::Backspace));
    assert(b.0 =~= s);
}

} // verus!
