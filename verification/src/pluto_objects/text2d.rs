//! Text content of a 2D text object, edited by byte positions of its UTF-8 encoding.
use vstd::prelude::*;

use crate::text::string_push;

verus! {

broadcast use vstd::string::group_string_axioms;

#[derive(Debug, Clone, Copy, PartialEq)]
pub enum HorizontalAlignment {
    Left,  // Text starts from left edge
    Center,  // Text is centered horizontally
    Right,  // Text ends at right edge
}

#[derive(Debug, Clone, Copy, PartialEq)]
pub enum VerticalAlignment {
    Top,  // Text starts from top edge
    Middle,  // Text is centered vertically
    Bottom,  // Text starts from bottom edge (default)
}

/// Number of bytes in the UTF-8 encoding of `c`.
pub open spec fn char_utf8_len(c: char) -> nat {
    if (c as u32) < 0x80 {
        1
    } else if (c as u32) < 0x800 {
        2
    } else if (c as u32) < 0x10000 {
        3
    } else {
        4
    }
}

/// Number of bytes in the UTF-8 encoding of `s`.
pub open spec fn utf8_len(s: Seq<char>) -> nat
    decreases s.len(),
{
    if s.len() == 0 {
        0
    } else {
        char_utf8_len(s[0]) + utf8_len(s.drop_first())
    }
}

/// `utf8_len` is the length of the UTF-8 encoding of `s`.
pub proof fn lemma_utf8_len_is_encoding_len(s: Seq<char>)
    ensures
        utf8_len(s) == vstd::utf8::encode_utf8(s).len(),
    decreases s.len(),
{
    if s.len() > 0 {
        lemma_utf8_len_is_encoding_len(s.drop_first());
        let v = s[0] as u32;
        vstd::utf8::char_is_scalar(s[0]);
        assert(vstd::utf8::encode_scalar(v).len() == char_utf8_len(s[0]));
        assert(vstd::utf8::encode_utf8(s) == vstd::utf8::encode_scalar(v) + vstd::utf8::encode_utf8(
            s.drop_first(),
        ));
    }
}

/// Byte position at which the char with index `k` starts (the byte length of the first `k` chars).
pub open spec fn byte_offset(s: Seq<char>, k: int) -> nat {
    utf8_len(s.take(k))
}

/// The number of leading chars of `s` whose encoding fits within the first `b` bytes.
/// For a byte position `b` this is the index of the char that `b` falls in, or `s.len()`.
pub open spec fn chars_within(s: Seq<char>, b: int) -> nat
    decreases s.len(),
{
    if s.len() == 0 || char_utf8_len(s[0]) > b {
        0
    } else {
        1 + chars_within(s.drop_first(), b - char_utf8_len(s[0]))
    }
}

/// `b` is a byte position at which a char starts, or the end of the text.
pub open spec fn is_char_boundary(s: Seq<char>, b: int) -> bool {
    0 <= b && byte_offset(s, chars_within(s, b) as int) == b
}

/// The largest char boundary that is at most `index` (and at most the byte length).
pub open spec fn clamp_to_boundary(s: Seq<char>, index: int) -> nat {
    byte_offset(s, chars_within(s, index) as int)
}

pub proof fn lemma_utf8_len_concat(a: Seq<char>, b: Seq<char>)
    ensures
        utf8_len(a + b) == utf8_len(a) + utf8_len(b),
    decreases a.len(),
{
    if a.len() > 0 {
        assert((a + b).drop_first() =~= a.drop_first() + b);
        lemma_utf8_len_concat(a.drop_first(), b);
    } else {
        assert(a + b =~= b);
    }
}

pub proof fn lemma_utf8_len_push(s: Seq<char>, c: char)
    ensures
        utf8_len(s.push(c)) == utf8_len(s) + char_utf8_len(c),
{
    lemma_utf8_len_concat(s, seq![c]);
    assert(s.push(c) =~= s + seq![c]);
    assert(seq![c].drop_first() =~= Seq::<char>::empty());
    assert(utf8_len(seq![c]) == char_utf8_len(c) + utf8_len(Seq::<char>::empty()));
}

pub proof fn lemma_utf8_len_single(c: char)
    ensures
        utf8_len(seq![c]) == char_utf8_len(c),
{
    assert(seq![c].drop_first() =~= Seq::<char>::empty());
    assert(utf8_len(seq![c]) == char_utf8_len(c) + utf8_len(Seq::<char>::empty()));
}

/// The byte offset of char `k + 1` is the byte offset of char `k` plus its width.
pub proof fn lemma_byte_offset_step(s: Seq<char>, k: int)
    requires
        0 <= k < s.len(),
    ensures
        byte_offset(s, k + 1) == byte_offset(s, k) + char_utf8_len(s[k]),
{
    assert(s.take(k + 1) =~= s.take(k).push(s[k]));
    lemma_utf8_len_push(s.take(k), s[k]);
}

/// Byte offsets strictly increase with the char index.
pub proof fn lemma_byte_offset_monotone(s: Seq<char>, i: int, j: int)
    requires
        0 <= i <= j <= s.len(),
    ensures
        byte_offset(s, i) + (j - i) <= byte_offset(s, j),
    decreases j - i,
{
    if i < j {
        lemma_byte_offset_step(s, j - 1);
        lemma_byte_offset_monotone(s, i, j - 1);
    }
}

pub proof fn lemma_byte_offset_len(s: Seq<char>)
    ensures
        byte_offset(s, s.len() as int) == utf8_len(s),
{
    assert(s.take(s.len() as int) =~= s);
}

proof fn lemma_byte_offset_drop_first(s: Seq<char>, k: int)
    requires
        0 < s.len(),
        0 <= k <= s.len() - 1,
    ensures
        byte_offset(s, k + 1) == char_utf8_len(s[0]) + byte_offset(s.drop_first(), k),
{
    assert(s.take(k + 1).drop_first() =~= s.drop_first().take(k));
}

/// `chars_within` is characterized by: the first `k` chars fit in `b` bytes and the first `k + 1` do not.
pub proof fn lemma_chars_within(s: Seq<char>, b: int)
    requires
        0 <= b,
    ensures
        chars_within(s, b) <= s.len(),
        byte_offset(s, chars_within(s, b) as int) <= b,
        chars_within(s, b) < s.len() ==> byte_offset(s, chars_within(s, b) + 1int) > b,
    decreases s.len(),
{
    let k = chars_within(s, b);
    if s.len() == 0 || char_utf8_len(s[0]) > b {
        assert(s.take(0) =~= Seq::<char>::empty());
        if s.len() > 0 {
            lemma_byte_offset_step(s, 0);
        }
    } else {
        let t = s.drop_first();
        let b2 = b - char_utf8_len(s[0]);
        lemma_chars_within(t, b2);
        lemma_byte_offset_drop_first(s, chars_within(t, b2) as int);
        if chars_within(t, b2) < t.len() {
            lemma_byte_offset_drop_first(s, chars_within(t, b2) + 1int);
        }
    }
}

/// Any `k` with the characterizing property is `chars_within`.
pub proof fn lemma_chars_within_unique(s: Seq<char>, b: int, k: int)
    requires
        0 <= b,
        0 <= k <= s.len(),
        byte_offset(s, k) <= b,
        k < s.len() ==> byte_offset(s, k + 1) > b,
    ensures
        chars_within(s, b) == k,
{
    lemma_chars_within(s, b);
    let c = chars_within(s, b) as int;
    if c < k {
        lemma_byte_offset_monotone(s, c + 1, k);
    } else if k < c {
        lemma_byte_offset_monotone(s, k + 1, c);
    }
}

/// The byte offset of char `k` is a char boundary whose char index is `k`.
pub proof fn lemma_chars_within_offset(s: Seq<char>, k: int)
    requires
        0 <= k <= s.len(),
    ensures
        chars_within(s, byte_offset(s, k) as int) == k,
        is_char_boundary(s, byte_offset(s, k) as int),
{
    if k < s.len() {
        lemma_byte_offset_step(s, k);
    }
    lemma_chars_within_unique(s, byte_offset(s, k) as int, k);
}

/// Bytes of the prefix of length `k` of `a + b + c` when `k` lies past `a + b`.
pub proof fn lemma_byte_offset_splice(s: Seq<char>, k: int, m: Seq<char>)
    requires
        0 <= k <= s.len(),
    ensures
        byte_offset(s.take(k) + m + s.skip(k), k + m.len()) == byte_offset(s, k) + utf8_len(m),
{
    let t = s.take(k) + m + s.skip(k);
    assert(t.take(k + m.len()) =~= s.take(k) + m);
    lemma_utf8_len_concat(s.take(k), m);
}

/// Byte offsets of chars before an edit position are unchanged by the edit.
pub proof fn lemma_byte_offset_prefix(s: Seq<char>, t: Seq<char>, k: int, j: int)
    requires
        0 <= j <= k <= s.len(),
        k <= t.len(),
        s.take(k) == t.take(k),
    ensures
        byte_offset(s, j) == byte_offset(t, j),
{
    assert(s.take(j) =~= s.take(k).take(j));
    assert(t.take(j) =~= t.take(k).take(j));
}

/// Number of bytes in the UTF-8 encoding of `c`.
pub fn char_len_utf8(c: char) -> (r: usize)
    ensures
        r == char_utf8_len(c),
        1 <= r <= 4,
{
    let u = c as u32;
    if u < 0x80 {
        1
    } else if u < 0x800 {
        2
    } else if u < 0x10000 {
        3
    } else {
        4
    }
}

/// Byte offset of char `k` of `s`.
pub fn byte_offset_of(s: &Vec<char>, k: usize) -> (r: usize)
    requires
        k <= s@.len(),
        utf8_len(s@) <= usize::MAX,
    ensures
        r == byte_offset(s@, k as int),
{
    let mut off: usize = 0;
    let mut i: usize = 0;
    assert(s@.take(0) =~= Seq::<char>::empty());
    while i < k
        invariant
            i <= k <= s@.len(),
            utf8_len(s@) <= usize::MAX,
            off == byte_offset(s@, i as int),
        decreases k - i,
    {
        proof {
            lemma_byte_offset_step(s@, i as int);
            lemma_byte_offset_monotone(s@, i + 1, s@.len() as int);
            lemma_byte_offset_len(s@);
        }
        off = off + char_len_utf8(s[i]);
        i = i + 1;
    }
    off
}

/// Byte length of the UTF-8 encoding of `s`.
pub fn utf8_len_of(s: &Vec<char>) -> (r: usize)
    requires
        utf8_len(s@) <= usize::MAX,
    ensures
        r == utf8_len(s@),
{
    proof {
        lemma_byte_offset_len(s@);
    }
    byte_offset_of(s, s.len())
}

/// The index of the char that byte position `b` falls in (or `s.len()`), with its byte offset.
pub fn chars_within_of(s: &Vec<char>, b: usize) -> (r: (usize, usize))
    requires
        utf8_len(s@) <= usize::MAX,
    ensures
        r.0 == chars_within(s@, b as int),
        r.1 == byte_offset(s@, r.0 as int),
        r.0 <= s@.len(),
        r.1 <= b,
{
    let mut off: usize = 0;
    let mut i: usize = 0;
    assert(s@.take(0) =~= Seq::<char>::empty());
    while i < s.len()
        invariant_except_break
            i <= s@.len(),
            off == byte_offset(s@, i as int),
            off <= b,
        ensures
            i <= s@.len(),
            off == byte_offset(s@, i as int),
            off <= b,
            i < s@.len() ==> off + char_utf8_len(s@[i as int]) > b,
        decreases s@.len() - i,
    {
        let w = char_len_utf8(s[i]);
        if w > b - off {
            break;
        }
        proof {
            lemma_byte_offset_step(s@, i as int);
        }
        off = off + w;
        i = i + 1;
    }
    proof {
        if i < s@.len() {
            lemma_byte_offset_step(s@, i as int);
        }
        lemma_chars_within_unique(s@, b as int, i as int);
    }
    (i, off)
}

/// Text content of a 2D text object.
pub struct Text2DInternal {
    content: Vec<char>,
}

impl View for Text2DInternal {
    type V = Seq<char>;

    closed spec fn view(&self) -> Seq<char> {
        self.content@
    }
}

/// A `String` holding the given chars.
pub fn string_from_chars(chars: &Vec<char>) -> (r: String)
    ensures
        r@ == chars@,
{
    let mut out = String::new();
    let mut i: usize = 0;
    while i < chars.len()
        invariant
            i <= chars@.len(),
            out@ == chars@.take(i as int),
        decreases chars@.len() - i,
    {
        string_push(&mut out, chars[i]);
        assert(chars@.take(i + 1) =~= chars@.take(i as int).push(chars@[i as int]));
        i = i + 1;
    }
    assert(chars@.take(chars@.len() as int) =~= chars@);
    out
}

/// The chars of a string slice, whose UTF-8 length, like that of every string in memory, fits
/// in `usize`.
pub fn chars_of(s: &str) -> (r: Vec<char>)
    ensures
        r@ == s@,
        utf8_len(s@) <= usize::MAX,
{
    let byte_len: usize = s.as_bytes().len();
    proof {
        lemma_utf8_len_is_encoding_len(s@);
        assert(byte_len == utf8_len(s@));
    }
    let mut out: Vec<char> = Vec::new();
    for c in it: s.chars()
        invariant
            it.seq() == s@,
            out@ == it.seq().take(it.index() as int),
    {
        out.push(c);
    }
    out
}

impl Text2DInternal {
    /// The byte length of the content fits in `usize`, as it does for every in-memory string.
    pub open spec fn wf(&self) -> bool {
        utf8_len(self@) <= usize::MAX
    }

    pub fn new(content: &str) -> (r: Self)
        ensures
            r@ == content@,
            r.wf(),
    {
        Text2DInternal { content: chars_of(content) }
    }

    /// A copy of the content.
    pub fn get_content(&self) -> (r: String)
        ensures
            r@ == self@,
    {
        string_from_chars(&self.content)
    }

    /// The byte length of the content's UTF-8 encoding.
    pub fn content_len(&self) -> (r: usize)
        requires
            self.wf(),
        ensures
            r == utf8_len(self@),
    {
        utf8_len_of(&self.content)
    }

    /// The content as chars.
    pub fn content_chars(&self) -> (r: &Vec<char>)
        ensures
            r@ == self@,
    {
        &self.content
    }

    pub fn set_content(&mut self, new_content: &str)
        ensures
            final(self)@ == new_content@,
            final(self).wf(),
    {
        self.content = chars_of(new_content);
    }

    pub fn append_content(&mut self, new_content: &str)
        requires
            utf8_len(old(self)@ + new_content@) <= usize::MAX,
        ensures
            final(self)@ == old(self)@ + new_content@,
            final(self).wf(),
    {
        let mut extra = chars_of(new_content);
        self.content.append(&mut extra);
    }

    /// Removes the last char; returns whether there was one.
    pub fn pop_content(&mut self) -> (r: bool)
        requires
            old(self).wf(),
        ensures
            r == (old(self)@.len() > 0),
            final(self)@ == (if r { old(self)@.drop_last() } else { old(self)@ }),
            final(self).wf(),
    {
        if self.content.len() > 0 {
            proof {
                assert(old(self)@ =~= old(self)@.drop_last().push(old(self)@.last()));
                lemma_utf8_len_push(old(self)@.drop_last(), old(self)@.last());
            }
            self.content.pop();
            true
        } else {
            false
        }
    }

    /// Inserts `c` at byte position `index`; does nothing unless `index` is a char boundary
    /// within the content.
    pub fn insert_at(&mut self, index: usize, c: &str)
        requires
            old(self).wf(),
            utf8_len(old(self)@) + utf8_len(c@) <= usize::MAX,
        ensures
            ({
                let s = old(self)@;
                let k = chars_within(s, index as int) as int;
                final(self)@ == if index <= utf8_len(s) && is_char_boundary(s, index as int) {
                    s.take(k) + c@ + s.skip(k)
                } else {
                    s
                }
            }),
            final(self).wf(),
    {
        let len = utf8_len_of(&self.content);
        if index > len {
            return ;
        }
        let (k, off) = chars_within_of(&self.content, index);
        if off != index {
            return ;
        }
        let ins = chars_of(c);
        let mut out: Vec<char> = Vec::new();
        let mut i: usize = 0;
        while i < k
            invariant
                i <= k <= self.content@.len(),
                out@ == self.content@.take(i as int),
            decreases k - i,
        {
            out.push(self.content[i]);
            assert(self.content@.take(i + 1) =~= self.content@.take(i as int).push(
                self.content@[i as int],
            ));
            i = i + 1;
        }
        let mut j: usize = 0;
        while j < ins.len()
            invariant
                j <= ins@.len(),
                out@ == self.content@.take(k as int) + ins@.take(j as int),
            decreases ins@.len() - j,
        {
            out.push(ins[j]);
            assert(ins@.take(j + 1) =~= ins@.take(j as int).push(ins@[j as int]));
            j = j + 1;
        }
        assert(ins@.take(ins@.len() as int) =~= ins@);
        let mut i2: usize = k;
        while i2 < self.content.len()
            invariant
                k <= i2 <= self.content@.len(),
                out@ == self.content@.take(k as int) + ins@ + self.content@.subrange(
                    k as int,
                    i2 as int,
                ),
            decreases self.content@.len() - i2,
        {
            out.push(self.content[i2]);
            assert(self.content@.subrange(k as int, i2 + 1) =~= self.content@.subrange(
                k as int,
                i2 as int,
            ).push(self.content@[i2 as int]));
            i2 = i2 + 1;
        }
        proof {
            let s = self.content@;
            assert(s.subrange(k as int, s.len() as int) =~= s.skip(k as int));
            assert(s =~= s.take(k as int) + s.skip(k as int));
            lemma_utf8_len_concat(s.take(k as int), s.skip(k as int));
            lemma_utf8_len_concat(s.take(k as int) + ins@, s.skip(k as int));
            lemma_utf8_len_concat(s.take(k as int), ins@);
        }
        self.content = out;
    }

    /// Removes the char starting at byte position `index`; returns whether a char was removed
    /// (only when `index` is a char boundary strictly inside the content).
    pub fn remove_at(&mut self, index: usize) -> (r: bool)
        requires
            old(self).wf(),
        ensures
            ({
                let s = old(self)@;
                &&& r == (index < utf8_len(s) && is_char_boundary(s, index as int))
                &&& final(self)@ == if r {
                    s.remove(chars_within(s, index as int) as int)
                } else {
                    s
                }
            }),
            final(self).wf(),
    {
        let len = utf8_len_of(&self.content);
        if index >= len {
            return false;
        }
        let (k, off) = chars_within_of(&self.content, index);
        if off != index {
            return false;
        }
        proof {
            let s = self.content@;
            lemma_byte_offset_len(s);
            if k == s.len() {
                assert(false);
            }
            assert(s =~= s.take(k as int) + s.skip(k as int));
            assert(s.remove(k as int) =~= s.take(k as int) + s.skip(k as int).drop_first());
            lemma_utf8_len_concat(s.take(k as int), s.skip(k as int));
            lemma_utf8_len_concat(s.take(k as int), s.skip(k as int).drop_first());
        }
        self.content.remove(k);
        true
    }
}

/// Removing at a char boundary undoes inserting one char there: the char inserted at byte
/// position `index` starts at `index`, and removing it restores the text.
pub proof fn lemma_remove_undoes_insert(s: Seq<char>, index: int, c: char)
    requires
        0 <= index <= utf8_len(s),
        is_char_boundary(s, index),
    ensures
        ({
            let k = chars_within(s, index) as int;
            let t = s.take(k) + seq![c] + s.skip(k);
            &&& index < utf8_len(t)
            &&& is_char_boundary(t, index)
            &&& chars_within(t, index) == k
            &&& t.remove(k) == s
        }),
{
    let k = chars_within(s, index) as int;
    let t = s.take(k) + seq![c] + s.skip(k);
    lemma_chars_within(s, index);
    assert(t.take(k) =~= s.take(k));
    lemma_byte_offset_prefix(s, t, k, k);
    lemma_chars_within_offset(t, k);
    assert(s =~= s.take(k) + s.skip(k));
    lemma_utf8_len_concat(s.take(k), s.skip(k));
    lemma_utf8_len_concat(s.take(k) + seq![c], s.skip(k));
    lemma_utf8_len_concat(s.take(k), seq![c]);
    lemma_utf8_len_single(c);
    lemma_byte_offset_len(s.take(k));
    assert(s.take(k).take(k) =~= s.take(k));
    assert(t.remove(k) =~= s);
}

} // verus!
