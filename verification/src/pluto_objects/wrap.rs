//! Greedy word wrapping of text into lines that fit a width.
//!
//! Whether a candidate line fits is a measurement of rendered text, made outside: the wrapper
//! proposes a candidate line, is told whether it fits, and decides the next step. Manual line
//! breaks are kept; words are runs of non-whitespace chars; a word that fits on no line gets a
//! line of its own.
use vstd::prelude::*;

use crate::pluto_objects::text2d::{chars_of, string_from_chars};

verus! {

/// The chars with the Unicode `White_Space` property.
pub open spec fn is_whitespace(c: char) -> bool {
    let u = c as u32;
    ||| 0x09 <= u <= 0x0D
    ||| u == 0x20
    ||| u == 0x85
    ||| u == 0xA0
    ||| u == 0x1680
    ||| 0x2000 <= u <= 0x200A
    ||| u == 0x2028
    ||| u == 0x2029
    ||| u == 0x202F
    ||| u == 0x205F
    ||| u == 0x3000
}

/// The pieces of `s` between `'\n'` chars (one more piece than there are `'\n'`s).
pub open spec fn split_lines(s: Seq<char>) -> Seq<Seq<char>>
    decreases s.len(),
{
    if s.len() == 0 {
        seq![Seq::<char>::empty()]
    } else {
        let p = split_lines(s.drop_last());
        if s.last() == '\n' {
            p.push(Seq::<char>::empty())
        } else {
            p.update(p.len() - 1, p.last().push(s.last()))
        }
    }
}

/// The words of `s`: its maximal runs of non-whitespace chars, in order.
pub open spec fn words_of(s: Seq<char>) -> Seq<Seq<char>>
    decreases s.len(),
{
    if s.len() == 0 {
        Seq::empty()
    } else {
        let p = words_of(s.drop_last());
        let c = s.last();
        if is_whitespace(c) {
            p
        } else if s.len() >= 2 && !is_whitespace(s[s.len() - 2]) {
            p.update(p.len() - 1, p.last().push(c))
        } else {
            p.push(seq![c])
        }
    }
}

/// The words of each of `lines`.
pub open spec fn words_per_line(lines: Seq<Seq<char>>) -> Seq<Seq<Seq<char>>> {
    lines.map_values(|line: Seq<char>| words_of(line))
}

/// The words of each line of `text`.
pub open spec fn segment_words(text: Seq<char>) -> Seq<Seq<Seq<char>>> {
    words_per_line(split_lines(text))
}

/// The line `current` extended by `word`, separated by a space.
pub open spec fn extend_line(current: Seq<char>, word: Seq<char>) -> Seq<char> {
    if current.len() == 0 {
        word
    } else {
        current + seq![' '] + word
    }
}

/// Lines produced from `words` when the line being filled is `current`: each word joins the
/// current line when the result fits, else starts a new line (a line of its own when the
/// current line is empty).
pub open spec fn wrap_words(
    words: Seq<Seq<char>>,
    current: Seq<char>,
    fits: spec_fn(Seq<char>) -> bool,
) -> Seq<Seq<char>>
    decreases words.len(),
{
    if words.len() == 0 {
        if current.len() == 0 {
            Seq::empty()
        } else {
            seq![current]
        }
    } else {
        let w = words[0];
        let test = extend_line(current, w);
        if fits(test) {
            wrap_words(words.drop_first(), test, fits)
        } else if current.len() > 0 {
            seq![current] + wrap_words(words.drop_first(), w, fits)
        } else {
            seq![w] + wrap_words(words.drop_first(), Seq::empty(), fits)
        }
    }
}

/// Lines of one manual line with words `words`: an empty line when it has no words.
pub open spec fn segment_lines(words: Seq<Seq<char>>, fits: spec_fn(Seq<char>) -> bool) -> Seq<
    Seq<char>,
> {
    if words.len() == 0 {
        seq![Seq::<char>::empty()]
    } else {
        wrap_words(words, Seq::empty(), fits)
    }
}

/// Lines of the manual lines `segments`, in order.
pub open spec fn segments_lines(
    segments: Seq<Seq<Seq<char>>>,
    fits: spec_fn(Seq<char>) -> bool,
) -> Seq<Seq<char>>
    decreases segments.len(),
{
    if segments.len() == 0 {
        Seq::empty()
    } else {
        segment_lines(segments[0], fits) + segments_lines(segments.drop_first(), fits)
    }
}

/// `lines` joined by `'\n'`.
pub open spec fn join_lines(lines: Seq<Seq<char>>) -> Seq<char>
    decreases lines.len(),
{
    if lines.len() == 0 {
        Seq::empty()
    } else if lines.len() == 1 {
        lines[0]
    } else {
        join_lines(lines.drop_last()) + seq!['\n'] + lines.last()
    }
}

/// The wrapped lines of `text` when `fits` tells which lines fit.
pub open spec fn spec_wrap(text: Seq<char>, fits: spec_fn(Seq<char>) -> bool) -> Seq<Seq<char>> {
    segments_lines(segment_words(text), fits)
}

/// State of a wrapping run.
pub struct WrapView {
    /// Words of the manual lines not yet started.
    pub rest: Seq<Seq<Seq<char>>>,
    /// Words of the started manual line not yet placed.
    pub words: Seq<Seq<char>>,
    /// The line being filled.
    pub current: Seq<char>,
    /// Finished lines.
    pub lines: Seq<Seq<char>>,
}

/// Lines the run produces from state `v` when `fits` answers every question.
pub open spec fn outcome(v: WrapView, fits: spec_fn(Seq<char>) -> bool) -> Seq<Seq<char>> {
    v.lines + wrap_words(v.words, v.current, fits) + segments_lines(v.rest, fits)
}

/// Moves on until a word waits for placement or nothing is left: finishes the line of an
/// exhausted manual line and starts the next manual line.
pub open spec fn settle(v: WrapView) -> WrapView
    decreases v.rest.len(), v.current.len(),
{
    if v.words.len() > 0 {
        v
    } else if v.current.len() > 0 {
        settle(
            WrapView {
                rest: v.rest,
                words: v.words,
                current: Seq::empty(),
                lines: v.lines.push(v.current),
            },
        )
    } else if v.rest.len() == 0 {
        v
    } else if v.rest[0].len() == 0 {
        settle(
            WrapView {
                rest: v.rest.drop_first(),
                words: v.words,
                current: v.current,
                lines: v.lines.push(Seq::empty()),
            },
        )
    } else {
        settle(
            WrapView {
                rest: v.rest.drop_first(),
                words: v.rest[0],
                current: v.current,
                lines: v.lines,
            },
        )
    }
}

/// A word waits for placement, or the run is over.
pub open spec fn is_settled(v: WrapView) -> bool {
    v.words.len() > 0 || (v.current.len() == 0 && v.rest.len() == 0)
}

/// Initial state of a run over `text`.
pub open spec fn wrap_start(text: Seq<char>) -> WrapView {
    settle(
        WrapView {
            rest: segment_words(text),
            words: Seq::empty(),
            current: Seq::empty(),
            lines: Seq::empty(),
        },
    )
}

/// The line to measure next.
pub open spec fn wrap_candidate(v: WrapView) -> Seq<char> {
    extend_line(v.current, v.words[0])
}

/// The state after being told whether the candidate line fits.
pub open spec fn wrap_step(v: WrapView, fits: bool) -> WrapView {
    let w = v.words[0];
    let test = extend_line(v.current, w);
    let words = v.words.drop_first();
    if fits {
        settle(WrapView { rest: v.rest, words, current: test, lines: v.lines })
    } else if v.current.len() > 0 {
        settle(WrapView { rest: v.rest, words, current: w, lines: v.lines.push(v.current) })
    } else {
        settle(WrapView { rest: v.rest, words, current: Seq::empty(), lines: v.lines.push(w) })
    }
}

/// Settling keeps the outcome of the run and yields a settled state.
pub proof fn lemma_settle(v: WrapView, fits: spec_fn(Seq<char>) -> bool)
    ensures
        outcome(settle(v), fits) == outcome(v, fits),
        is_settled(settle(v)),
    decreases v.rest.len(), v.current.len(),
{
    if v.words.len() > 0 {
    } else if v.current.len() > 0 {
        let v2 = WrapView {
            rest: v.rest,
            words: v.words,
            current: Seq::empty(),
            lines: v.lines.push(v.current),
        };
        lemma_settle(v2, fits);
        assert(wrap_words(v.words, v.current, fits) == seq![v.current]);
        assert(wrap_words(v2.words, v2.current, fits) =~= Seq::<Seq<char>>::empty());
        assert(outcome(v2, fits) =~= outcome(v, fits));
    } else if v.rest.len() == 0 {
    } else if v.rest[0].len() == 0 {
        let v2 = WrapView {
            rest: v.rest.drop_first(),
            words: v.words,
            current: v.current,
            lines: v.lines.push(Seq::empty()),
        };
        lemma_settle(v2, fits);
        assert(wrap_words(v.words, v.current, fits) =~= Seq::<Seq<char>>::empty());
        assert(segment_lines(v.rest[0], fits) == seq![Seq::<char>::empty()]);
        assert(outcome(v2, fits) =~= outcome(v, fits));
    } else {
        let v2 = WrapView {
            rest: v.rest.drop_first(),
            words: v.rest[0],
            current: v.current,
            lines: v.lines,
        };
        lemma_settle(v2, fits);
        assert(wrap_words(v.words, v.current, fits) =~= Seq::<Seq<char>>::empty());
        assert(segment_lines(v.rest[0], fits) == wrap_words(v.rest[0], Seq::empty(), fits));
        assert(outcome(v2, fits) =~= outcome(v, fits));
    }
}

/// Answering the candidate truthfully keeps the outcome of the run: a whole run answered by
/// `fits` ends with the lines `spec_wrap(text, fits)`.
pub proof fn lemma_step_keeps_outcome(v: WrapView, fits: spec_fn(Seq<char>) -> bool)
    requires
        v.words.len() > 0,
    ensures
        outcome(wrap_step(v, fits(wrap_candidate(v))), fits) == outcome(v, fits),
        is_settled(wrap_step(v, fits(wrap_candidate(v)))),
{
    let w = v.words[0];
    let test = extend_line(v.current, w);
    let words = v.words.drop_first();
    let pre = if fits(test) {
        WrapView { rest: v.rest, words, current: test, lines: v.lines }
    } else if v.current.len() > 0 {
        WrapView { rest: v.rest, words, current: w, lines: v.lines.push(v.current) }
    } else {
        WrapView { rest: v.rest, words, current: Seq::empty(), lines: v.lines.push(w) }
    };
    lemma_settle(pre, fits);
    assert(outcome(pre, fits) =~= outcome(v, fits));
}

/// The run over `text` starts settled, with the outcome `spec_wrap(text, fits)`.
pub proof fn lemma_start_outcome(text: Seq<char>, fits: spec_fn(Seq<char>) -> bool)
    ensures
        outcome(wrap_start(text), fits) == spec_wrap(text, fits),
        is_settled(wrap_start(text)),
{
    let v = WrapView {
        rest: segment_words(text),
        words: Seq::empty(),
        current: Seq::empty(),
        lines: Seq::empty(),
    };
    lemma_settle(v, fits);
    assert(outcome(v, fits) =~= spec_wrap(text, fits));
}

/// A settled run with no word waiting is over: its lines are the outcome.
pub proof fn lemma_done_outcome(v: WrapView, fits: spec_fn(Seq<char>) -> bool)
    requires
        is_settled(v),
        v.words.len() == 0,
    ensures
        outcome(v, fits) == v.lines,
{
    assert(outcome(v, fits) =~= v.lines);
}

/// The state after up to `n` questions of a run answered by `fits` (fewer when it ends).
pub open spec fn wrap_run(v: WrapView, fits: spec_fn(Seq<char>) -> bool, n: nat) -> WrapView
    decreases n,
{
    if n == 0 || v.words.len() == 0 {
        v
    } else {
        wrap_run(wrap_step(v, fits(wrap_candidate(v))), fits, (n - 1) as nat)
    }
}

proof fn lemma_wrap_run_keeps_outcome(v: WrapView, fits: spec_fn(Seq<char>) -> bool, n: nat)
    requires
        is_settled(v),
    ensures
        is_settled(wrap_run(v, fits, n)),
        outcome(wrap_run(v, fits, n), fits) == outcome(v, fits),
    decreases n,
{
    if n > 0 && v.words.len() > 0 {
        lemma_step_keeps_outcome(v, fits);
        lemma_wrap_run_keeps_outcome(wrap_step(v, fits(wrap_candidate(v))), fits, (n - 1) as nat);
    }
}

/// A run over `text` whose every question is answered by `fits` ends, once no candidate is
/// left, with exactly the lines `spec_wrap(text, fits)`.
pub proof fn lemma_wrap_run(text: Seq<char>, fits: spec_fn(Seq<char>) -> bool, n: nat)
    ensures
        wrap_run(wrap_start(text), fits, n).words.len() == 0 ==> wrap_run(
            wrap_start(text),
            fits,
            n,
        ).lines == spec_wrap(text, fits),
{
    lemma_start_outcome(text, fits);
    lemma_wrap_run_keeps_outcome(wrap_start(text), fits, n);
    let w = wrap_run(wrap_start(text), fits, n);
    if w.words.len() == 0 {
        lemma_done_outcome(w, fits);
    }
}

/// The char sequences of `v`.
pub open spec fn seqs(v: Seq<Vec<char>>) -> Seq<Seq<char>> {
    v.map_values(|w: Vec<char>| w@)
}

/// The char sequences of each element of `v`.
pub open spec fn seqs2(v: Seq<Vec<Vec<char>>>) -> Seq<Seq<Seq<char>>> {
    v.map_values(|s: Vec<Vec<char>>| seqs(s@))
}

pub(crate) proof fn lemma_seqs_push(v: Seq<Vec<char>>, w: Vec<char>)
    ensures
        seqs(v.push(w)) == seqs(v).push(w@),
{
    assert(seqs(v.push(w)) =~= seqs(v).push(w@));
}

fn is_whitespace_char(c: char) -> (r: bool)
    ensures
        r == is_whitespace(c),
{
    let u = c as u32;
    (0x09 <= u && u <= 0x0D) || u == 0x20 || u == 0x85 || u == 0xA0 || u == 0x1680 || (0x2000
        <= u && u <= 0x200A) || u == 0x2028 || u == 0x2029 || u == 0x202F || u == 0x205F || u
        == 0x3000
}

fn split_lines_exec(s: &Vec<char>) -> (r: Vec<Vec<char>>)
    ensures
        seqs(r@) == split_lines(s@),
{
    let mut done: Vec<Vec<char>> = Vec::new();
    let mut cur: Vec<char> = Vec::new();
    let mut i: usize = 0;
    assert(s@.take(0) =~= Seq::<char>::empty());
    assert(seqs(done@).push(cur@) =~= seq![Seq::<char>::empty()]);
    while i < s.len()
        invariant
            i <= s@.len(),
            seqs(done@).push(cur@) == split_lines(s@.take(i as int)),
        decreases s@.len() - i,
    {
        let c = s[i];
        proof {
            let t = s@.take(i + 1);
            assert(t.drop_last() =~= s@.take(i as int));
            assert(t.last() == c);
        }
        if c == '\n' {
            let ghost old_done = done@;
            let ghost old_cur = cur@;
            let mut finished: Vec<char> = Vec::new();
            core::mem::swap(&mut finished, &mut cur);
            done.push(finished);
            proof {
                lemma_seqs_push(old_done, finished);
                assert(seqs(done@).push(cur@) =~= seqs(old_done).push(old_cur).push(
                    Seq::<char>::empty(),
                ));
            }
        } else {
            let ghost old_cur = cur@;
            cur.push(c);
            proof {
                let p = seqs(done@).push(old_cur);
                assert(seqs(done@).push(cur@) =~= p.update(p.len() - 1, p.last().push(c)));
            }
        }
        i = i + 1;
    }
    assert(s@.take(s@.len() as int) =~= s@);
    let ghost d = done@;
    done.push(cur);
    proof {
        lemma_seqs_push(d, cur);
    }
    done
}

fn words_exec(s: &Vec<char>) -> (r: Vec<Vec<char>>)
    ensures
        seqs(r@) == words_of(s@),
{
    let mut out: Vec<Vec<char>> = Vec::new();
    let mut cur: Vec<char> = Vec::new();
    let mut in_word = false;
    let mut i: usize = 0;
    assert(s@.take(0) =~= Seq::<char>::empty());
    while i < s.len()
        invariant
            i <= s@.len(),
            in_word == (i > 0 && !is_whitespace(s@[i - 1])),
            in_word ==> seqs(out@).push(cur@) == words_of(s@.take(i as int)),
            !in_word ==> seqs(out@) == words_of(s@.take(i as int)),
        decreases s@.len() - i,
    {
        let c = s[i];
        proof {
            let t = s@.take(i + 1);
            assert(t.drop_last() =~= s@.take(i as int));
            assert(t.last() == c);
            if i > 0 {
                assert(t[t.len() - 2] == s@[i - 1]);
            }
        }
        if is_whitespace_char(c) {
            if in_word {
                let ghost o = out@;
                let mut finished: Vec<char> = Vec::new();
                core::mem::swap(&mut finished, &mut cur);
                out.push(finished);
                proof {
                    lemma_seqs_push(o, finished);
                }
            }
            in_word = false;
        } else {
            if in_word {
                let ghost old_cur = cur@;
                cur.push(c);
                proof {
                    let p = seqs(out@).push(old_cur);
                    assert(seqs(out@).push(cur@) =~= p.update(p.len() - 1, p.last().push(c)));
                }
            } else {
                cur = Vec::new();
                cur.push(c);
                proof {
                    assert(cur@ =~= seq![c]);
                }
            }
            in_word = true;
        }
        i = i + 1;
    }
    assert(s@.take(s@.len() as int) =~= s@);
    if in_word {
        let ghost o = out@;
        out.push(cur);
        proof {
            lemma_seqs_push(o, cur);
        }
    }
    out
}

pub(crate) fn segment_words_exec(s: &Vec<char>) -> (r: Vec<Vec<Vec<char>>>)
    ensures
        seqs2(r@) == segment_words(s@),
{
    let lines = split_lines_exec(s);
    let ghost ls = split_lines(s@);
    let mut out: Vec<Vec<Vec<char>>> = Vec::new();
    let mut i: usize = 0;
    while i < lines.len()
        invariant
            i <= lines@.len(),
            seqs(lines@) == ls,
            out@.len() == i,
            seqs2(out@) == words_per_line(ls.take(i as int)),
        decreases lines@.len() - i,
    {
        let ghost o = out@;
        let w = words_exec(&lines[i]);
        out.push(w);
        proof {
            assert(ls[i as int] == lines@[i as int]@);
            assert(seqs2(out@)[i as int] == seqs(w@));
            assert forall|k: int| 0 <= k < i + 1 implies seqs2(out@)[k] == words_per_line(
                ls.take(i + 1),
            )[k] by {
                if k < i {
                    assert(seqs2(o)[k] == words_per_line(ls.take(i as int))[k]);
                    assert(out@[k] == o[k]);
                }
            }
            assert(seqs2(out@) =~= words_per_line(ls.take(i + 1)));
        }
        i = i + 1;
    }
    assert(ls.take(lines@.len() as int) =~= ls);
    out
}

pub(crate) fn concat_chars(a: &Vec<char>, b: &Vec<char>) -> (r: Vec<char>)
    ensures
        r@ == a@ + b@,
{
    let mut out: Vec<char> = Vec::new();
    let mut i: usize = 0;
    while i < a.len()
        invariant
            i <= a@.len(),
            out@ == a@.take(i as int),
        decreases a@.len() - i,
    {
        out.push(a[i]);
        assert(out@ =~= a@.take(i + 1));
        i = i + 1;
    }
    let mut j: usize = 0;
    while j < b.len()
        invariant
            j <= b@.len(),
            out@ == a@ + b@.take(j as int),
        decreases b@.len() - j,
    {
        out.push(b[j]);
        assert(out@ =~= a@ + b@.take(j + 1));
        j = j + 1;
    }
    assert(a@.take(a@.len() as int) =~= a@);
    assert(b@.take(b@.len() as int) =~= b@);
    out
}

pub(crate) fn extend_line_exec(current: &Vec<char>, word: &Vec<char>) -> (r: Vec<char>)
    ensures
        r@ == extend_line(current@, word@),
{
    if current.len() == 0 {
        concat_chars(current, word)
    } else {
        let mut head = concat_chars(current, &Vec::new());
        head.push(' ');
        let r = concat_chars(&head, word);
        assert(r@ =~= current@ + seq![' '] + word@);
        r
    }
}

/// `lines` joined by `'\n'`.
pub(crate) fn join_lines_exec(lines: &Vec<Vec<char>>) -> (r: String)
    ensures
        r@ == join_lines(seqs(lines@)),
{
    let ghost ls = seqs(lines@);
    let mut out: Vec<char> = Vec::new();
    let mut i: usize = 0;
    assert(ls.take(0) =~= Seq::<Seq<char>>::empty());
    while i < lines.len()
        invariant
            i <= lines@.len(),
            ls == seqs(lines@),
            out@ == join_lines(ls.take(i as int)),
        decreases lines@.len() - i,
    {
        proof {
            assert(ls.take(i + 1).drop_last() =~= ls.take(i as int));
            assert(ls.take(i + 1).last() == lines@[i as int]@);
        }
        if i == 0 {
            out = concat_chars(&out, &lines[0]);
            assert(ls.take(1) =~= seq![ls[0]]);
        } else {
            out.push('\n');
            out = concat_chars(&out, &lines[i]);
        }
        i = i + 1;
    }
    assert(ls.take(ls.len() as int) =~= ls);
    string_from_chars(&out)
}

/// Greedy word wrapping driven by answers to "does this line fit?".
pub struct WordWrap {
    rest: Vec<Vec<Vec<char>>>,
    words: Vec<Vec<char>>,
    current: Vec<char>,
    lines: Vec<Vec<char>>,
}

impl View for WordWrap {
    type V = WrapView;

    closed spec fn view(&self) -> WrapView {
        WrapView {
            rest: seqs2(self.rest@),
            words: seqs(self.words@),
            current: self.current@,
            lines: seqs(self.lines@),
        }
    }
}

impl WordWrap {
    /// A run is always settled between calls.
    pub open spec fn wf(&self) -> bool {
        is_settled(self@)
    }

    fn settle_exec(&mut self)
        ensures
            final(self)@ == settle(old(self)@),
    {
        let ghost target = settle(self@);
        loop
            invariant
                settle(self@) == target,
            ensures
                self@ == target,
            decreases self@.rest.len(), self@.current.len(),
        {
            if self.words.len() > 0 {
                break;
            }
            if self.current.len() > 0 {
                let ghost pre = self@;
                let mut finished: Vec<char> = Vec::new();
                core::mem::swap(&mut finished, &mut self.current);
                let ghost l = self.lines@;
                self.lines.push(finished);
                proof {
                    lemma_seqs_push(l, finished);
                    assert(self@.current =~= Seq::<char>::empty());
                }
                continue;
            }
            if self.rest.len() == 0 {
                break;
            }
            let ghost pre = self@;
            let seg = self.rest.remove(0);
            proof {
                assert(seqs2(self.rest@) =~= pre.rest.drop_first());
                assert(seqs(seg@) == pre.rest[0]);
            }
            if seg.len() == 0 {
                let ghost l = self.lines@;
                let empty: Vec<char> = Vec::new();
                let ghost e = empty;
                self.lines.push(empty);
                proof {
                    lemma_seqs_push(l, e);
                    assert(self@.lines =~= pre.lines.push(Seq::empty()));
                }
            } else {
                self.words = seg;
            }
        }
    }

    /// Starts wrapping `text`.
    pub fn new(text: &str) -> (r: Self)
        ensures
            r.wf(),
            r@ == wrap_start(text@),
    {
        let chars = chars_of(text);
        let rest = segment_words_exec(&chars);
        let mut w = WordWrap { rest, words: Vec::new(), current: Vec::new(), lines: Vec::new() };
        proof {
            assert(seqs(Seq::<Vec<char>>::empty()) =~= Seq::<Seq<char>>::empty());
            assert(w@ == WrapView {
                rest: segment_words(text@),
                words: Seq::empty(),
                current: Seq::empty(),
                lines: Seq::empty(),
            });
        }
        w.settle_exec();
        proof {
            lemma_start_outcome(text@, |s: Seq<char>| true);
        }
        w
    }

    /// The line to measure next, or `None` when the run is over.
    pub fn candidate(&self) -> (r: Option<String>)
        ensures
            r is None <==> self@.words.len() == 0,
            r matches Some(line) ==> line@ == wrap_candidate(self@),
    {
        if self.words.len() == 0 {
            None
        } else {
            let line = extend_line_exec(&self.current, &self.words[0]);
            Some(string_from_chars(&line))
        }
    }

    /// Places the next word, told whether the candidate line fits. Does nothing when the run
    /// is over.
    pub fn advance(&mut self, fits: bool)
        requires
            old(self).wf(),
        ensures
            final(self).wf(),
            old(self)@.words.len() > 0 ==> final(self)@ == wrap_step(old(self)@, fits),
            old(self)@.words.len() == 0 ==> final(self)@ == old(self)@,
    {
        if self.words.len() == 0 {
            return;
        }
        let ghost pre = self@;
        let w = self.words.remove(0);
        proof {
            assert(seqs(self.words@) =~= pre.words.drop_first());
            assert(w@ == pre.words[0]);
        }
        let ghost words = pre.words.drop_first();
        if fits {
            let t = extend_line_exec(&self.current, &w);
            self.current = t;
            assert(self@ == (WrapView {
                rest: pre.rest,
                words,
                current: extend_line(pre.current, pre.words[0]),
                lines: pre.lines,
            }));
        } else if self.current.len() > 0 {
            let mut cur = w;
            core::mem::swap(&mut cur, &mut self.current);
            let ghost l = self.lines@;
            self.lines.push(cur);
            proof {
                lemma_seqs_push(l, cur);
            }
            assert(self@ == (WrapView {
                rest: pre.rest,
                words,
                current: pre.words[0],
                lines: pre.lines.push(pre.current),
            }));
        } else {
            let ghost l = self.lines@;
            self.lines.push(w);
            proof {
                lemma_seqs_push(l, w);
                assert(self.current@ =~= Seq::<char>::empty());
            }
            assert(self@ == (WrapView {
                rest: pre.rest,
                words,
                current: Seq::empty(),
                lines: pre.lines.push(pre.words[0]),
            }));
        }
        self.settle_exec();
        proof {
            lemma_step_keeps_outcome(pre, |s: Seq<char>| fits);
        }
    }

    /// The finished lines joined by `'\n'`.
    pub fn finish(&self) -> (r: String)
        ensures
            r@ == join_lines(self@.lines),
    {
        join_lines_exec(&self.lines)
    }
}

} // verus!
