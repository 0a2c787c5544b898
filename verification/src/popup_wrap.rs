//! Wrapping of a popup's message into lines that fit the panel. Unlike plain word wrapping, a
//! word too long for a line is split: each piece is the longest prefix that fits (at least one
//! char). Whether a text fits is measured outside; the wrapper asks and decides.
use vstd::prelude::*;

use crate::pluto_objects::text2d::{chars_of, string_from_chars};
use crate::pluto_objects::wrap::{
    extend_line, extend_line_exec, join_lines, join_lines_exec, lemma_seqs_push, segment_words,
    segment_words_exec, seqs, seqs2,
};

verus! {

/// Length of the longest prefix of `word` that fits, when every prefix shorter than `k` chars
/// fits: prefixes are tried by increasing length until one does not fit.
pub open spec fn best_prefix(word: Seq<char>, fits: spec_fn(Seq<char>) -> bool, k: nat) -> nat
    decreases word.len() + 1 - k,
{
    if k == 0 || k > word.len() {
        word.len()
    } else if fits(word.take(k as int)) {
        best_prefix(word, fits, k + 1)
    } else {
        (k - 1) as nat
    }
}

/// Chars split off a word whose longest fitting prefix has `best` chars: that prefix, or one
/// char when none fits.
pub open spec fn chunk_len(word: Seq<char>, best: nat) -> nat {
    let b = if best > word.len() { word.len() } else { best };
    if b == 0 { 1 } else { b }
}

/// Lines finished and the new current line when placing the word remainder `rem` after the
/// current line `current`.
pub open spec fn place_word(rem: Seq<char>, current: Seq<char>, fits: spec_fn(Seq<char>) -> bool) -> (
    Seq<Seq<char>>,
    Seq<char>,
)
    decreases rem.len(), (if current.len() > 0 { 1int } else { 0int }),
{
    if rem.len() == 0 {
        (Seq::empty(), current)
    } else {
        let cand = extend_line(current, rem);
        if fits(cand) {
            (Seq::empty(), cand)
        } else if current.len() > 0 {
            let r = place_word(rem, Seq::empty(), fits);
            (seq![current] + r.0, r.1)
        } else {
            let cl = chunk_len(rem, best_prefix(rem, fits, 1));
            let rest = rem.skip(cl as int);
            if rest.len() == 0 {
                (seq![rem.take(cl as int)], Seq::empty())
            } else {
                let r = place_word(rest, Seq::empty(), fits);
                (seq![rem.take(cl as int)] + r.0, r.1)
            }
        }
    }
}

/// Like `place_word` once the current line is empty, `rem` did not fit, and a prefix search
/// stands at length `k`.
pub open spec fn place_after_probe(
    rem: Seq<char>,
    k: nat,
    fits: spec_fn(Seq<char>) -> bool,
) -> (Seq<Seq<char>>, Seq<char>) {
    let cl = chunk_len(rem, best_prefix(rem, fits, k));
    let rest = rem.skip(cl as int);
    if rest.len() == 0 {
        (seq![rem.take(cl as int)], Seq::empty())
    } else {
        let r = place_word(rest, Seq::empty(), fits);
        (seq![rem.take(cl as int)] + r.0, r.1)
    }
}

/// Lines from placing `words` after the current line `current`, the last line included.
pub open spec fn place_words(
    words: Seq<Seq<char>>,
    current: Seq<char>,
    fits: spec_fn(Seq<char>) -> bool,
) -> Seq<Seq<char>>
    decreases words.len(),
{
    if words.len() == 0 {
        if current.len() == 0 {
            Seq::empty()
        } else {
            seq![current]
        }
    } else {
        let r = place_word(words[0], current, fits);
        r.0 + place_words(words.drop_first(), r.1, fits)
    }
}

/// Lines of the manual lines `segments` (words of each): an empty line for one without words.
pub open spec fn message_segments_lines(
    segments: Seq<Seq<Seq<char>>>,
    fits: spec_fn(Seq<char>) -> bool,
) -> Seq<Seq<char>>
    decreases segments.len(),
{
    if segments.len() == 0 {
        Seq::empty()
    } else {
        let first = if segments[0].len() == 0 {
            seq![Seq::<char>::empty()]
        } else {
            place_words(segments[0], Seq::empty(), fits)
        };
        first + message_segments_lines(segments.drop_first(), fits)
    }
}

/// The wrapped lines of a popup message when `fits` tells which texts fit.
pub open spec fn spec_wrap_message(text: Seq<char>, fits: spec_fn(Seq<char>) -> bool) -> Seq<
    Seq<char>,
> {
    message_segments_lines(segment_words(text), fits)
}

/// State of a message-wrapping run.
pub struct MessageWrapView {
    /// Words of the manual lines not yet started.
    pub rest: Seq<Seq<Seq<char>>>,
    /// Words of the started manual line after the word in progress.
    pub words: Seq<Seq<char>>,
    /// What is left of the word in progress (empty when none is).
    pub rem: Seq<char>,
    /// The line being filled.
    pub current: Seq<char>,
    /// Finished lines.
    pub lines: Seq<Seq<char>>,
    /// 0 when the next question is whether `rem` fits on the current line; `k > 0` when it is
    /// whether the first `k` chars of `rem` fit on a line of their own.
    pub probe: nat,
}

/// Lines the run produces from state `v` when `fits` answers every question.
pub open spec fn message_outcome(v: MessageWrapView, fits: spec_fn(Seq<char>) -> bool) -> Seq<
    Seq<char>,
> {
    let r = if v.probe == 0 {
        place_word(v.rem, v.current, fits)
    } else {
        place_after_probe(v.rem, v.probe, fits)
    };
    v.lines + r.0 + place_words(v.words, r.1, fits) + message_segments_lines(v.rest, fits)
}

/// Moves on to the next word, finishing the line of an exhausted manual line and starting the
/// next manual line as needed.
pub open spec fn message_settle(v: MessageWrapView) -> MessageWrapView
    decreases v.rest.len(), v.words.len(), (if v.current.len() > 0 { 1int } else { 0int }),
{
    if v.rem.len() > 0 {
        v
    } else if v.words.len() > 0 {
        message_settle(
            MessageWrapView { rem: v.words[0], words: v.words.drop_first(), probe: 0, ..v },
        )
    } else if v.current.len() > 0 {
        message_settle(
            MessageWrapView { current: Seq::empty(), lines: v.lines.push(v.current), probe: 0, ..v },
        )
    } else if v.rest.len() == 0 {
        MessageWrapView { probe: 0, ..v }
    } else if v.rest[0].len() == 0 {
        message_settle(
            MessageWrapView {
                rest: v.rest.drop_first(),
                lines: v.lines.push(Seq::empty()),
                probe: 0,
                ..v
            },
        )
    } else {
        message_settle(
            MessageWrapView { rest: v.rest.drop_first(), words: v.rest[0], probe: 0, ..v },
        )
    }
}

/// A word waits for placement, or the run is over.
pub open spec fn message_settled(v: MessageWrapView) -> bool {
    ||| v.rem.len() > 0
    ||| (v.words.len() == 0 && v.current.len() == 0 && v.rest.len() == 0 && v.probe == 0)
}

/// Initial state of a run over the message `text`.
pub open spec fn message_start(text: Seq<char>) -> MessageWrapView {
    message_settle(
        MessageWrapView {
            rest: segment_words(text),
            words: Seq::empty(),
            rem: Seq::empty(),
            current: Seq::empty(),
            lines: Seq::empty(),
            probe: 0,
        },
    )
}

/// The text to measure next.
pub open spec fn message_question(v: MessageWrapView) -> Seq<char> {
    if v.probe == 0 {
        extend_line(v.current, v.rem)
    } else {
        v.rem.take(v.probe as int)
    }
}

/// The state after being told whether the text in question fits.
pub open spec fn message_step(v: MessageWrapView, fits: bool) -> MessageWrapView {
    if v.probe == 0 {
        if fits {
            message_settle(
                MessageWrapView { rem: Seq::empty(), current: extend_line(v.current, v.rem), ..v },
            )
        } else if v.current.len() > 0 {
            MessageWrapView { current: Seq::empty(), lines: v.lines.push(v.current), ..v }
        } else {
            MessageWrapView { probe: 1, ..v }
        }
    } else if fits && v.probe < v.rem.len() {
        MessageWrapView { probe: v.probe + 1, ..v }
    } else {
        let best: nat = if fits { v.probe } else { (v.probe - 1) as nat };
        let cl = chunk_len(v.rem, best);
        message_settle(
            MessageWrapView {
                rem: v.rem.skip(cl as int),
                lines: v.lines.push(v.rem.take(cl as int)),
                probe: 0,
                ..v
            },
        )
    }
}

/// A settled state with a word in progress asks about a nonempty text; the probe stays within
/// the word.
pub open spec fn message_wf(v: MessageWrapView) -> bool {
    &&& message_settled(v)
    &&& v.probe <= v.rem.len()
    &&& v.probe > 0 ==> v.current.len() == 0
}

/// Settling keeps the outcome of the run and yields a settled state.
pub proof fn lemma_message_settle(v: MessageWrapView, fits: spec_fn(Seq<char>) -> bool)
    requires
        v.probe == 0,
    ensures
        message_outcome(message_settle(v), fits) == message_outcome(v, fits),
        message_wf(message_settle(v)),
    decreases v.rest.len(), v.words.len(), (if v.current.len() > 0 { 1int } else { 0int }),
{
    if v.rem.len() > 0 {
    } else if v.words.len() > 0 {
        let v2 = MessageWrapView { rem: v.words[0], words: v.words.drop_first(), probe: 0, ..v };
        lemma_message_settle(v2, fits);
        assert(place_word(v.rem, v.current, fits) == (Seq::<Seq<char>>::empty(), v.current));
        assert(message_outcome(v2, fits) =~= message_outcome(v, fits));
    } else if v.current.len() > 0 {
        let v2 = MessageWrapView { current: Seq::empty(), lines: v.lines.push(v.current), probe: 0, ..v };
        lemma_message_settle(v2, fits);
        assert(message_outcome(v2, fits) =~= message_outcome(v, fits));
    } else if v.rest.len() == 0 {
        assert(message_outcome(MessageWrapView { probe: 0, ..v }, fits) =~= message_outcome(v, fits));
    } else if v.rest[0].len() == 0 {
        let v2 = MessageWrapView {
            rest: v.rest.drop_first(),
            lines: v.lines.push(Seq::empty()),
            probe: 0,
            ..v
        };
        lemma_message_settle(v2, fits);
        assert(message_outcome(v2, fits) =~= message_outcome(v, fits));
    } else {
        let v2 = MessageWrapView { rest: v.rest.drop_first(), words: v.rest[0], probe: 0, ..v };
        lemma_message_settle(v2, fits);
        assert(v.current =~= Seq::<char>::empty());
        assert(place_word(v.rem, v.current, fits) == (Seq::<Seq<char>>::empty(), v.current));
        assert(place_words(v.words, v.current, fits) =~= Seq::<Seq<char>>::empty());
        assert(message_segments_lines(v.rest, fits) == place_words(v.rest[0], Seq::empty(), fits)
            + message_segments_lines(v.rest.drop_first(), fits));
        assert(message_outcome(v2, fits) =~= message_outcome(v, fits));
    }
}

/// Answering the question truthfully keeps the outcome of the run: a whole run answered by
/// `fits` ends with the lines `spec_wrap_message(text, fits)`.
#[verifier::spinoff_prover]
pub proof fn lemma_message_step(v: MessageWrapView, fits: spec_fn(Seq<char>) -> bool)
    requires
        message_wf(v),
        v.rem.len() > 0,
    ensures
        message_outcome(message_step(v, fits(message_question(v))), fits) == message_outcome(
            v,
            fits,
        ),
        message_wf(message_step(v, fits(message_question(v)))),
{
    let q = message_question(v);
    let a = fits(q);
    if v.probe == 0 {
        let cand = extend_line(v.current, v.rem);
        if a {
            let pre = MessageWrapView { rem: Seq::empty(), current: cand, ..v };
            lemma_message_settle(pre, fits);
            assert(message_outcome(pre, fits) =~= message_outcome(v, fits));
        } else if v.current.len() > 0 {
            let st = MessageWrapView { current: Seq::empty(), lines: v.lines.push(v.current), ..v };
            assert(message_outcome(st, fits) =~= message_outcome(v, fits));
        } else {
            assert(v.current =~= Seq::<char>::empty());
            assert(cand == v.rem);
        }
    } else {
        assert(v.current =~= Seq::<char>::empty());
        let k = v.probe;
        if a && k < v.rem.len() {
            assert(best_prefix(v.rem, fits, k) == best_prefix(v.rem, fits, k + 1));
        } else {
            let best: nat = if a { k } else { (k - 1) as nat };
            assert(q == v.rem.take(k as int));
            if a {
                assert(k == v.rem.len());
                assert(best_prefix(v.rem, fits, (k + 1) as nat) == v.rem.len());
            }
            assert(best_prefix(v.rem, fits, k) == best);
            let cl = chunk_len(v.rem, best);
            let pre = MessageWrapView {
                rem: v.rem.skip(cl as int),
                lines: v.lines.push(v.rem.take(cl as int)),
                probe: 0,
                ..v
            };
            lemma_message_settle(pre, fits);
            assert(message_outcome(pre, fits) =~= message_outcome(v, fits));
        }
    }
}

/// The run over `text` starts settled, with the outcome `spec_wrap_message(text, fits)`.
pub proof fn lemma_message_start(text: Seq<char>, fits: spec_fn(Seq<char>) -> bool)
    ensures
        message_outcome(message_start(text), fits) == spec_wrap_message(text, fits),
        message_wf(message_start(text)),
{
    let v = MessageWrapView {
        rest: segment_words(text),
        words: Seq::empty(),
        rem: Seq::empty(),
        current: Seq::empty(),
        lines: Seq::empty(),
        probe: 0,
    };
    lemma_message_settle(v, fits);
    assert(message_outcome(v, fits) =~= spec_wrap_message(text, fits));
}

/// A settled run with no word in progress is over: its lines are the outcome.
pub proof fn lemma_message_done(v: MessageWrapView, fits: spec_fn(Seq<char>) -> bool)
    requires
        message_wf(v),
        v.rem.len() == 0,
    ensures
        message_outcome(v, fits) == v.lines,
{
    assert(message_outcome(v, fits) =~= v.lines);
}

/// The state after up to `n` questions of a run answered by `fits` (fewer when it ends).
pub open spec fn message_run(v: MessageWrapView, fits: spec_fn(Seq<char>) -> bool, n: nat) -> MessageWrapView
    decreases n,
{
    if n == 0 || v.rem.len() == 0 {
        v
    } else {
        message_run(message_step(v, fits(message_question(v))), fits, (n - 1) as nat)
    }
}

proof fn lemma_message_run_keeps_outcome(
    v: MessageWrapView,
    fits: spec_fn(Seq<char>) -> bool,
    n: nat,
)
    requires
        message_wf(v),
    ensures
        message_wf(message_run(v, fits, n)),
        message_outcome(message_run(v, fits, n), fits) == message_outcome(v, fits),
    decreases n,
{
    if n > 0 && v.rem.len() > 0 {
        lemma_message_step(v, fits);
        lemma_message_run_keeps_outcome(
            message_step(v, fits(message_question(v))),
            fits,
            (n - 1) as nat,
        );
    }
}

/// A run over the message `text` whose every question is answered by `fits` ends, once no
/// question is left, with exactly the lines `spec_wrap_message(text, fits)`.
pub proof fn lemma_message_run(text: Seq<char>, fits: spec_fn(Seq<char>) -> bool, n: nat)
    ensures
        message_run(message_start(text), fits, n).rem.len() == 0 ==> message_run(
            message_start(text),
            fits,
            n,
        ).lines == spec_wrap_message(text, fits),
{
    lemma_message_start(text, fits);
    lemma_message_run_keeps_outcome(message_start(text), fits, n);
    let w = message_run(message_start(text), fits, n);
    if w.rem.len() == 0 {
        lemma_message_done(w, fits);
    }
}

fn take_chars(v: &Vec<char>, k: usize) -> (r: Vec<char>)
    requires
        k <= v@.len(),
    ensures
        r@ == v@.take(k as int),
{
    let mut out: Vec<char> = Vec::new();
    let mut i: usize = 0;
    while i < k
        invariant
            k <= v@.len(),
            i <= k,
            out@ == v@.take(i as int),
        decreases k - i,
    {
        out.push(v[i]);
        assert(out@ =~= v@.take(i + 1));
        i = i + 1;
    }
    out
}

fn skip_chars(v: &Vec<char>, k: usize) -> (r: Vec<char>)
    requires
        k <= v@.len(),
    ensures
        r@ == v@.skip(k as int),
{
    let mut out: Vec<char> = Vec::new();
    let mut i: usize = k;
    while i < v.len()
        invariant
            k <= i <= v@.len(),
            out@ == v@.subrange(k as int, i as int),
        decreases v@.len() - i,
    {
        out.push(v[i]);
        assert(out@ =~= v@.subrange(k as int, i + 1));
        i = i + 1;
    }
    assert(v@.subrange(k as int, v@.len() as int) =~= v@.skip(k as int));
    out
}

/// Wrapping of a popup message driven by answers to "does this text fit?".
pub struct MessageWrap {
    rest: Vec<Vec<Vec<char>>>,
    words: Vec<Vec<char>>,
    rem: Vec<char>,
    current: Vec<char>,
    lines: Vec<Vec<char>>,
    probe: usize,
}

impl View for MessageWrap {
    type V = MessageWrapView;

    closed spec fn view(&self) -> MessageWrapView {
        MessageWrapView {
            rest: seqs2(self.rest@),
            words: seqs(self.words@),
            rem: self.rem@,
            current: self.current@,
            lines: seqs(self.lines@),
            probe: self.probe as nat,
        }
    }
}

impl MessageWrap {
    /// Between calls the run is settled and its probe stays within the word in progress.
    pub open spec fn wf(&self) -> bool {
        message_wf(self@)
    }

    fn settle_exec(&mut self)
        requires
            old(self)@.probe == 0,
        ensures
            final(self)@ == message_settle(old(self)@),
    {
        let ghost target = message_settle(self@);
        loop
            invariant
                self@.probe == 0,
                message_settle(self@) == target,
            ensures
                self@ == target,
            decreases self@.rest.len(), self@.words.len(), (if self@.current.len() > 0 {
                1int
            } else {
                0int
            }),
        {
            if self.rem.len() > 0 {
                break;
            }
            if self.words.len() > 0 {
                let ghost pre = self@;
                let w = self.words.remove(0);
                self.rem = w;
                proof {
                    assert(seqs(self.words@) =~= pre.words.drop_first());
                    assert(self@ == (MessageWrapView {
                        rem: pre.words[0],
                        words: pre.words.drop_first(),
                        probe: 0,
                        ..pre
                    }));
                }
                continue;
            }
            if self.current.len() > 0 {
                let ghost pre = self@;
                let mut finished: Vec<char> = Vec::new();
                core::mem::swap(&mut finished, &mut self.current);
                let ghost l = self.lines@;
                self.lines.push(finished);
                proof {
                    lemma_seqs_push(l, finished);
                    assert(self@.current =~= Seq::<char>::empty());
                    assert(self@ == (MessageWrapView {
                        current: Seq::empty(),
                        lines: pre.lines.push(pre.current),
                        probe: 0,
                        ..pre
                    }));
                }
                continue;
            }
            if self.rest.len() == 0 {
                break;
            }
            let ghost pre = self@;
            let seg = self.rest.remove(0);
            proof {
                assert(seqs2(self.rest@) =~= pre.rest.drop_first());
                assert(seqs(seg@) == pre.rest[0]);
            }
            if seg.len() == 0 {
                let ghost l = self.lines@;
                let empty: Vec<char> = Vec::new();
                let ghost e = empty;
                self.lines.push(empty);
                proof {
                    lemma_seqs_push(l, e);
                    assert(self@.lines =~= pre.lines.push(Seq::empty()));
                    assert(self@ == (MessageWrapView {
                        rest: pre.rest.drop_first(),
                        lines: pre.lines.push(Seq::empty()),
                        probe: 0,
                        ..pre
                    }));
                }
            } else {
                self.words = seg;
                assert(self@ == (MessageWrapView {
                    rest: pre.rest.drop_first(),
                    words: pre.rest[0],
                    probe: 0,
                    ..pre
                }));
            }
        }
    }

    /// Starts wrapping the message `text`.
    pub fn new(text: &str) -> (r: Self)
        ensures
            r.wf(),
            r@ == message_start(text@),
    {
        let chars = chars_of(text);
        let rest = segment_words_exec(&chars);
        let mut w = MessageWrap {
            rest,
            words: Vec::new(),
            rem: Vec::new(),
            current: Vec::new(),
            lines: Vec::new(),
            probe: 0,
        };
        proof {
            assert(seqs(Seq::<Vec<char>>::empty()) =~= Seq::<Seq<char>>::empty());
            assert(w@ == MessageWrapView {
                rest: segment_words(text@),
                words: Seq::empty(),
                rem: Seq::empty(),
                current: Seq::empty(),
                lines: Seq::empty(),
                probe: 0,
            });
        }
        w.settle_exec();
        proof {
            lemma_message_start(text@, |s: Seq<char>| true);
        }
        w
    }

    /// The text to measure next, or `None` when the run is over.
    pub fn question(&self) -> (r: Option<String>)
        requires
            self.wf(),
        ensures
            r is None <==> self@.rem.len() == 0,
            r matches Some(q) ==> q@ == message_question(self@),
    {
        if self.rem.len() == 0 {
            None
        } else if self.probe == 0 {
            let q = extend_line_exec(&self.current, &self.rem);
            Some(string_from_chars(&q))
        } else {
            let q = take_chars(&self.rem, self.probe);
            Some(string_from_chars(&q))
        }
    }

    /// Acts on whether the text in question fits. Does nothing when the run is over.
    pub fn answer(&mut self, fits: bool)
        requires
            old(self).wf(),
        ensures
            final(self).wf(),
            old(self)@.rem.len() > 0 ==> final(self)@ == message_step(old(self)@, fits),
            old(self)@.rem.len() == 0 ==> final(self)@ == old(self)@,
    {
        if self.rem.len() == 0 {
            return;
        }
        let ghost pre = self@;
        proof {
            lemma_message_step(pre, |s: Seq<char>| fits);
        }
        if self.probe == 0 {
            if fits {
                let c = extend_line_exec(&self.current, &self.rem);
                self.current = c;
                self.rem = Vec::new();
                assert(self@ == (MessageWrapView {
                    rem: Seq::empty(),
                    current: extend_line(pre.current, pre.rem),
                    ..pre
                }));
                self.settle_exec();
            } else if self.current.len() > 0 {
                let mut finished: Vec<char> = Vec::new();
                core::mem::swap(&mut finished, &mut self.current);
                let ghost l = self.lines@;
                self.lines.push(finished);
                proof {
                    lemma_seqs_push(l, finished);
                    assert(self@.current =~= Seq::<char>::empty());
                }
                assert(self@ == (MessageWrapView {
                    current: Seq::empty(),
                    lines: pre.lines.push(pre.current),
                    ..pre
                }));
            } else {
                self.probe = 1;
                assert(self@ == (MessageWrapView { probe: 1, ..pre }));
            }
        } else if fits && self.probe < self.rem.len() {
            self.probe = self.probe + 1;
            assert(self@ == (MessageWrapView { probe: pre.probe + 1, ..pre }));
        } else {
            let best: usize = if fits { self.probe } else { self.probe - 1 };
            let cl: usize = if best == 0 { 1 } else { best };
            assert(cl == chunk_len(pre.rem, best as nat));
            let chunk = take_chars(&self.rem, cl);
            let rest = skip_chars(&self.rem, cl);
            let ghost l = self.lines@;
            let ghost ch = chunk;
            self.lines.push(chunk);
            self.rem = rest;
            self.probe = 0;
            proof {
                lemma_seqs_push(l, ch);
            }
            assert(self@ == (MessageWrapView {
                rem: pre.rem.skip(cl as int),
                lines: pre.lines.push(pre.rem.take(cl as int)),
                probe: 0,
                ..pre
            }));
            self.settle_exec();
        }
    }

    /// The finished lines joined by `'\n'`.
    pub fn finish(&self) -> (r: String)
        ensures
            r@ == join_lines(self@.lines),
    {
        join_lines_exec(&self.lines)
    }
}

} // verus!
