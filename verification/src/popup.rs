//! Modal popup runtime: which popup is open, the events it produces and the objects
//! that must be cleaned up when it closes.
use vstd::prelude::*;

use crate::app::{Key, NamedKey};
use uuid::Uuid;

verus! {

broadcast use vstd::string::group_string_axioms;

/// Declares `uuid::Uuid` so that object ids can be carried through the popup state.
#[verifier::external_type_specification]
#[verifier::external_body]
pub struct ExUuid(Uuid);

/// Most actions a popup shows.
pub const MAX_POPUP_ACTIONS: usize = 2;

/// Most estimated message lines a popup reserves room for.
pub const MAX_ESTIMATED_MESSAGE_LINES: usize = 12;

/// Fewest chars per message line used by the estimate.
pub const MIN_CHARS_PER_LINE: usize = 16;

#[derive(Debug, Clone, Copy, PartialEq, Eq)]
pub enum PopupActionStyle {
    Primary,
    Secondary,
    Danger,
}

#[derive(Debug, Clone, PartialEq, Eq)]
pub struct PopupAction {
    pub id: String,
    pub label: String,
    pub style: PopupActionStyle,
}

#[derive(Debug, Clone, Copy, PartialEq, Eq)]
pub enum PopupSize {
    Small,
    Medium,
    Large,
}

#[derive(Debug, Clone, PartialEq, Eq)]
pub struct PopupConfig {
    pub id: String,
    pub title: String,
    pub message: String,
    pub actions: Vec<PopupAction>,
    pub size: PopupSize,
    pub dismiss_on_escape: bool,
    pub dismiss_on_backdrop_click: bool,
    pub auto_dismiss_ms: Option<u64>,
    pub consume_opening_click: bool,
    pub click_anywhere_action_id: Option<String>,
    pub block_input_behind_popup: bool,
}

#[derive(Debug, Clone, Copy, PartialEq, Eq)]
pub enum PopupDismissReason {
    Escape,
    BackdropClick,
    Replaced,
    Programmatic,
}

#[derive(Debug, Clone, PartialEq, Eq)]
pub enum PopupEvent {
    Opened { popup_id: String },
    ActionSelected { popup_id: String, action_id: String },
    Dismissed { popup_id: String, reason: PopupDismissReason },
    AutoDismissed { popup_id: String },
}

/// What the pointer does this frame, relative to the open popup's layout.
#[derive(Debug, Clone, Copy)]
pub struct PopupPointer {
    /// The left mouse button is held.
    pub lmb_down: bool,
    /// Index of the action button under the pointer, if any.
    pub hovered_action: Option<usize>,
    /// The pointer is inside the viewport.
    pub in_viewport: bool,
    /// The pointer is inside the popup panel.
    pub in_panel: bool,
}

/// The popup currently shown.
#[derive(Debug, Clone)]
pub struct ActivePopup {
    pub config: PopupConfig,
    pub elapsed_ms: u64,
    pub opened_frame: u64,
    pub awaiting_opening_release: bool,
    /// The popup was opened with a caller-drawn panel and its own objects.
    pub has_custom_panel: bool,
    pub custom_object_ids: Vec<Uuid>,
    pub hovered_action: Option<usize>,
    pub pressed_action: Option<usize>,
}

/// Abstract state of the popup runtime.
pub struct PopupRuntimeView {
    pub active: Option<ActivePopup>,
    pub events: Seq<PopupEvent>,
    pub pending_object_cleanup: Seq<Uuid>,
    pub frame_counter: u64,
    pub prev_lmb_down: bool,
}

pub struct PopupRuntimeState {
    active: Option<ActivePopup>,
    events: Vec<PopupEvent>,
    pending_object_cleanup: Vec<Uuid>,
    frame_counter: u64,
    prev_lmb_down: bool,
}

impl View for PopupRuntimeState {
    type V = PopupRuntimeView;

    closed spec fn view(&self) -> PopupRuntimeView {
        PopupRuntimeView {
            active: self.active,
            events: self.events@,
            pending_object_cleanup: self.pending_object_cleanup@,
            frame_counter: self.frame_counter,
            prev_lmb_down: self.prev_lmb_down,
        }
    }
}

/// `post` is `pre` with its action list brought to between one and two actions:
/// extra actions are dropped, and an empty list gets a primary "OK" action with id "ok".
pub open spec fn is_sanitized(pre: PopupConfig, post: PopupConfig) -> bool {
    &&& post.id == pre.id
    &&& post.title == pre.title
    &&& post.message == pre.message
    &&& post.size == pre.size
    &&& post.dismiss_on_escape == pre.dismiss_on_escape
    &&& post.dismiss_on_backdrop_click == pre.dismiss_on_backdrop_click
    &&& post.auto_dismiss_ms == pre.auto_dismiss_ms
    &&& post.consume_opening_click == pre.consume_opening_click
    &&& post.click_anywhere_action_id == pre.click_anywhere_action_id
    &&& post.block_input_behind_popup == pre.block_input_behind_popup
    &&& if pre.actions@.len() == 0 {
        &&& post.actions@.len() == 1
        &&& post.actions@[0].id@ == "ok"@
        &&& post.actions@[0].label@ == "OK"@
        &&& post.actions@[0].style == PopupActionStyle::Primary
    } else if pre.actions@.len() > MAX_POPUP_ACTIONS {
        post.actions@ == pre.actions@.take(MAX_POPUP_ACTIONS as int)
    } else {
        post.actions@ == pre.actions@
    }
}

/// `a` is the popup just opened from `config` (before sanitizing) in frame `frame`.
pub open spec fn is_opened_popup(
    a: ActivePopup,
    config: PopupConfig,
    frame: u64,
    has_custom_panel: bool,
    object_ids: Seq<Uuid>,
) -> bool {
    &&& is_sanitized(config, a.config)
    &&& a.elapsed_ms == 0
    &&& a.opened_frame == frame
    &&& a.awaiting_opening_release == config.consume_opening_click
    &&& a.has_custom_panel == has_custom_panel
    &&& a.custom_object_ids@ == object_ids
    &&& a.hovered_action is None
    &&& a.pressed_action is None
}

/// Events after replacing whatever popup is open: a `Replaced` dismissal of the old one, if any.
pub open spec fn replaced_events(pre: PopupRuntimeView) -> Seq<PopupEvent> {
    match pre.active {
        Some(e) => pre.events.push(
            PopupEvent::Dismissed { popup_id: e.config.id, reason: PopupDismissReason::Replaced },
        ),
        None => pre.events,
    }
}

/// Cleanup queue after replacing whatever popup is open: the old popup's objects are queued.
pub open spec fn replaced_cleanup(pre: PopupRuntimeView) -> Seq<Uuid> {
    match pre.active {
        Some(e) => pre.pending_object_cleanup + e.custom_object_ids@,
        None => pre.pending_object_cleanup,
    }
}

/// How an update closes the popup.
pub enum CloseKind {
    Dismissed(PopupDismissReason),
    ActionSelected(String),
    AutoDismissed,
}

/// The event reported when popup `popup_id` closes in the given way.
pub open spec fn close_event(popup_id: String, kind: CloseKind) -> PopupEvent {
    match kind {
        CloseKind::Dismissed(reason) => PopupEvent::Dismissed { popup_id, reason },
        CloseKind::ActionSelected(action_id) => PopupEvent::ActionSelected { popup_id, action_id },
        CloseKind::AutoDismissed => PopupEvent::AutoDismissed { popup_id },
    }
}

/// State after closing popup `a` in the given way: no popup is open, one event is appended and
/// the popup's objects are queued for cleanup.
pub open spec fn closed_view(pre: PopupRuntimeView, a: ActivePopup, kind: CloseKind) -> PopupRuntimeView {
    PopupRuntimeView {
        active: None,
        events: pre.events.push(close_event(a.config.id, kind)),
        pending_object_cleanup: pre.pending_object_cleanup + a.custom_object_ids@,
        ..pre
    }
}

/// Id of the action at `hovered`, if it names one of the popup's actions.
pub open spec fn hovered_action_id(config: PopupConfig, hovered: Option<usize>) -> Option<String> {
    match hovered {
        Some(i) => if i < config.actions@.len() {
            Some(config.actions@[i as int].id)
        } else {
            None
        },
        None => None,
    }
}

/// The key is the Escape key.
pub open spec fn spec_is_escape(key: Option<Key>) -> bool {
    key == Some(Key::Named(NamedKey::Escape))
}

/// One frame of the popup runtime: the pointer state, whether Escape was pressed and
/// the milliseconds elapsed since the previous frame.
pub open spec fn spec_update(
    pre: PopupRuntimeView,
    pointer: PopupPointer,
    escape: bool,
    elapsed_ms: u64,
) -> PopupRuntimeView {
    let frame = pre.frame_counter;
    let base = PopupRuntimeView {
        frame_counter: vstd::wrapping::u64_specs::wrapping_add(frame, 1),
        prev_lmb_down: pointer.lmb_down,
        ..pre
    };
    let lmb_pressed = pointer.lmb_down && !pre.prev_lmb_down;
    let lmb_released = !pointer.lmb_down && pre.prev_lmb_down;
    match pre.active {
        None => base,
        Some(a) => {
            let a1 = ActivePopup {
                hovered_action: pointer.hovered_action,
                pressed_action: if pointer.lmb_down {
                    pointer.hovered_action
                } else {
                    None
                },
                awaiting_opening_release: a.awaiting_opening_release && !lmb_released,
                ..a
            };
            let click = frame != a.opened_frame && !a1.awaiting_opening_release && lmb_pressed;
            let clicked = hovered_action_id(a.config, pointer.hovered_action);
            if a.config.dismiss_on_escape && escape {
                closed_view(base, a1, CloseKind::Dismissed(PopupDismissReason::Escape))
            } else if click && clicked is Some {
                closed_view(base, a1, CloseKind::ActionSelected(clicked->0))
            } else if click && a.config.click_anywhere_action_id is Some && pointer.in_viewport {
                closed_view(
                    base,
                    a1,
                    CloseKind::ActionSelected(a.config.click_anywhere_action_id->0),
                )
            } else if click && a.config.dismiss_on_backdrop_click && !pointer.in_panel {
                closed_view(base, a1, CloseKind::Dismissed(PopupDismissReason::BackdropClick))
            } else {
                match a.config.auto_dismiss_ms {
                    None => PopupRuntimeView { active: Some(a1), ..base },
                    Some(timeout) => if timeout == 0 {
                        closed_view(base, a1, CloseKind::AutoDismissed)
                    } else {
                        let a2 = ActivePopup {
                            elapsed_ms: if a1.elapsed_ms + elapsed_ms > u64::MAX {
                                u64::MAX
                            } else {
                                (a1.elapsed_ms + elapsed_ms) as u64
                            },
                            ..a1
                        };
                        if a2.elapsed_ms >= timeout {
                            closed_view(base, a2, CloseKind::AutoDismissed)
                        } else {
                            PopupRuntimeView { active: Some(a2), ..base }
                        }
                    },
                }
            }
        },
    }
}

/// Clones a string.
fn clone_string(s: &String) -> (r: String)
    ensures
        r == s,
{
    s.clone()
}

fn default_ok_action() -> (r: PopupAction)
    ensures
        r.id@ == "ok"@,
        r.label@ == "OK"@,
        r.style == PopupActionStyle::Primary,
{
    PopupAction {
        id: "ok".to_string(),
        label: "OK".to_string(),
        style: PopupActionStyle::Primary,
    }
}

/// Brings the action list to between one and two actions.
pub fn sanitize_config(config: PopupConfig) -> (r: PopupConfig)
    ensures
        is_sanitized(config, r),
        1 <= r.actions@.len() <= MAX_POPUP_ACTIONS,
{
    let mut config = config;
    let ghost pre = config;
    if config.actions.len() > MAX_POPUP_ACTIONS {
        config.actions.truncate(MAX_POPUP_ACTIONS);
    }
    if config.actions.len() == 0 {
        config.actions.push(default_ok_action());
    }
    config
}

/// The key is the Escape key.
pub fn is_escape_pressed(key: &Option<Key>) -> (r: bool)
    ensures
        r == spec_is_escape(*key),
{
    match key {
        Some(Key::Named(NamedKey::Escape)) => true,
        _ => false,
    }
}

/// Cost in estimated rows of a message line with `len` chars and `per_line` chars per row.
pub open spec fn line_rows(len: nat, per_line: nat) -> nat {
    let rows = if len % per_line == 0 { len / per_line } else { len / per_line + 1 };
    if rows < 1 { 1 } else { rows }
}

/// Total estimated rows of the lines of `rest`, where `cur` is the part of the current line
/// already read. Lines end at `'\n'`; a `'\r'` right before the `'\n'` is not part of the line,
/// and a final line without a terminating `'\n'` counts only when it is nonempty.
pub open spec fn message_rows(rest: Seq<char>, cur: Seq<char>, per_line: nat) -> nat
    decreases rest.len(),
{
    if rest.len() == 0 {
        if cur.len() == 0 {
            0
        } else {
            line_rows(cur.len(), per_line)
        }
    } else if rest[0] == '\n' {
        let line_len = if cur.len() > 0 && cur.last() == '\r' {
            (cur.len() - 1) as nat
        } else {
            cur.len()
        };
        line_rows(line_len, per_line) + message_rows(rest.drop_first(), Seq::empty(), per_line)
    } else {
        message_rows(rest.drop_first(), cur.push(rest[0]), per_line)
    }
}

/// Estimated number of message lines: rows of every line of `message` at
/// `max(chars_per_line, 16)` chars per row, clamped to between 1 and 12.
pub open spec fn spec_estimated_message_line_count(message: Seq<char>, chars_per_line: nat) -> nat {
    let per_line = if chars_per_line < MIN_CHARS_PER_LINE { MIN_CHARS_PER_LINE as nat } else { chars_per_line };
    let total = message_rows(message, Seq::empty(), per_line);
    if total < 1 {
        1
    } else if total > MAX_ESTIMATED_MESSAGE_LINES {
        MAX_ESTIMATED_MESSAGE_LINES as nat
    } else {
        total
    }
}

/// Number of `'\n'` chars in `s`.
pub open spec fn newline_count(s: Seq<char>) -> nat
    decreases s.len(),
{
    if s.len() == 0 {
        0
    } else {
        (if s[0] == '\n' { 1nat } else { 0nat }) + newline_count(s.drop_first())
    }
}

/// Number of lines of a message: one per `'\n'`, and one more for a nonempty last line.
pub open spec fn message_line_total(m: Seq<char>) -> nat {
    newline_count(m) + if m.len() > 0 && m.last() != '\n' { 1nat } else { 0nat }
}

/// The chars of `m` from `i` to `j` hold no `'\n'`.
pub open spec fn no_newline_between(m: Seq<char>, i: int, j: int) -> bool {
    forall|t: int| i <= t < j ==> m[t] != '\n'
}

/// No line of `m` (run of chars without `'\n'`) is longer than `w` chars.
pub open spec fn lines_fit(m: Seq<char>, w: nat) -> bool {
    forall|i: int, j: int|
        0 <= i <= j <= m.len() && #[trigger] no_newline_between(m, i, j) ==> j - i <= w
}

proof fn lemma_line_rows_at_least_one(len: nat, per_line: nat)
    requires
        per_line > 0,
    ensures
        line_rows(len, per_line) >= 1,
        len <= per_line ==> line_rows(len, per_line) == 1,
{
    if len <= per_line {
        if len == per_line {
            assert(len % per_line == 0 && len / per_line == 1) by (nonlinear_arith)
                requires
                    len == per_line,
                    per_line > 0,
            ;
        } else {
            assert(len / per_line == 0 && len % per_line == len) by (nonlinear_arith)
                requires
                    len < per_line,
            ;
        }
    }
}

proof fn lemma_message_rows_lines(rest: Seq<char>, cur: Seq<char>, w: nat)
    requires
        w > 0,
        forall|t: int| 0 <= t < cur.len() ==> cur[t] != '\n',
    ensures
        message_rows(rest, cur, w) >= newline_count(rest) + (if (rest.len() > 0 && rest.last()
            != '\n') || (rest.len() == 0 && cur.len() > 0) { 1nat } else { 0nat }),
        lines_fit(cur + rest, w) ==> message_rows(rest, cur, w) == newline_count(rest) + (if (
        rest.len() > 0 && rest.last() != '\n') || (rest.len() == 0 && cur.len() > 0) {
            1nat
        } else {
            0nat
        }),
    decreases rest.len(),
{
    let x = cur + rest;
    if rest.len() == 0 {
        lemma_line_rows_at_least_one(cur.len(), w);
        if lines_fit(x, w) && cur.len() > 0 {
            assert(x =~= cur);
            assert(no_newline_between(x, 0, cur.len() as int));
        }
    } else if rest[0] == '\n' {
        let r2 = rest.drop_first();
        let line_len = if cur.len() > 0 && cur.last() == '\r' {
            (cur.len() - 1) as nat
        } else {
            cur.len()
        };
        lemma_line_rows_at_least_one(line_len, w);
        lemma_message_rows_lines(r2, Seq::empty(), w);
        assert(Seq::<char>::empty() + r2 =~= r2);
        if r2.len() > 0 {
            assert(r2.last() == rest.last());
        }
        if lines_fit(x, w) {
            assert forall|t: int| 0 <= t < cur.len() implies x[t] != '\n' by {
                assert(x[t] == cur[t]);
            }
            assert(no_newline_between(x, 0, cur.len() as int));
            assert(cur.len() <= w);
            let off = cur.len() + 1;
            assert forall|i: int, j: int|
                0 <= i <= j <= r2.len() && #[trigger] no_newline_between(r2, i, j) implies j - i
                <= w by {
                assert forall|t: int| i + off <= t < j + off implies x[t] != '\n' by {
                    assert(x[t] == r2[t - off]);
                }
                assert(no_newline_between(x, i + off, j + off));
            }
        }
    } else {
        let r2 = rest.drop_first();
        let c2 = cur.push(rest[0]);
        lemma_message_rows_lines(r2, c2, w);
        assert(c2 + r2 =~= x);
        if r2.len() > 0 {
            assert(r2.last() == rest.last());
        }
    }
}

/// Every line of a message takes at least one estimated row, blank lines included: the
/// estimate is at least the number of lines (up to the cap of 12), and exactly that when no
/// line is longer than a row. It is always between 1 and 12.
pub proof fn lemma_estimate_counts_every_line(message: Seq<char>, chars_per_line: nat)
    ensures
        ({
            let est = spec_estimated_message_line_count(message, chars_per_line);
            let n = message_line_total(message);
            let w = if chars_per_line < 16 { 16 } else { chars_per_line };
            &&& 1 <= est <= 12
            &&& est >= (if n < 12 { n } else { 12 })
            &&& lines_fit(message, w) ==> est == (if n < 1 { 1 } else if n > 12 { 12 } else { n })
        }),
{
    let w: nat = if chars_per_line < 16 { 16 } else { chars_per_line };
    lemma_message_rows_lines(message, Seq::empty(), w);
    assert(Seq::<char>::empty() + message =~= message);
}

proof fn lemma_single_line_rows(rest: Seq<char>, cur: Seq<char>, w: nat)
    requires
        w > 0,
        forall|t: int| 0 <= t < rest.len() ==> rest[t] != '\n',
    ensures
        message_rows(rest, cur, w) == if cur.len() + rest.len() == 0 {
            0
        } else {
            line_rows(cur.len() + rest.len(), w)
        },
    decreases rest.len(),
{
    if rest.len() > 0 {
        lemma_single_line_rows(rest.drop_first(), cur.push(rest[0]), w);
    }
}

/// A message of one line of `len > 0` chars takes as many rows as it needs at `w` chars per
/// row (at least 16), rounding up: `rows * w >= len > (rows - 1) * w`, unless the cap of 12
/// rows is reached.
pub proof fn lemma_estimate_rounds_long_line_up(message: Seq<char>, chars_per_line: nat)
    requires
        message.len() > 0,
        forall|t: int| 0 <= t < message.len() ==> message[t] != '\n',
    ensures
        ({
            let est = spec_estimated_message_line_count(message, chars_per_line);
            let w = if chars_per_line < 16 { 16 } else { chars_per_line };
            let len = message.len();
            &&& est < 12 ==> est * w >= len && (est - 1) * w < len
            &&& est == 12 ==> 11 * w < len
        }),
{
    let w: nat = if chars_per_line < 16 { 16 } else { chars_per_line };
    let len = message.len();
    lemma_single_line_rows(message, Seq::empty(), w);
    let q = len / w;
    let r = len % w;
    assert(len == q * w + r && 0 <= r < w) by (nonlinear_arith)
        requires
            w > 0,
            q == len / w,
            r == len % w,
    ;
    let rows = line_rows(len, w);
    if r == 0 {
        assert(q >= 1) by (nonlinear_arith)
            requires
                len == q * w,
                len > 0,
                w > 0,
        ;
        assert(rows == q);
        assert(rows * w >= len && (rows - 1) * w < len) by (nonlinear_arith)
            requires
                rows == q,
                len == q * w,
                w > 0,
        ;
        if rows >= 12 {
            assert(11 * w < len) by (nonlinear_arith)
                requires
                    rows == q,
                    len == q * w,
                    q >= 12,
                    w > 0,
            ;
        }
    } else {
        assert(rows == q + 1);
        assert(rows * w >= len && (rows - 1) * w < len) by (nonlinear_arith)
            requires
                rows == q + 1,
                len == q * w + r,
                0 < r < w,
        ;
        if rows >= 12 {
            assert(11 * w < len) by (nonlinear_arith)
                requires
                    rows == q + 1,
                    len == q * w + r,
                    rows >= 12,
                    0 < r < w,
            ;
        }
    }
}

fn line_rows_exec(len: usize, per_line: usize) -> (r: usize)
    requires
        per_line >= MIN_CHARS_PER_LINE,
    ensures
        r == line_rows(len as nat, per_line as nat),
{
    assert(len / per_line <= len / 2) by (nonlinear_arith)
        requires
            per_line >= 2,
    ;
    let rows = if len % per_line == 0 { len / per_line } else { len / per_line + 1 };
    if rows < 1 { 1 } else { rows }
}

/// Estimated number of text rows that `message` takes, `chars_per_line` being the number of
/// chars that fit on a row.
pub fn estimated_message_line_count(message: &str, chars_per_line: usize) -> (r: usize)
    ensures
        r == spec_estimated_message_line_count(message@, chars_per_line as nat),
{
    let per_line = if chars_per_line < MIN_CHARS_PER_LINE { MIN_CHARS_PER_LINE } else { chars_per_line };
    let chars = crate::pluto_objects::text2d::chars_of(message);
    let ghost s = chars@;
    let mut total: usize = 0;
    let mut start: usize = 0;
    let mut i: usize = 0;
    assert(s.skip(0) =~= s);
    assert(s.subrange(0, 0) =~= Seq::<char>::empty());
    while i < chars.len()
        invariant
            s == chars@,
            start <= i <= s.len(),
            per_line >= MIN_CHARS_PER_LINE,
            total <= usize::MAX,
            ({
                let want = message_rows(s, Seq::empty(), per_line as nat);
                let rest = message_rows(s.skip(i as int), s.subrange(start as int, i as int), per_line as nat);
                if total < usize::MAX { want == total + rest } else { want >= total }
            }),
        decreases s.len() - i,
    {
        assert(s.skip(i as int).drop_first() =~= s.skip(i + 1));
        assert(s.skip(i as int)[0] == s[i as int]);
        if chars[i] == '\n' {
            let cur_len = i - start;
            let line_len = if cur_len > 0 && chars[i - 1] == '\r' { cur_len - 1 } else { cur_len };
            proof {
                let cur = s.subrange(start as int, i as int);
                if cur.len() > 0 {
                    assert(cur.last() == s[i - 1]);
                }
                assert(s.subrange(i + 1, i + 1) =~= Seq::<char>::empty());
            }
            total = total.saturating_add(line_rows_exec(line_len, per_line));
            start = i + 1;
        } else {
            assert(s.subrange(start as int, i + 1) =~= s.subrange(start as int, i as int).push(
                s[i as int],
            ));
        }
        i = i + 1;
    }
    if start < i {
        total = total.saturating_add(line_rows_exec(i - start, per_line));
    }
    proof {
        assert(s.skip(s.len() as int) =~= Seq::<char>::empty());
    }
    let total = if total < 1 { 1 } else { total };
    if total > MAX_ESTIMATED_MESSAGE_LINES {
        MAX_ESTIMATED_MESSAGE_LINES
    } else {
        total
    }
}

impl PopupRuntimeState {
    /// Every open popup has between one and two actions.
    pub open spec fn wf(&self) -> bool {
        self@.active matches Some(a) ==> 1 <= a.config.actions@.len() <= MAX_POPUP_ACTIONS
    }

    pub fn new() -> (r: Self)
        ensures
            r.wf(),
            r@.active is None,
            r@.events == Seq::<PopupEvent>::empty(),
            r@.pending_object_cleanup == Seq::<Uuid>::empty(),
            r@.frame_counter == 0,
            !r@.prev_lmb_down,
    {
        Self {
            active: None,
            events: Vec::new(),
            pending_object_cleanup: Vec::new(),
            frame_counter: 0,
            prev_lmb_down: false,
        }
    }

    /// Closes `closed` in the given way: reports the event and queues its objects for cleanup.
    fn finish(&mut self, closed: ActivePopup, kind: CloseKind)
        requires
            old(self)@.active is None,
        ensures
            final(self)@ == closed_view(old(self)@, closed, kind),
    {
        let mut closed = closed;
        let event = match kind {
            CloseKind::Dismissed(reason) => PopupEvent::Dismissed {
                popup_id: closed.config.id,
                reason,
            },
            CloseKind::ActionSelected(action_id) => PopupEvent::ActionSelected {
                popup_id: closed.config.id,
                action_id,
            },
            CloseKind::AutoDismissed => PopupEvent::AutoDismissed { popup_id: closed.config.id },
        };
        self.pending_object_cleanup.append(&mut closed.custom_object_ids);
        self.events.push(event);
    }

    /// Opens `config` with the given panel kind and objects, replacing any open popup.
    fn open(&mut self, config: PopupConfig, has_custom_panel: bool, object_ids: Vec<Uuid>)
        requires
            old(self).wf(),
        ensures
            final(self).wf(),
            final(self)@.active matches Some(a) && is_opened_popup(
                a,
                config,
                old(self)@.frame_counter,
                has_custom_panel,
                object_ids@,
            ),
            final(self)@.events == replaced_events(old(self)@).push(
                PopupEvent::Opened { popup_id: config.id },
            ),
            final(self)@.pending_object_cleanup == replaced_cleanup(old(self)@),
            final(self)@.frame_counter == old(self)@.frame_counter,
            final(self)@.prev_lmb_down == old(self)@.prev_lmb_down,
    {
        let ghost pre = config;
        let config = sanitize_config(config);
        if let Some(existing) = self.active.take() {
            self.finish(existing, CloseKind::Dismissed(PopupDismissReason::Replaced));
        }
        let popup_id = clone_string(&config.id);
        self.active = Some(
            ActivePopup {
                awaiting_opening_release: config.consume_opening_click,
                config,
                elapsed_ms: 0,
                opened_frame: self.frame_counter,
                has_custom_panel,
                custom_object_ids: object_ids,
                hovered_action: None,
                pressed_action: None,
            },
        );
        self.events.push(PopupEvent::Opened { popup_id });
    }

    /// Shows `config` (sanitized), replacing any open popup.
    pub fn show_popup(&mut self, config: PopupConfig)
        requires
            old(self).wf(),
        ensures
            final(self).wf(),
            final(self)@.active matches Some(a) && is_opened_popup(
                a,
                config,
                old(self)@.frame_counter,
                false,
                Seq::empty(),
            ),
            final(self)@.events == replaced_events(old(self)@).push(
                PopupEvent::Opened { popup_id: config.id },
            ),
            final(self)@.pending_object_cleanup == replaced_cleanup(old(self)@),
            final(self)@.frame_counter == old(self)@.frame_counter,
            final(self)@.prev_lmb_down == old(self)@.prev_lmb_down,
    {
        self.open(config, false, Vec::new());
    }

    /// Shows `config` (sanitized) with a caller-drawn panel made of the objects `object_ids`,
    /// replacing any open popup.
    pub fn show_popup_with_objects(&mut self, config: PopupConfig, object_ids: Vec<Uuid>)
        requires
            old(self).wf(),
        ensures
            final(self).wf(),
            final(self)@.active matches Some(a) && is_opened_popup(
                a,
                config,
                old(self)@.frame_counter,
                true,
                object_ids@,
            ),
            final(self)@.events == replaced_events(old(self)@).push(
                PopupEvent::Opened { popup_id: config.id },
            ),
            final(self)@.pending_object_cleanup == replaced_cleanup(old(self)@),
            final(self)@.frame_counter == old(self)@.frame_counter,
            final(self)@.prev_lmb_down == old(self)@.prev_lmb_down,
    {
        self.open(config, true, object_ids);
    }

    /// Closes the open popup when its id is `popup_id`; returns whether it did.
    pub fn close_popup(&mut self, popup_id: &str) -> (r: bool)
        requires
            old(self).wf(),
        ensures
            final(self).wf(),
            r == (old(self)@.active matches Some(a) && a.config.id@ == popup_id@),
            r ==> final(self)@ == closed_view(
                old(self)@,
                old(self)@.active->0,
                CloseKind::Dismissed(PopupDismissReason::Programmatic),
            ),
            !r ==> final(self)@ == old(self)@,
    {
        let wanted: String = popup_id.to_owned();
        let should_close = match &self.active {
            Some(p) => p.config.id == wanted,
            None => false,
        };
        if !should_close {
            return false;
        }
        let closed = self.active.take().unwrap();
        self.finish(closed, CloseKind::Dismissed(PopupDismissReason::Programmatic));
        true
    }

    pub fn is_open(&self) -> (r: bool)
        ensures
            r == self@.active is Some,
    {
        self.active.is_some()
    }

    /// Whether input to objects behind the popup is blocked.
    pub fn blocks_input_behind_popup(&self) -> (r: bool)
        ensures
            r == (self@.active matches Some(a) && a.config.block_input_behind_popup),
    {
        match &self.active {
            Some(p) => p.config.block_input_behind_popup,
            None => false,
        }
    }

    pub fn active(&self) -> (r: Option<&ActivePopup>)
        ensures
            r matches Some(a) ==> self@.active == Some(*a),
            r is None ==> self@.active is None,
    {
        self.active.as_ref()
    }

    /// Takes the object ids queued for cleanup.
    pub fn drain_popup_object_cleanup(&mut self) -> (r: Vec<Uuid>)
        ensures
            r@ == old(self)@.pending_object_cleanup,
            final(self)@ == (PopupRuntimeView { pending_object_cleanup: Seq::empty(), ..old(self)@ }),
    {
        let mut out: Vec<Uuid> = Vec::new();
        std::mem::swap(&mut out, &mut self.pending_object_cleanup);
        out
    }

    /// Takes the events reported since the last drain, oldest first.
    pub fn drain_events(&mut self) -> (r: Vec<PopupEvent>)
        ensures
            r@ == old(self)@.events,
            final(self)@ == (PopupRuntimeView { events: Seq::empty(), ..old(self)@ }),
    {
        let mut out: Vec<PopupEvent> = Vec::new();
        std::mem::swap(&mut out, &mut self.events);
        out
    }

    /// Advances the popup by one frame, as the engine does before it updates its objects, and
    /// returns whether this frame's pointer and key input is withheld from the objects behind
    /// the popup: it is when the popup blocked input before or after the frame.
    pub fn update_for_frame(&mut self, pointer: PopupPointer, key: &Option<Key>, elapsed_ms: u64) -> (r:
        bool)
        requires
            old(self).wf(),
        ensures
            final(self).wf(),
            final(self)@ == spec_update(old(self)@, pointer, spec_is_escape(*key), elapsed_ms),
            r == (blocks_input(old(self)@) || blocks_input(final(self)@)),
    {
        let blocked_before = self.blocks_input_behind_popup();
        self.update(pointer, key, elapsed_ms);
        let blocked_after = self.blocks_input_behind_popup();
        blocked_before || blocked_after
    }

    /// Advances the popup by one frame.
    pub fn update(&mut self, pointer: PopupPointer, key: &Option<Key>, elapsed_ms: u64)
        requires
            old(self).wf(),
        ensures
            final(self).wf(),
            final(self)@ == spec_update(old(self)@, pointer, spec_is_escape(*key), elapsed_ms),
    {
        let frame = self.frame_counter;
        self.frame_counter = self.frame_counter.wrapping_add(1);
        let lmb_down = pointer.lmb_down;
        let lmb_pressed = lmb_down && !self.prev_lmb_down;
        let lmb_released = !lmb_down && self.prev_lmb_down;
        self.prev_lmb_down = lmb_down;
        let escape = is_escape_pressed(key);
        let mut active = match self.active.take() {
            Some(a) => a,
            None => return ,
        };
        active.hovered_action = pointer.hovered_action;
        if lmb_down {
            active.pressed_action = pointer.hovered_action;
        } else {
            active.pressed_action = None;
        }
        if active.awaiting_opening_release && lmb_released {
            active.awaiting_opening_release = false;
        }
        let click_interactions_allowed = frame != active.opened_frame
            && !active.awaiting_opening_release;
        let clicked_action_id: Option<String> = match pointer.hovered_action {
            Some(idx) => if idx < active.config.actions.len() {
                Some(clone_string(&active.config.actions[idx].id))
            } else {
                None
            },
            None => None,
        };
        if active.config.dismiss_on_escape && escape {
            self.finish(active, CloseKind::Dismissed(PopupDismissReason::Escape));
            return ;
        }
        if click_interactions_allowed && lmb_pressed {
            if let Some(action_id) = clicked_action_id {
                self.finish(active, CloseKind::ActionSelected(action_id));
                return ;
            }
            let click_anywhere: Option<String> = match &active.config.click_anywhere_action_id {
                Some(id) => Some(clone_string(id)),
                None => None,
            };
            if let Some(action_id) = click_anywhere {
                if pointer.in_viewport {
                    self.finish(active, CloseKind::ActionSelected(action_id));
                    return ;
                }
            }
            if active.config.dismiss_on_backdrop_click && !pointer.in_panel {
                self.finish(active, CloseKind::Dismissed(PopupDismissReason::BackdropClick));
                return ;
            }
        }
        match active.config.auto_dismiss_ms {
            Some(timeout_ms) => {
                if timeout_ms == 0 {
                    self.finish(active, CloseKind::AutoDismissed);
                    return ;
                }
                active.elapsed_ms = active.elapsed_ms.saturating_add(elapsed_ms);
                if active.elapsed_ms >= timeout_ms {
                    self.finish(active, CloseKind::AutoDismissed);
                    return ;
                }
                self.active = Some(active);
            },
            None => {
                self.active = Some(active);
            },
        }
    }
}

/// A click in the frame in which a popup opened never closes it: when Escape does not dismiss it
/// and it has no timeout, the popup stays open and no event is reported.
pub proof fn lemma_opening_frame_click_cannot_close(
    pre: PopupRuntimeView,
    pointer: PopupPointer,
    escape: bool,
    elapsed_ms: u64,
)
    requires
        pre.active matches Some(a) && pre.frame_counter == a.opened_frame
            && !(a.config.dismiss_on_escape && escape) && a.config.auto_dismiss_ms is None,
    ensures
        spec_update(pre, pointer, escape, elapsed_ms).active is Some,
        spec_update(pre, pointer, escape, elapsed_ms).events == pre.events,
{
}

/// While a popup waits for the release of the click that opened it, and the button stays held,
/// clicks do not close it: without an Escape dismissal or a timeout it stays open silently.
pub proof fn lemma_opening_click_consumed_until_release(
    pre: PopupRuntimeView,
    pointer: PopupPointer,
    escape: bool,
    elapsed_ms: u64,
)
    requires
        pre.active matches Some(a) && a.awaiting_opening_release && !(a.config.dismiss_on_escape
            && escape) && a.config.auto_dismiss_ms is None,
        pointer.lmb_down,
    ensures
        spec_update(pre, pointer, escape, elapsed_ms).active is Some,
        spec_update(pre, pointer, escape, elapsed_ms).events == pre.events,
{
}

/// Only a new press of the left button is a click: in a frame whose button was already held in
/// the previous frame, or is not held now, no click closes the popup; without an Escape
/// dismissal or a timeout it stays open and no event is reported.
pub proof fn lemma_only_new_press_clicks(
    pre: PopupRuntimeView,
    pointer: PopupPointer,
    escape: bool,
    elapsed_ms: u64,
)
    requires
        pre.active matches Some(a) && !(a.config.dismiss_on_escape && escape)
            && a.config.auto_dismiss_ms is None,
        pre.prev_lmb_down || !pointer.lmb_down,
    ensures
        spec_update(pre, pointer, escape, elapsed_ms).active is Some,
        spec_update(pre, pointer, escape, elapsed_ms).events == pre.events,
{
}

/// A frame remembers whether the left button is held, for telling the next frame's new press
/// from a held button, and counts the frame.
pub proof fn lemma_update_tracks_button(
    pre: PopupRuntimeView,
    pointer: PopupPointer,
    escape: bool,
    elapsed_ms: u64,
)
    ensures
        spec_update(pre, pointer, escape, elapsed_ms).prev_lmb_down == pointer.lmb_down,
        spec_update(pre, pointer, escape, elapsed_ms).frame_counter == (if pre.frame_counter
            == u64::MAX {
            0
        } else {
            pre.frame_counter + 1
        }),
{
}

/// A new press on the backdrop, after the opening frame and once the opening click is
/// released, dismisses a popup that allows it, when it is not over an action, no click-anywhere
/// action applies and Escape does not dismiss it first.
pub proof fn lemma_backdrop_press_dismisses(
    pre: PopupRuntimeView,
    pointer: PopupPointer,
    escape: bool,
    elapsed_ms: u64,
)
    requires
        pre.active matches Some(a) && !(a.config.dismiss_on_escape && escape)
            && a.config.dismiss_on_backdrop_click && !a.awaiting_opening_release
            && pre.frame_counter != a.opened_frame && a.config.click_anywhere_action_id is None,
        !pre.prev_lmb_down && pointer.lmb_down,
        pointer.hovered_action is None,
        !pointer.in_panel,
    ensures
        spec_update(pre, pointer, escape, elapsed_ms).active is None,
        spec_update(pre, pointer, escape, elapsed_ms).events == pre.events.push(
            PopupEvent::Dismissed {
                popup_id: pre.active->0.config.id,
                reason: PopupDismissReason::BackdropClick,
            },
        ),
{
}

/// Escape closes a popup that allows it, whatever the pointer does, reporting `Dismissed` with
/// reason `Escape` for that popup.
pub proof fn lemma_escape_dismisses(
    pre: PopupRuntimeView,
    pointer: PopupPointer,
    elapsed_ms: u64,
)
    requires
        pre.active matches Some(a) && a.config.dismiss_on_escape,
    ensures
        spec_update(pre, pointer, true, elapsed_ms).active is None,
        spec_update(pre, pointer, true, elapsed_ms).events == pre.events.push(
            PopupEvent::Dismissed {
                popup_id: pre.active->0.config.id,
                reason: PopupDismissReason::Escape,
            },
        ),
{
}

/// A new press on one of the popup's action buttons, after the opening frame and once the
/// opening click is released, selects that action and closes the popup (unless Escape
/// dismisses it first).
pub proof fn lemma_action_press_selects(
    pre: PopupRuntimeView,
    pointer: PopupPointer,
    escape: bool,
    elapsed_ms: u64,
    i: usize,
)
    requires
        pre.active matches Some(a) && !(a.config.dismiss_on_escape && escape)
            && !a.awaiting_opening_release && pre.frame_counter != a.opened_frame && i
            < a.config.actions@.len(),
        !pre.prev_lmb_down && pointer.lmb_down,
        pointer.hovered_action == Some(i),
    ensures
        spec_update(pre, pointer, escape, elapsed_ms).active is None,
        spec_update(pre, pointer, escape, elapsed_ms).events == pre.events.push(
            PopupEvent::ActionSelected {
                popup_id: pre.active->0.config.id,
                action_id: pre.active->0.config.actions@[i as int].id,
            },
        ),
{
}

/// Without clicks or Escape, a popup with a timeout adds the frame's milliseconds to its
/// elapsed time (saturating) and closes with `AutoDismissed` once that reaches the timeout;
/// before, it stays open with nothing reported.
pub proof fn lemma_timeout_elapses(
    pre: PopupRuntimeView,
    pointer: PopupPointer,
    escape: bool,
    elapsed_ms: u64,
)
    requires
        pre.active matches Some(a) && !(a.config.dismiss_on_escape && escape) && (
        a.config.auto_dismiss_ms matches Some(t) && t > 0),
        pre.prev_lmb_down || !pointer.lmb_down,
    ensures
        ({
            let a = pre.active->0;
            let t = a.config.auto_dismiss_ms->0;
            let total = if a.elapsed_ms + elapsed_ms > u64::MAX {
                u64::MAX as int
            } else {
                a.elapsed_ms + elapsed_ms
            };
            let post = spec_update(pre, pointer, escape, elapsed_ms);
            &&& total >= t ==> post.active is None && post.events == pre.events.push(
                PopupEvent::AutoDismissed { popup_id: a.config.id },
            )
            &&& total < t ==> (post.active matches Some(b) && b.elapsed_ms == total)
                && post.events == pre.events
        }),
{
}

/// Escape dismisses a popup only when its configuration allows it.
pub proof fn lemma_escape_respects_flag(
    pre: PopupRuntimeView,
    pointer: PopupPointer,
    escape: bool,
    elapsed_ms: u64,
)
    requires
        pre.active matches Some(a) && !a.config.dismiss_on_escape,
    ensures
        ({
            let post = spec_update(pre, pointer, escape, elapsed_ms);
            post.events.len() > pre.events.len() ==> post.events.last()
                != (PopupEvent::Dismissed {
                popup_id: pre.active->0.config.id,
                reason: PopupDismissReason::Escape,
            })
        }),
{
}

/// A frame reports at most one event. When it reports one, that event is about the popup that
/// was open, the popup is closed afterwards and its objects are queued for cleanup; otherwise
/// the events and the cleanup queue are unchanged.
pub proof fn lemma_update_reports_at_most_one_event(
    pre: PopupRuntimeView,
    pointer: PopupPointer,
    escape: bool,
    elapsed_ms: u64,
)
    ensures
        ({
            let post = spec_update(pre, pointer, escape, elapsed_ms);
            ||| post.events == pre.events && post.pending_object_cleanup
                == pre.pending_object_cleanup && (pre.active is None <==> post.active is None)
            ||| pre.active matches Some(a) && post.active is None && post.events.len()
                == pre.events.len() + 1 && post.events.drop_last() == pre.events
                && event_popup_id(post.events.last()) == a.config.id
                && post.pending_object_cleanup == pre.pending_object_cleanup
                + a.custom_object_ids@
        }),
{
    let post = spec_update(pre, pointer, escape, elapsed_ms);
    if post.events != pre.events {
        assert(post.events.drop_last() =~= pre.events);
    }
}

/// An open popup keeps input from the objects behind it.
pub open spec fn blocks_input(v: PopupRuntimeView) -> bool {
    v.active matches Some(a) && a.config.block_input_behind_popup
}

/// The popup an event is about.
pub open spec fn event_popup_id(e: PopupEvent) -> String {
    match e {
        PopupEvent::Opened { popup_id } => popup_id,
        PopupEvent::ActionSelected { popup_id, .. } => popup_id,
        PopupEvent::Dismissed { popup_id, .. } => popup_id,
        PopupEvent::AutoDismissed { popup_id } => popup_id,
    }
}

/// Without an open popup a frame only advances the frame counter and the button state.
pub proof fn lemma_update_without_popup(
    pre: PopupRuntimeView,
    pointer: PopupPointer,
    escape: bool,
    elapsed_ms: u64,
)
    requires
        pre.active is None,
    ensures
        ({
            let post = spec_update(pre, pointer, escape, elapsed_ms);
            &&& post.active is None
            &&& post.events == pre.events
            &&& post.pending_object_cleanup == pre.pending_object_cleanup
        }),
{
}

/// A popup with a zero timeout closes in the first frame that does not close it otherwise,
/// reporting `AutoDismissed`.
pub proof fn lemma_zero_timeout_dismisses(
    pre: PopupRuntimeView,
    pointer: PopupPointer,
    escape: bool,
    elapsed_ms: u64,
)
    requires
        pre.active matches Some(a) && a.config.auto_dismiss_ms == Some(0u64),
    ensures
        spec_update(pre, pointer, escape, elapsed_ms).active is None,
{
}

/// `a` sorts before `b` when compared char by char by code point (the order of their UTF-8
/// bytes), a proper prefix sorting first.
pub open spec fn lex_lt(a: Seq<char>, b: Seq<char>) -> bool
    decreases a.len(),
{
    if a.len() == 0 {
        b.len() > 0
    } else if b.len() == 0 {
        false
    } else if a[0] != b[0] {
        (a[0] as u32) < (b[0] as u32)
    } else {
        lex_lt(a.drop_first(), b.drop_first())
    }
}

/// No text sorts before itself.
pub proof fn lemma_lex_lt_irreflexive(a: Seq<char>)
    ensures
        !lex_lt(a, a),
    decreases a.len(),
{
    if a.len() > 0 {
        lemma_lex_lt_irreflexive(a.drop_first());
    }
}

/// The order is transitive.
pub proof fn lemma_lex_lt_transitive(a: Seq<char>, b: Seq<char>, c: Seq<char>)
    requires
        lex_lt(a, b),
        lex_lt(b, c),
    ensures
        lex_lt(a, c),
    decreases a.len(),
{
    if a.len() > 0 && b.len() > 0 && c.len() > 0 {
        if a[0] == b[0] && b[0] == c[0] {
            lemma_lex_lt_transitive(a.drop_first(), b.drop_first(), c.drop_first());
        } else if a[0] == b[0] {
            assert(a[0] != c[0]);
        } else if b[0] == c[0] {
            assert(a[0] != c[0]);
        } else {
            if a[0] == c[0] {
                assert((a[0] as u32) < (b[0] as u32) && (b[0] as u32) < (c[0] as u32));
            }
        }
    }
}

/// The order is total on distinct texts.
pub proof fn lemma_lex_lt_total(a: Seq<char>, b: Seq<char>)
    requires
        a != b,
    ensures
        lex_lt(a, b) || lex_lt(b, a),
    decreases a.len(),
{
    if a.len() > 0 && b.len() > 0 {
        if a[0] == b[0] {
            if a.drop_first() == b.drop_first() {
                assert(a =~= seq![a[0]] + a.drop_first());
                assert(b =~= seq![b[0]] + b.drop_first());
            }
            lemma_lex_lt_total(a.drop_first(), b.drop_first());
        } else {
            assert((a[0] as u32) != (b[0] as u32)) by {
                if (a[0] as u32) == (b[0] as u32) {
                    vstd::utf8::char_u32_cast(a[0], a[0] as u32);
                    vstd::utf8::char_u32_cast(b[0], b[0] as u32);
                }
            }
        }
    } else if a.len() == 0 && b.len() == 0 {
        assert(a =~= b);
    }
}

fn lex_lt_exec(a: &Vec<char>, b: &Vec<char>) -> (r: bool)
    ensures
        r == lex_lt(a@, b@),
{
    let mut i: usize = 0;
    assert(a@.skip(0) =~= a@);
    assert(b@.skip(0) =~= b@);
    while i < a.len() && i < b.len() && a[i] == b[i]
        invariant
            i <= a@.len(),
            i <= b@.len(),
            lex_lt(a@, b@) == lex_lt(a@.skip(i as int), b@.skip(i as int)),
        decreases a@.len() - i,
    {
        assert(a@.skip(i as int).drop_first() =~= a@.skip(i + 1));
        assert(b@.skip(i as int).drop_first() =~= b@.skip(i + 1));
        i = i + 1;
    }
    if i == a.len() {
        i < b.len()
    } else if i == b.len() {
        false
    } else {
        assert(a@.skip(i as int)[0] == a@[i as int]);
        assert(b@.skip(i as int)[0] == b@[i as int]);
        (a[i] as u32) < (b[i] as u32)
    }
}

/// The font popups use, among the loaded font keys `keys`: `roboto`, else `default`, else the
/// key that sorts first.
pub fn popup_font_key(keys: &Vec<String>) -> (r: Option<String>)
    ensures
        r is None <==> keys@.len() == 0,
        r matches Some(k) ==> {
            &&& (exists|i: int| 0 <= i < keys@.len() && (#[trigger] keys@[i])@ == k@)
            &&& (exists|i: int| 0 <= i < keys@.len() && (#[trigger] keys@[i])@ == "roboto"@) ==> k@
                == "roboto"@
            &&& (!(exists|i: int| 0 <= i < keys@.len() && (#[trigger] keys@[i])@ == "roboto"@)
                && (exists|i: int| 0 <= i < keys@.len() && (#[trigger] keys@[i])@ == "default"@))
                ==> k@ == "default"@
            &&& (!(exists|i: int| 0 <= i < keys@.len() && (#[trigger] keys@[i])@ == "roboto"@)
                && !(exists|i: int| 0 <= i < keys@.len() && (#[trigger] keys@[i])@ == "default"@))
                ==> forall|j: int| 0 <= j < keys@.len() ==> !lex_lt((#[trigger] keys@[j])@, k@)
        },
{
    let roboto: String = "roboto".to_owned();
    let default: String = "default".to_owned();
    let mut i: usize = 0;
    while i < keys.len()
        invariant
            roboto@ == "roboto"@,
            i <= keys@.len(),
            forall|j: int| 0 <= j < i ==> (#[trigger] keys@[j])@ != roboto@,
        decreases keys@.len() - i,
    {
        if keys[i] == roboto {
            assert(keys@[i as int]@ == roboto@);
            return Some(roboto);
        }
        i = i + 1;
    }
    let mut i: usize = 0;
    while i < keys.len()
        invariant
            roboto@ == "roboto"@,
            default@ == "default"@,
            i <= keys@.len(),
            forall|j: int| 0 <= j < keys@.len() ==> (#[trigger] keys@[j])@ != roboto@,
            forall|j: int| 0 <= j < i ==> (#[trigger] keys@[j])@ != default@,
        decreases keys@.len() - i,
    {
        if keys[i] == default {
            assert(keys@[i as int]@ == default@);
            return Some(default);
        }
        i = i + 1;
    }
    if keys.len() == 0 {
        return None;
    }
    let mut best: usize = 0;
    let mut best_chars = crate::pluto_objects::text2d::chars_of(keys[0].as_str());
    proof {
        lemma_lex_lt_irreflexive(keys@[0]@);
    }
    let mut i: usize = 1;
    while i < keys.len()
        invariant
            roboto@ == "roboto"@,
            default@ == "default"@,
            1 <= i <= keys@.len(),
            best < keys@.len(),
            best_chars@ == keys@[best as int]@,
            forall|j: int| 0 <= j < keys@.len() ==> (#[trigger] keys@[j])@ != roboto@,
            forall|j: int| 0 <= j < keys@.len() ==> (#[trigger] keys@[j])@ != default@,
            forall|j: int| 0 <= j < i ==> !lex_lt((#[trigger] keys@[j])@, keys@[best as int]@),
        decreases keys@.len() - i,
    {
        let cand = crate::pluto_objects::text2d::chars_of(keys[i].as_str());
        if lex_lt_exec(&cand, &best_chars) {
            proof {
                let nb = keys@[i as int]@;
                lemma_lex_lt_irreflexive(nb);
                assert forall|j: int| 0 <= j < i + 1 implies !lex_lt((#[trigger] keys@[j])@, nb) by {
                    if j < i && lex_lt(keys@[j]@, nb) {
                        lemma_lex_lt_transitive(keys@[j]@, nb, keys@[best as int]@);
                    }
                }
            }
            best = i;
            best_chars = cand;
        }
        i = i + 1;
    }
    Some(keys[best].clone())
}

} // verus!
