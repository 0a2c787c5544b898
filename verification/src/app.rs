//! Window configuration, the logical keys reported to frame callbacks, held keys and the
//! app-level hotkeys.
use vstd::prelude::*;

verus! {

/// Named keys that the engine's widgets react to.
#[derive(Debug, Clone, Copy, PartialEq, Eq, Structural, Hash)]
pub enum NamedKey {
    Backspace,
    Escape,
    Space,
    Enter,
    ArrowLeft,
    ArrowRight,
    ArrowUp,
    ArrowDown,
}

/// The name of a named key, as the platform spells it.
pub open spec fn named_key_name(n: NamedKey) -> Seq<char> {
    match n {
        NamedKey::Backspace => "Backspace"@,
        NamedKey::Escape => "Escape"@,
        NamedKey::Space => "Space"@,
        NamedKey::Enter => "Enter"@,
        NamedKey::ArrowLeft => "ArrowLeft"@,
        NamedKey::ArrowRight => "ArrowRight"@,
        NamedKey::ArrowUp => "ArrowUp"@,
        NamedKey::ArrowDown => "ArrowDown"@,
    }
}

fn named_key_name_exec(n: NamedKey) -> (r: String)
    ensures
        r@ == named_key_name(n),
{
    let s: &str = match n {
        NamedKey::Backspace => "Backspace",
        NamedKey::Escape => "Escape",
        NamedKey::Space => "Space",
        NamedKey::Enter => "Enter",
        NamedKey::ArrowLeft => "ArrowLeft",
        NamedKey::ArrowRight => "ArrowRight",
        NamedKey::ArrowUp => "ArrowUp",
        NamedKey::ArrowDown => "ArrowDown",
    };
    s.to_owned()
}

/// The name of a named key (`None` for a character or an unidentified key).
pub open spec fn key_name(k: Key) -> Option<Seq<char>> {
    match k {
        Key::Named(n) => Some(named_key_name(n)),
        Key::OtherNamed(name) => Some(name@),
        _ => None,
    }
}

/// Logical keyboard key reported to frame callbacks and widgets.
#[derive(Debug, Clone, PartialEq, Eq, Hash)]
pub enum Key {
    /// A key producing text; the text it produces.
    Character(String),
    /// A named (non-text) key the engine's widgets react to.
    Named(NamedKey),
    /// Any other named key, by its name (such as `Tab` or `F1`).
    OtherNamed(String),
    /// A key the platform could not identify.
    Unidentified,
}

/// ASCII lower-case mapping of a char (other chars are unchanged).
pub open spec fn ascii_lower(c: char) -> char {
    if 'A' <= c && c <= 'Z' {
        ((c as u32) + 32) as char
    } else {
        c
    }
}

/// `a` and `b` are equal when ASCII letters are compared case-insensitively.
pub open spec fn eq_ignore_ascii_case(a: Seq<char>, b: Seq<char>) -> bool {
    a.len() == b.len() && forall|i: int| 0 <= i < a.len() ==> ascii_lower(a[i]) == ascii_lower(b[i])
}

fn ascii_lower_exec(c: char) -> (r: char)
    ensures
        r == ascii_lower(c),
{
    if 'A' <= c && c <= 'Z' {
        let b: u8 = (c as u8) + 32;
        assert(b as u32 == (c as u32) + 32);
        b as char
    } else {
        c
    }
}

/// Compares two strings, treating ASCII letters case-insensitively.
pub fn str_eq_ignore_ascii_case(a: &str, b: &str) -> (r: bool)
    ensures
        r == eq_ignore_ascii_case(a@, b@),
{
    let ac = crate::pluto_objects::text2d::chars_of(a);
    let bc = crate::pluto_objects::text2d::chars_of(b);
    if ac.len() != bc.len() {
        return false;
    }
    let mut i: usize = 0;
    while i < ac.len()
        invariant
            ac@ == a@,
            bc@ == b@,
            ac@.len() == bc@.len(),
            i <= ac@.len(),
            forall|j: int| 0 <= j < i ==> ascii_lower(ac@[j]) == ascii_lower(bc@[j]),
        decreases ac@.len() - i,
    {
        if ascii_lower_exec(ac[i]) != ascii_lower_exec(bc[i]) {
            return false;
        }
        i = i + 1;
    }
    true
}

impl Key {
    /// A copy of this key.
    pub fn clone_key(&self) -> (r: Key)
        ensures
            r == *self,
    {
        match self {
            Key::Character(value) => Key::Character(value.clone()),
            Key::Named(n) => Key::Named(*n),
            Key::OtherNamed(name) => Key::OtherNamed(name.clone()),
            Key::Unidentified => Key::Unidentified,
        }
    }

    /// Returns the text of character keys.
    pub fn character(&self) -> (r: Option<&str>)
        ensures
            r matches Some(v) ==> (self matches Key::Character(c) && v@ == c@),
            r is None ==> !(self is Character),
    {
        match self {
            Key::Character(value) => Some(value.as_str()),
            _ => None,
        }
    }

    /// Returns true when this key is a character equal to `value`, ignoring ASCII case.
    pub fn is_character_ignore_ascii_case(&self, value: &str) -> (r: bool)
        ensures
            r == (self matches Key::Character(c) && eq_ignore_ascii_case(c@, value@)),
    {
        match self {
            Key::Character(c) => str_eq_ignore_ascii_case(c.as_str(), value),
            _ => false,
        }
    }

    /// Returns true when this key is the named key called `name` (such as `Enter` or `Tab`).
    pub fn is_named(&self, name: &str) -> (r: bool)
        ensures
            r == (key_name(*self) == Some(name@)),
    {
        let wanted: String = name.to_owned();
        match self {
            Key::Named(n) => named_key_name_exec(*n) == wanted,
            Key::OtherNamed(other) => *other == wanted,
            _ => false,
        }
    }
}

/// What a key press does to the app itself, before it reaches the frame callback.
#[derive(Debug, Clone, Copy, PartialEq, Eq, Structural)]
pub enum HotkeyAction {
    /// F11: switch between windowed and borderless fullscreen.
    ToggleFullscreen,
    /// `r` while recording: stop recording input.
    StopRecording,
    /// `r` while not recording: start recording input.
    StartRecording,
    /// `p`: replay the recorded session.
    StartReplay,
    /// The key has no app-level meaning.
    NoAction,
}

/// App-level meaning of pressing `key` (`is_f11`: its physical key is F11), given whether input
/// is being recorded.
pub open spec fn spec_hotkey_action(is_f11: bool, key: Key, recording: bool) -> HotkeyAction {
    if is_f11 {
        HotkeyAction::ToggleFullscreen
    } else if key matches Key::Character(c) && eq_ignore_ascii_case(c@, seq!['r']) {
        if recording {
            HotkeyAction::StopRecording
        } else {
            HotkeyAction::StartRecording
        }
    } else if key matches Key::Character(c) && eq_ignore_ascii_case(c@, seq!['p']) {
        HotkeyAction::StartReplay
    } else {
        HotkeyAction::NoAction
    }
}

/// App-level meaning of a key press: F11 toggles fullscreen, `r` toggles input recording and
/// `p` starts a replay (letters compared ignoring ASCII case).
pub fn hotkey_action(is_f11: bool, key: &Key, recording: bool) -> (r: HotkeyAction)
    ensures
        r == spec_hotkey_action(is_f11, *key, recording),
{
    if is_f11 {
        return HotkeyAction::ToggleFullscreen;
    }
    proof {
        reveal_strlit("r");
        reveal_strlit("p");
        assert("r"@ =~= seq!['r']);
        assert("p"@ =~= seq!['p']);
    }
    if key.is_character_ignore_ascii_case("r") {
        if recording {
            HotkeyAction::StopRecording
        } else {
            HotkeyAction::StartRecording
        }
    } else if key.is_character_ignore_ascii_case("p") {
        HotkeyAction::StartReplay
    } else {
        HotkeyAction::NoAction
    }
}

/// The app's hotkeys, by the key pressed: F11 always toggles fullscreen; otherwise a typed `r`
/// or `R` stops a running recording or starts one, a typed `p` or `P` starts a replay, and every
/// other key (any other text, a named key) does nothing to the app.
pub proof fn lemma_hotkeys(is_f11: bool, key: Key, recording: bool)
    ensures
        is_f11 ==> spec_hotkey_action(is_f11, key, recording) == HotkeyAction::ToggleFullscreen,
        !is_f11 && (key matches Key::Character(c) && (c@ == seq!['r'] || c@ == seq!['R']))
            ==> spec_hotkey_action(is_f11, key, recording) == (if recording {
            HotkeyAction::StopRecording
        } else {
            HotkeyAction::StartRecording
        }),
        !is_f11 && (key matches Key::Character(c) && (c@ == seq!['p'] || c@ == seq!['P']))
            ==> spec_hotkey_action(is_f11, key, recording) == HotkeyAction::StartReplay,
        !is_f11 && !(key matches Key::Character(c) && (c@ == seq!['r'] || c@ == seq!['R']
            || c@ == seq!['p'] || c@ == seq!['P'])) ==> spec_hotkey_action(is_f11, key, recording)
            == HotkeyAction::NoAction,
{
    if let Key::Character(c) = key {
        let s = c@;
        if eq_ignore_ascii_case(s, seq!['r']) {
            assert(ascii_lower(s[0]) == 'r');
            assert(s[0] == 'r' || s[0] == 'R');
            assert(s == seq!['r'] || s == seq!['R']);
        }
        if eq_ignore_ascii_case(s, seq!['p']) {
            assert(ascii_lower(s[0]) == 'p');
            assert(s[0] == 'p' || s[0] == 'P');
            assert(s == seq!['p'] || s == seq!['P']);
        }
        if s == seq!['R'] || s == seq!['r'] {
            assert(ascii_lower(s[0]) == ascii_lower('r'));
        }
        if s == seq!['P'] || s == seq!['p'] {
            assert(ascii_lower(s[0]) == ascii_lower('p'));
        }
    }
}

/// Frame-local collection of logical keyboard keys.
#[derive(Clone, Debug, PartialEq, Eq)]
pub struct Keys {
    inner: Vec<Key>,
}

impl View for Keys {
    type V = Seq<Key>;

    closed spec fn view(&self) -> Seq<Key> {
        self.inner@
    }
}

impl Keys {
    pub fn new() -> (r: Self)
        ensures
            r@ == Seq::<Key>::empty(),
    {
        Keys { inner: Vec::new() }
    }

    /// Returns the number of key presses in this frame.
    pub fn len(&self) -> (r: usize)
        ensures
            r == self@.len(),
    {
        self.inner.len()
    }

    /// Returns true when no key presses were reported for this frame.
    pub fn is_empty(&self) -> (r: bool)
        ensures
            r == (self@.len() == 0),
    {
        self.inner.len() == 0
    }

    /// The key at position `i`.
    pub fn get(&self, i: usize) -> (r: &Key)
        requires
            i < self@.len(),
        ensures
            *r == self@[i as int],
    {
        &self.inner[i]
    }

    /// Returns true when any key is a character equal to `value`, ignoring ASCII case.
    pub fn contains_character_ignore_ascii_case(&self, value: &str) -> (r: bool)
        ensures
            r == exists|i: int|
                0 <= i < self@.len() && (#[trigger] self@[i] matches Key::Character(c)
                    && eq_ignore_ascii_case(c@, value@)),
    {
        let mut i: usize = 0;
        while i < self.inner.len()
            invariant
                i <= self@.len(),
                forall|j: int|
                    0 <= j < i ==> !(#[trigger] self@[j] matches Key::Character(c)
                        && eq_ignore_ascii_case(c@, value@)),
            decreases self@.len() - i,
        {
            if self.inner[i].is_character_ignore_ascii_case(value) {
                return true;
            }
            i = i + 1;
        }
        false
    }

    /// Returns true when any key is the named key called `name`.
    pub fn contains_named(&self, name: &str) -> (r: bool)
        ensures
            r == exists|j: int| 0 <= j < self@.len() && key_name(#[trigger] self@[j]) == Some(name@),
    {
        let mut i: usize = 0;
        while i < self.inner.len()
            invariant
                i <= self@.len(),
                forall|j: int| 0 <= j < i ==> key_name(#[trigger] self@[j]) != Some(name@),
            decreases self@.len() - i,
        {
            if self.inner[i].is_named(name) {
                assert(key_name(self@[i as int]) == Some(name@));
                return true;
            }
            i = i + 1;
        }
        false
    }

    pub fn clear(&mut self)
        ensures
            final(self)@ == Seq::<Key>::empty(),
    {
        self.inner.clear();
    }

    pub fn push(&mut self, key: Key)
        ensures
            final(self)@ == old(self)@.push(key),
    {
        self.inner.push(key);
    }
}

/// A key's hold state, under the name that identifies the key.
pub struct HeldKey {
    pub name: String,
    pub key: Key,
    pub is_down: bool,
}

/// The keys seen so far and whether each is held down, one entry per key name.
pub struct HeldKeys {
    entries: Vec<HeldKey>,
}

impl View for HeldKeys {
    type V = Seq<(Seq<char>, Key, bool)>;

    closed spec fn view(&self) -> Seq<(Seq<char>, Key, bool)> {
        Seq::new(
            self.entries@.len(),
            |i: int| (self.entries@[i].name@, self.entries@[i].key, self.entries@[i].is_down),
        )
    }
}

/// `entries` has an entry named `name`.
pub open spec fn has_name(entries: Seq<(Seq<char>, Key, bool)>, name: Seq<char>) -> bool {
    exists|i: int| 0 <= i < entries.len() && (#[trigger] entries[i]).0 == name
}

/// The index of the entry named `name`.
pub open spec fn name_index(entries: Seq<(Seq<char>, Key, bool)>, name: Seq<char>) -> int {
    choose|i: int| 0 <= i < entries.len() && (#[trigger] entries[i]).0 == name
}

/// The key named `name` is held down.
pub open spec fn spec_is_key_down(entries: Seq<(Seq<char>, Key, bool)>, name: Seq<char>) -> bool {
    exists|i: int| 0 <= i < entries.len() && (#[trigger] entries[i]).0 == name && entries[i].2
}

/// A character key whose text equals `ch`, ignoring ASCII case, is held down.
pub open spec fn spec_is_char_key_down(entries: Seq<(Seq<char>, Key, bool)>, ch: char) -> bool {
    exists|i: int|
        0 <= i < entries.len() && (#[trigger] entries[i]).2 && (entries[i].1 matches Key::Character(
            v,
        ) && eq_ignore_ascii_case(v@, seq![ch]))
}

/// The named key called `name` is held down.
pub open spec fn spec_is_named_key_down(entries: Seq<(Seq<char>, Key, bool)>, name: Seq<char>) -> bool {
    exists|i: int|
        0 <= i < entries.len() && (#[trigger] entries[i]).2 && key_name(entries[i].1) == Some(name)
}

/// Entries after pressing the key `key` named `name`.
pub open spec fn spec_press(entries: Seq<(Seq<char>, Key, bool)>, name: Seq<char>, key: Key) -> Seq<
    (Seq<char>, Key, bool),
> {
    if has_name(entries, name) {
        entries.update(name_index(entries, name), (name, key, true))
    } else {
        entries.push((name, key, true))
    }
}

/// Entries after releasing the key named `name`.
pub open spec fn spec_release(entries: Seq<(Seq<char>, Key, bool)>, name: Seq<char>) -> Seq<
    (Seq<char>, Key, bool),
> {
    if has_name(entries, name) {
        let i = name_index(entries, name);
        entries.update(i, (name, entries[i].1, false))
    } else {
        entries
    }
}

/// No two entries share a name.
pub open spec fn names_distinct(entries: Seq<(Seq<char>, Key, bool)>) -> bool {
    forall|i: int, j: int| 0 <= i < j < entries.len() ==> entries[i].0 != entries[j].0
}

/// After a key is pressed it is held down, until it is released.
pub proof fn lemma_press_then_release(entries: Seq<(Seq<char>, Key, bool)>, name: Seq<char>, key: Key)
    requires
        names_distinct(entries),
    ensures
        names_distinct(spec_press(entries, name, key)),
        spec_is_key_down(spec_press(entries, name, key), name),
        !spec_is_key_down(spec_release(spec_press(entries, name, key), name), name),
{
    let p = spec_press(entries, name, key);
    if has_name(entries, name) {
        let i = name_index(entries, name);
        assert(p[i].0 == name && p[i].2);
    } else {
        assert(p[entries.len() as int].0 == name && p[entries.len() as int].2);
    }
    assert(has_name(p, name));
    let k = name_index(p, name);
    let q = spec_release(p, name);
    assert forall|j: int| 0 <= j < q.len() && (#[trigger] q[j]).0 == name implies !q[j].2 by {
        if j != k {
            assert(p[j].0 == name);
            assert(p[k].0 == name);
        }
    }
}

fn string_eq(a: &String, b: &String) -> (r: bool)
    ensures
        r == (a@ == b@),
{
    *a == *b
}

impl HeldKeys {
    /// Each key name has at most one entry.
    pub open spec fn wf(&self) -> bool {
        names_distinct(self@)
    }

    /// No key seen yet.
    pub fn new() -> (r: Self)
        ensures
            r.wf(),
            r@ == Seq::<(Seq<char>, Key, bool)>::empty(),
    {
        let r = HeldKeys { entries: Vec::new() };
        assert(r@ =~= Seq::<(Seq<char>, Key, bool)>::empty());
        r
    }

    fn find(&self, name: &String) -> (r: Option<usize>)
        ensures
            r matches Some(i) ==> i < self@.len() && self@[i as int].0 == name@,
            r is None ==> !has_name(self@, name@),
    {
        let mut i: usize = 0;
        while i < self.entries.len()
            invariant
                i <= self.entries@.len(),
                forall|j: int| 0 <= j < i ==> self@[j].0 != name@,
            decreases self.entries@.len() - i,
        {
            if string_eq(&self.entries[i].name, name) {
                return Some(i);
            }
            i = i + 1;
        }
        None
    }

    /// Records a press of `key`, identified by `name`: it is held down from now on.
    pub fn press(&mut self, name: String, key: Key)
        requires
            old(self).wf(),
        ensures
            final(self).wf(),
            final(self)@ == spec_press(old(self)@, name@, key),
    {
        let ghost pre = self@;
        let ghost n = name@;
        let ghost k = key;
        match self.find(&name) {
            Some(i) => {
                proof {
                    assert(has_name(pre, n));
                    let c = name_index(pre, n);
                    assert(pre[c].0 == n);
                    assert(c == i as int);
                }
                self.entries.set(i, HeldKey { name, key, is_down: true });
                assert(self@ =~= pre.update(i as int, (n, k, true)));
            },
            None => {
                self.entries.push(HeldKey { name, key, is_down: true });
                assert(self@ =~= pre.push((n, k, true)));
            },
        }
    }

    /// Records the release of the key identified by `name`.
    pub fn release(&mut self, name: &String)
        requires
            old(self).wf(),
        ensures
            final(self).wf(),
            final(self)@ == spec_release(old(self)@, name@),
    {
        let ghost pre = self@;
        match self.find(name) {
            Some(i) => {
                proof {
                    let c = name_index(pre, name@);
                    assert(pre[c].0 == name@);
                    assert(c == i as int);
                }
                let key = self.entries[i].key.clone_key();
                let n = self.entries[i].name.clone();
                self.entries.set(i, HeldKey { name: n, key, is_down: false });
                assert(self@ =~= pre.update(i as int, (name@, pre[i as int].1, false)));
            },
            None => {},
        }
    }

    /// The key identified by `name` is held down.
    pub fn is_key_down(&self, name: &String) -> (r: bool)
        requires
            self.wf(),
        ensures
            r == spec_is_key_down(self@, name@),
    {
        match self.find(name) {
            Some(i) => {
                let d = self.entries[i].is_down;
                proof {
                    if !d {
                        assert forall|j: int| 0 <= j < self@.len() && (#[trigger] self@[j]).0 == name@
                            implies !self@[j].2 by {
                            if j != i as int {
                                assert(self@[i as int].0 == name@);
                            }
                        }
                    }
                }
                d
            },
            None => false,
        }
    }

    /// A character key whose text is `ch`, ignoring ASCII case, is held down.
    pub fn is_char_key_down(&self, ch: char) -> (r: bool)
        ensures
            r == spec_is_char_key_down(self@, ch),
    {
        let mut needle_chars: Vec<char> = Vec::new();
        needle_chars.push(ch);
        let needle = crate::pluto_objects::text2d::string_from_chars(&needle_chars);
        assert(needle@ =~= seq![ch]);
        let mut i: usize = 0;
        while i < self.entries.len()
            invariant
                i <= self.entries@.len(),
                needle@ == seq![ch],
                forall|j: int|
                    0 <= j < i ==> !((#[trigger] self@[j]).2 && (self@[j].1 matches Key::Character(
                        v,
                    ) && eq_ignore_ascii_case(v@, seq![ch]))),
            decreases self.entries@.len() - i,
        {
            let e = &self.entries[i];
            if e.is_down && e.key.is_character_ignore_ascii_case(needle.as_str()) {
                assert(self@[i as int].2);
                return true;
            }
            i = i + 1;
        }
        false
    }

    /// The named key called `name` (such as `Enter` or `Tab`) is held down.
    pub fn is_named_key_down(&self, name: &str) -> (r: bool)
        ensures
            r == spec_is_named_key_down(self@, name@),
    {
        let mut i: usize = 0;
        while i < self.entries.len()
            invariant
                i <= self.entries@.len(),
                forall|j: int|
                    0 <= j < i ==> !((#[trigger] self@[j]).2 && key_name(self@[j].1) == Some(name@)),
            decreases self.entries@.len() - i,
        {
            let e = &self.entries[i];
            if e.is_down && e.key.is_named(name) {
                assert(self@[i as int].2);
                return true;
            }
            i = i + 1;
        }
        false
    }
}

/// What a frame of a replay does.
#[derive(Debug, Clone, Copy, PartialEq, Eq, Structural)]
pub enum ReplayStep {
    /// Feed the recorded input of this frame index to the frame.
    Frame(usize),
    /// The recording is used up: stop replaying.
    Finished,
}

/// Position in a recording of `frames` frames being replayed.
#[derive(Debug, Clone, Copy, PartialEq, Eq, Structural)]
pub struct ReplayCursor {
    frames: usize,
    cursor: usize,
}

impl View for ReplayCursor {
    type V = (nat, nat);

    /// (number of recorded frames, index of the next frame to replay)
    closed spec fn view(&self) -> (nat, nat) {
        (self.frames as nat, self.cursor as nat)
    }
}

impl ReplayCursor {
    /// The next frame never lies past the end of the recording.
    pub open spec fn wf(&self) -> bool {
        self@.1 <= self@.0
    }

    /// The start of a recording of `frames` frames.
    pub fn new(frames: usize) -> (r: Self)
        ensures
            r.wf(),
            r@ == (frames as nat, 0nat),
    {
        ReplayCursor { frames, cursor: 0 }
    }

    /// Advances by one frame: the recorded frame to replay now, or `Finished` at the end.
    pub fn next_frame(&mut self) -> (r: ReplayStep)
        requires
            old(self).wf(),
        ensures
            final(self).wf(),
            old(self)@.1 < old(self)@.0 ==> r == ReplayStep::Frame(old(self)@.1 as usize)
                && final(self)@ == (old(self)@.0, old(self)@.1 + 1),
            old(self)@.1 >= old(self)@.0 ==> r == ReplayStep::Finished && final(self)@ == old(
                self,
            )@,
    {
        if self.cursor < self.frames {
            let i = self.cursor;
            self.cursor = self.cursor + 1;
            ReplayStep::Frame(i)
        } else {
            ReplayStep::Finished
        }
    }
}

/// WindowConfig data.
pub struct WindowConfig {
    /// Window title.
    pub title: String,
    /// Width in logical pixels.
    pub width: u32,
    /// Height in logical pixels.
    pub height: u32,
}

impl Default for WindowConfig {
    fn default() -> (r: Self)
        ensures
            r.title@ == "Plutonium Engine"@,
            r.width == 800,
            r.height == 600,
    {
        proof {
            reveal_strlit("Plutonium Engine");
        }
        WindowConfig { title: "Plutonium Engine".to_string(), width: 800, height: 600 }
    }
}

/// Browser canvas behavior for the WebAssembly runner.
#[derive(Debug, Clone, Copy)]
pub struct WasmAppConfig {
    pub prevent_default: bool,
    pub focusable: bool,
}

impl Default for WasmAppConfig {
    fn default() -> (r: Self)
        ensures
            r.prevent_default,
            r.focusable,
    {
        Self { prevent_default: true, focusable: true }
    }
}

} // verus!
