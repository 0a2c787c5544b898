//! Named input actions bound to keys and mouse buttons.
use vstd::prelude::*;

verus! {

#[derive(Debug, Clone, PartialEq, Eq, Hash)]
pub enum ButtonSource {
    /// Debug spelling of a logical key (e.g., `Character("A")`, `Named(Enter)`).
    Key(String),
    MouseLeft,
    MouseRight,
    MouseMiddle,
    /// A gamepad button by name; gamepads are not read, so it never fires.
    GamepadButton(String),
}

#[derive(Debug, Clone)]
pub struct ButtonBinding {
    pub source: ButtonSource,
}

#[derive(Debug, Clone)]
pub enum AxisSource {
    /// Keys by debug spelling.
    KeyPair { negative: String, positive: String },
    /// A gamepad axis by name; gamepads are not read, so it stays at zero.
    GamepadAxis { name: String },
}

/// The input of one frame that buttons react to.
pub struct FrameButtons {
    /// Debug spellings of the keys pressed this frame.
    pub pressed_keys: Vec<String>,
    pub is_lmb_clicked: bool,
    pub is_rmb_clicked: bool,
    pub is_mmb_clicked: bool,
}

/// The binding fires in a frame with these pressed keys and mouse clicks.
pub open spec fn binding_fires(b: ButtonBinding, keys: Seq<String>, lmb: bool, rmb: bool, mmb: bool) -> bool {
    match b.source {
        ButtonSource::Key(s) => exists|j: int| 0 <= j < keys.len() && keys[j]@ == s@,
        ButtonSource::MouseLeft => lmb,
        ButtonSource::MouseRight => rmb,
        ButtonSource::MouseMiddle => mmb,
        ButtonSource::GamepadButton(_) => false,
    }
}

/// Some binding of the list fires.
pub open spec fn any_fires(bs: Seq<ButtonBinding>, keys: Seq<String>, lmb: bool, rmb: bool, mmb: bool) -> bool {
    exists|i: int| 0 <= i < bs.len() && binding_fires(#[trigger] bs[i], keys, lmb, rmb, mmb)
}

/// Names of the actions (in binding order) that have a firing binding.
pub open spec fn pressed_actions(
    entries: Seq<(Seq<char>, Seq<ButtonBinding>)>,
    keys: Seq<String>,
    lmb: bool,
    rmb: bool,
    mmb: bool,
) -> Seq<Seq<char>>
    decreases entries.len(),
{
    if entries.len() == 0 {
        Seq::empty()
    } else {
        let rest = pressed_actions(entries.drop_last(), keys, lmb, rmb, mmb);
        if any_fires(entries.last().1, keys, lmb, rmb, mmb) {
            rest.push(entries.last().0)
        } else {
            rest
        }
    }
}

/// Button actions: each action name with the bindings that press it.
pub struct ActionMap {
    button_bindings: Vec<(String, Vec<ButtonBinding>)>,
}

impl View for ActionMap {
    type V = Seq<(Seq<char>, Seq<ButtonBinding>)>;

    closed spec fn view(&self) -> Seq<(Seq<char>, Seq<ButtonBinding>)> {
        Seq::new(
            self.button_bindings@.len(),
            |i: int| (self.button_bindings@[i].0@, self.button_bindings@[i].1@),
        )
    }
}

/// String equality by contents.
fn string_eq(a: &String, b: &String) -> (r: bool)
    ensures
        r == (a@ == b@),
{
    *a == *b
}

impl ActionMap {
    /// Each action name occurs once.
    pub open spec fn wf(&self) -> bool {
        forall|i: int, j: int| 0 <= i < j < self@.len() ==> self@[i].0 != self@[j].0
    }

    pub fn new() -> (r: Self)
        ensures
            r.wf(),
            r@ == Seq::<(Seq<char>, Seq<ButtonBinding>)>::empty(),
    {
        ActionMap { button_bindings: Vec::new() }
    }

    /// Adds a binding to `action`, creating the action when it is new.
    pub fn bind_button(&mut self, action: String, source: ButtonSource)
        requires
            old(self).wf(),
        ensures
            final(self).wf(),
            ({
                let pre = old(self)@;
                let b = ButtonBinding { source };
                if exists|i: int| 0 <= i < pre.len() && pre[i].0 == action@ {
                    let i = choose|i: int| 0 <= i < pre.len() && pre[i].0 == action@;
                    final(self)@ == pre.update(i, (pre[i].0, pre[i].1.push(b)))
                } else {
                    final(self)@ == pre.push((action@, seq![b]))
                }
            }),
    {
        let ghost pre = self@;
        let mut i: usize = 0;
        while i < self.button_bindings.len()
            invariant
                i <= self.button_bindings@.len(),
                self@ == pre,
                pre == old(self)@,
                forall|a: int, b: int| 0 <= a < b < pre.len() ==> pre[a].0 != pre[b].0,
                forall|j: int| 0 <= j < i ==> pre[j].0 != action@,
            decreases self.button_bindings@.len() - i,
        {
            if string_eq(&self.button_bindings[i].0, &action) {
                assert(pre[i as int].0 == action@);
                let mut entry = self.button_bindings.remove(i);
                entry.1.push(ButtonBinding { source });
                self.button_bindings.insert(i, entry);
                proof {
                    let k = choose|k: int| 0 <= k < pre.len() && pre[k].0 == action@;
                    assert(k == i as int);
                    assert(self@ =~= pre.update(
                        i as int,
                        (pre[i as int].0, pre[i as int].1.push(ButtonBinding { source })),
                    ));
                    assert(pre == old(self)@);
                }
                return ;
            }
            i = i + 1;
        }
        let mut binds: Vec<ButtonBinding> = Vec::new();
        binds.push(ButtonBinding { source });
        self.button_bindings.push((action, binds));
        assert(self@ =~= pre.push((action@, seq![ButtonBinding { source }])));
        assert(pre == old(self)@);
    }

    /// Names of the actions pressed this frame: those with a binding that fired, in binding order.
    pub fn resolve_buttons(&self, frame: &FrameButtons) -> (r: Vec<String>)
        ensures
            Seq::new(r@.len(), |i: int| r@[i]@) == pressed_actions(
                self@,
                frame.pressed_keys@,
                frame.is_lmb_clicked,
                frame.is_rmb_clicked,
                frame.is_mmb_clicked,
            ),
    {
        let keys = &frame.pressed_keys;
        let (l, rr, m) = (frame.is_lmb_clicked, frame.is_rmb_clicked, frame.is_mmb_clicked);
        let mut pressed: Vec<String> = Vec::new();
        let mut i: usize = 0;
        while i < self.button_bindings.len()
            invariant
                i <= self@.len(),
                self@.len() == self.button_bindings@.len(),
                Seq::new(pressed@.len(), |t: int| pressed@[t]@) == pressed_actions(
                    self@.take(i as int),
                    keys@,
                    l,
                    rr,
                    m,
                ),
            decreases self@.len() - i,
        {
            let binds = &self.button_bindings[i].1;
            let mut fired = false;
            let mut j: usize = 0;
            while j < binds.len()
                invariant
                    j <= binds@.len(),
                    binds@ == self@[i as int].1,
                    fired == exists|t: int| 0 <= t < j && binding_fires(#[trigger] binds@[t], keys@, l, rr, m),
                decreases binds@.len() - j,
            {
                let f = match &binds[j].source {
                    ButtonSource::Key(s) => {
                        let mut found = false;
                        let mut t: usize = 0;
                        while t < keys.len()
                            invariant
                                t <= keys@.len(),
                                found == exists|q: int| 0 <= q < t && keys@[q]@ == s@,
                            decreases keys@.len() - t,
                        {
                            if string_eq(&keys[t], s) {
                                found = true;
                            }
                            t = t + 1;
                        }
                        found
                    },
                    ButtonSource::MouseLeft => l,
                    ButtonSource::MouseRight => rr,
                    ButtonSource::MouseMiddle => m,
                    ButtonSource::GamepadButton(_) => false,
                };
                assert(f == binding_fires(binds@[j as int], keys@, l, rr, m));
                fired = fired || f;
                j = j + 1;
            }
            let ghost before = pressed@;
            if fired {
                pressed.push(self.button_bindings[i].0.clone());
            }
            proof {
                assert(self@.take(i + 1).drop_last() =~= self@.take(i as int));
                assert(self@.take(i + 1).last() == self@[i as int]);
                assert(Seq::new(pressed@.len(), |t: int| pressed@[t]@) =~= pressed_actions(
                    self@.take(i + 1),
                    keys@,
                    l,
                    rr,
                    m,
                ));
            }
            i = i + 1;
        }
        assert(self@.take(self@.len() as int) =~= self@);
        pressed
    }
}

/// A binding to a key fires whenever that key is among the frame's pressed keys, wherever it is
/// in the list, and a binding to a mouse button fires when that button is clicked: the action
/// it belongs to is then among the pressed actions.
pub proof fn lemma_binding_presses_its_action(
    entries: Seq<(Seq<char>, Seq<ButtonBinding>)>,
    keys: Seq<String>,
    lmb: bool,
    rmb: bool,
    mmb: bool,
    i: int,
    b: int,
)
    requires
        0 <= i < entries.len(),
        0 <= b < entries[i].1.len(),
        ({
            let src = entries[i].1[b].source;
            ||| src matches ButtonSource::Key(s) && exists|j: int|
                0 <= j < keys.len() && (#[trigger] keys[j])@ == s@
            ||| src == ButtonSource::MouseLeft && lmb
            ||| src == ButtonSource::MouseRight && rmb
            ||| src == ButtonSource::MouseMiddle && mmb
        }),
    ensures
        pressed_actions(entries, keys, lmb, rmb, mmb).contains(entries[i].0),
    decreases entries.len(),
{
    let rest = pressed_actions(entries.drop_last(), keys, lmb, rmb, mmb);
    if i == entries.len() - 1 {
        let bs = entries.last().1;
        assert(binding_fires(bs[b], keys, lmb, rmb, mmb));
        assert(any_fires(bs, keys, lmb, rmb, mmb));
        assert(pressed_actions(entries, keys, lmb, rmb, mmb) == rest.push(entries.last().0));
        assert(rest.push(entries.last().0).last() == entries[i].0);
    } else {
        let d = entries.drop_last();
        assert(d[i] == entries[i]);
        lemma_binding_presses_its_action(d, keys, lmb, rmb, mmb, i, b);
        let k = choose|k: int| 0 <= k < rest.len() && rest[k] == entries[i].0;
        if any_fires(entries.last().1, keys, lmb, rmb, mmb) {
            assert(rest.push(entries.last().0)[k] == entries[i].0);
        }
    }
}

/// Nothing is pressed in a frame without mouse clicks whose pressed keys match no key binding.
pub proof fn lemma_nothing_pressed_without_input(
    entries: Seq<(Seq<char>, Seq<ButtonBinding>)>,
    keys: Seq<String>,
)
    requires
        forall|i: int, b: int, j: int|
            0 <= i < entries.len() && 0 <= b < entries[i].1.len() && 0 <= j < keys.len()
                ==> !((#[trigger] entries[i].1[b]).source matches ButtonSource::Key(s) && (
                #[trigger] keys[j])@ == s@),
    ensures
        pressed_actions(entries, keys, false, false, false) == Seq::<Seq<char>>::empty(),
    decreases entries.len(),
{
    if entries.len() > 0 {
        let d = entries.drop_last();
        assert forall|i: int, b: int, j: int|
            0 <= i < d.len() && 0 <= b < d[i].1.len() && 0 <= j < keys.len() implies !((
            #[trigger] d[i].1[b]).source matches ButtonSource::Key(s) && (#[trigger] keys[j])@
            == s@) by {
            assert(d[i] == entries[i]);
        }
        lemma_nothing_pressed_without_input(d, keys);
        let bs = entries.last().1;
        assert forall|t: int| 0 <= t < bs.len() implies !binding_fires(
            #[trigger] bs[t],
            keys,
            false,
            false,
            false,
        ) by {
            assert(bs[t] == entries[entries.len() - 1].1[t]);
            if let ButtonSource::Key(s) = bs[t].source {
                assert forall|j: int| 0 <= j < keys.len() implies keys[j]@ != s@ by {
                    assert(!(entries[entries.len() - 1].1[t].source matches ButtonSource::Key(s2)
                        && keys[j]@ == s2@));
                }
            }
        }
    }
}

/// The binding `b` fires directly from the frame's input: its key is among the pressed keys,
/// or its mouse button is clicked.
pub open spec fn source_active(b: ButtonBinding, keys: Seq<String>, lmb: bool, rmb: bool, mmb: bool) -> bool {
    ||| b.source matches ButtonSource::Key(s) && exists|j: int|
        0 <= j < keys.len() && (#[trigger] keys[j])@ == s@
    ||| b.source == ButtonSource::MouseLeft && lmb
    ||| b.source == ButtonSource::MouseRight && rmb
    ||| b.source == ButtonSource::MouseMiddle && mmb
}

/// Only actions with an active binding are pressed, each at most once, listed in binding order:
/// the `p`-th pressed action is the action at some index `at(p)`, increasing in `p`.
pub proof fn lemma_pressed_only_by_active_bindings(
    entries: Seq<(Seq<char>, Seq<ButtonBinding>)>,
    keys: Seq<String>,
    lmb: bool,
    rmb: bool,
    mmb: bool,
) -> (at: Seq<int>)
    ensures
        at.len() == pressed_actions(entries, keys, lmb, rmb, mmb).len(),
        forall|p: int|
            0 <= p < at.len() ==> 0 <= #[trigger] at[p] < entries.len() && entries[at[p]].0
                == pressed_actions(entries, keys, lmb, rmb, mmb)[p] && exists|b: int|
                0 <= b < entries[at[p]].1.len() && source_active(
                    #[trigger] entries[at[p]].1[b],
                    keys,
                    lmb,
                    rmb,
                    mmb,
                ),
        forall|p: int, q: int| 0 <= p < q < at.len() ==> #[trigger] at[p] < #[trigger] at[q],
    decreases entries.len(),
{
    if entries.len() == 0 {
        Seq::empty()
    } else {
        let d = entries.drop_last();
        let at0 = lemma_pressed_only_by_active_bindings(d, keys, lmb, rmb, mmb);
        let rest = pressed_actions(d, keys, lmb, rmb, mmb);
        assert forall|p: int| 0 <= p < at0.len() implies entries[at0[p]] == d[at0[p]] by {}
        if any_fires(entries.last().1, keys, lmb, rmb, mmb) {
            let bs = entries.last().1;
            let b = choose|b: int| 0 <= b < bs.len() && binding_fires(#[trigger] bs[b], keys, lmb, rmb, mmb);
            assert(source_active(entries[entries.len() - 1].1[b], keys, lmb, rmb, mmb));
            let at = at0.push(entries.len() - 1);
            assert forall|p: int| 0 <= p < at.len() implies 0 <= #[trigger] at[p] < entries.len()
                && entries[at[p]].0 == pressed_actions(entries, keys, lmb, rmb, mmb)[p] && exists|
                b: int|
                0 <= b < entries[at[p]].1.len() && source_active(
                    #[trigger] entries[at[p]].1[b],
                    keys,
                    lmb,
                    rmb,
                    mmb,
                ) by {
                if p < at0.len() {
                    assert(at[p] == at0[p]);
                    assert(rest.push(entries.last().0)[p] == rest[p]);
                } else {
                    assert(at[p] == entries.len() - 1);
                }
            }
            at
        } else {
            at0
        }
    }
}

} // verus!
