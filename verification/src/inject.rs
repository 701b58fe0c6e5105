//! From the engine's actions to what the keyboard of the host is asked to
//! do.

use crate::engine::{Action, ActionView, Key};
use vstd::prelude::*;

verus! {

/// One request to the host keyboard.
#[derive(Debug, PartialEq)]
pub enum KeyEvent {
    /// Press and release a key.
    Click(Key),
    /// Press a key.
    Down(Key),
    /// Release a key.
    Up(Key),
    /// Type a text.
    Type(String),
}

/// The mathematical value of a [`KeyEvent`].
pub enum KeyEventView {
    Click(Key),
    Down(Key),
    Up(Key),
    Type(Seq<char>),
}

impl View for KeyEvent {
    type V = KeyEventView;

    open spec fn view(&self) -> KeyEventView {
        match self {
            KeyEvent::Click(k) => KeyEventView::Click(*k),
            KeyEvent::Down(k) => KeyEventView::Down(*k),
            KeyEvent::Up(k) => KeyEventView::Up(*k),
            KeyEvent::Type(s) => KeyEventView::Type(s@),
        }
    }
}

impl DeepView for KeyEvent {
    type V = KeyEventView;

    open spec fn deep_view(&self) -> KeyEventView {
        self@
    }
}

/// What takes the first `n` of the actions back: one backspace for each
/// text action. Key actions are not taken back.
pub open spec fn erasing(del: Seq<ActionView>, n: nat) -> Seq<KeyEventView>
    decreases n,
{
    if n == 0 {
        Seq::empty()
    } else if del[n - 1] is Text {
        erasing(del, (n - 1) as nat).push(KeyEventView::Click(Key::Backspace))
    } else {
        erasing(del, (n - 1) as nat)
    }
}

/// What performs one action: a line feed is typed with the return key, any
/// other text is typed as it is, and a key action is passed on.
pub open spec fn performing(action: ActionView) -> KeyEventView {
    match action {
        ActionView::Text(s) => if s == seq!['\n'] {
            KeyEventView::Click(Key::Return)
        } else {
            KeyEventView::Type(s)
        },
        ActionView::KeyClick(k) => KeyEventView::Click(k),
        ActionView::KeyDown(k) => KeyEventView::Down(k),
        ActionView::KeyUp(k) => KeyEventView::Up(k),
    }
}

/// What the host keyboard is asked to do for what a stroke returned: first
/// the actions of `del` are taken back, then those of `add` are performed.
pub open spec fn events_of(del: Seq<ActionView>, add: Seq<ActionView>) -> Seq<KeyEventView> {
    erasing(del, del.len()) + add.map_values(|a: ActionView| performing(a))
}

/// Whether the text is a single line feed.
fn is_line_feed(s: &String) -> (b: bool)
    ensures
        b == (s@ == seq!['\n']),
{
    let text = crate::text::chars_of(s.as_str());
    let b = text.len() == 1 && text[0] == '\n';
    proof {
        if b {
            assert(s@ =~= seq!['\n']);
        }
    }
    b
}

/// Turns what a stroke returned into requests to the host keyboard.
pub fn key_events(del: &Vec<Action>, add: &Vec<Action>) -> (events: Vec<KeyEvent>)
    ensures
        events.deep_view() == events_of(del.deep_view(), add.deep_view()),
{
    let mut events: Vec<KeyEvent> = Vec::new();
    let mut i: usize = 0;
    assert(events.deep_view() =~= erasing(del.deep_view(), 0));
    while i < del.len()
        invariant
            i <= del.len(),
            events.deep_view() == erasing(del.deep_view(), i as nat),
        decreases del.len() - i,
    {
        let ghost before = events.deep_view();
        match &del[i] {
            Action::Text(_) => {
                events.push(KeyEvent::Click(Key::Backspace));
                assert(events.deep_view() =~= before.push(KeyEventView::Click(Key::Backspace)));
            },
            _ => {},
        }
        i += 1;
    }
    let ghost erased = events.deep_view();
    let ghost wanted = add.deep_view().map_values(|a: ActionView| performing(a));
    let mut j: usize = 0;
    assert(events.deep_view() =~= erased + wanted.take(0));
    while j < add.len()
        invariant
            j <= add.len(),
            wanted == add.deep_view().map_values(|a: ActionView| performing(a)),
            events.deep_view() == erased + wanted.take(j as int),
        decreases add.len() - j,
    {
        let ghost before = events.deep_view();
        let event = match &add[j] {
            Action::Text(s) => if is_line_feed(s) {
                KeyEvent::Click(Key::Return)
            } else {
                KeyEvent::Type(s.clone())
            },
            Action::KeyClick(k) => KeyEvent::Click(*k),
            Action::KeyDown(k) => KeyEvent::Down(*k),
            Action::KeyUp(k) => KeyEvent::Up(*k),
        };
        assert(event@ == wanted[j as int]);
        events.push(event);
        assert(events.deep_view() =~= before.push(wanted[j as int]));
        assert(wanted.take(j + 1) =~= wanted.take(j as int).push(wanted[j as int]));
        j += 1;
    }
    assert(wanted.take(add.len() as int) =~= wanted);
    events
}

} // verus!
