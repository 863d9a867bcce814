//! Keyboard button state for the interactive front end.
//!
//! Each key is tracked through a small state machine: a key-down event on a
//! released (or unknown) key makes it `Pressed`; the end-of-frame sweep
//! turns every `Pressed` into `Held`, so a press is counted for exactly one
//! frame; a key-up event makes it `Released`. Timestamps are plain ticks
//! (the front end picks the unit); the duration a key has been held is the
//! difference between now and the press timestamp.

use vstd::prelude::*;

verus! {

/// The state of one button: freshly pressed this frame, held since a press,
/// or released. Press and hold carry the press timestamp in ticks.
#[derive(Clone, Copy, Debug, PartialEq, Eq, Structural)]
pub enum ButtonState {
    Pressed(u64),
    Held(u64),
    Released,
}

/// The mapping a list of (keycode, state) entries denotes; a later entry
/// for a key overrides an earlier one.
pub open spec fn states_map(s: Seq<(u32, ButtonState)>) -> Map<u32, ButtonState>
    decreases s.len(),
{
    if s.len() == 0 {
        Map::empty()
    } else {
        states_map(s.drop_last()).insert(s.last().0, s.last().1)
    }
}

/// No keycode occurs twice.
pub open spec fn keys_distinct(s: Seq<(u32, ButtonState)>) -> bool {
    forall|i: int, j: int|
        #![trigger s[i], s[j]]
        0 <= i < j < s.len() ==> s[i].0 != s[j].0
}

/// What the end-of-frame sweep does to one state: a fresh press becomes
/// held (from the same press time); everything else stays.
pub open spec fn swept_state(st: ButtonState) -> ButtonState {
    match st {
        ButtonState::Pressed(t) => ButtonState::Held(t),
        other => other,
    }
}

/// Tracks the state of every key that has seen an event, keyed by scancode.
pub struct Keyboard {
    key_states: Vec<(u32, ButtonState)>,
}

impl View for Keyboard {
    type V = Map<u32, ButtonState>;

    closed spec fn view(&self) -> Map<u32, ButtonState> {
        states_map(self.key_states@)
    }
}

/// An entry's binding is in the map, when keys are distinct.
proof fn lemma_states_map_index(s: Seq<(u32, ButtonState)>, i: int)
    requires
        keys_distinct(s),
        0 <= i < s.len(),
    ensures
        states_map(s).contains_key(s[i].0),
        states_map(s)[s[i].0] == s[i].1,
    decreases s.len(),
{
    if i < s.len() - 1 {
        let sub = s.drop_last();
        assert(keys_distinct(sub)) by {
            assert(forall|a: int, b: int|
                #![trigger sub[a], sub[b]]
                0 <= a < b < sub.len() ==> sub[a] == s[a] && sub[b] == s[b]);
        }
        lemma_states_map_index(sub, i);
        assert(s.last().0 != s[i].0);
    }
}

/// A keycode no entry holds is not in the map.
proof fn lemma_states_map_missing(s: Seq<(u32, ButtonState)>, key: u32)
    requires
        forall|i: int| 0 <= i < s.len() ==> (#[trigger] s[i]).0 != key,
    ensures
        !states_map(s).contains_key(key),
    decreases s.len(),
{
    if s.len() > 0 {
        lemma_states_map_missing(s.drop_last(), key);
    }
}

/// Updating the entry of a key rewrites its binding and nothing else.
proof fn lemma_states_map_update(s: Seq<(u32, ButtonState)>, i: int, st: ButtonState)
    requires
        keys_distinct(s),
        0 <= i < s.len(),
    ensures
        states_map(s.update(i, (s[i].0, st))) == states_map(s).insert(s[i].0, st),
    decreases s.len(),
{
    let t = s.update(i, (s[i].0, st));
    if i == s.len() - 1 {
        assert(t.drop_last() =~= s.drop_last());
        assert(states_map(t) =~= states_map(s).insert(s[i].0, st));
    } else {
        let sub = s.drop_last();
        assert(keys_distinct(sub)) by {
            assert(forall|a: int, b: int|
                #![trigger sub[a], sub[b]]
                0 <= a < b < sub.len() ==> sub[a] == s[a] && sub[b] == s[b]);
        }
        assert(t.drop_last() =~= sub.update(i, (s[i].0, st)));
        lemma_states_map_update(sub, i, st);
        assert(s.last().0 != s[i].0);
        assert(states_map(t) =~= states_map(s).insert(s[i].0, st));
    }
}

/// Transforming every value entry-by-entry transforms the map pointwise and
/// keeps its keys.
proof fn lemma_states_map_transformed(
    a: Seq<(u32, ButtonState)>,
    b: Seq<(u32, ButtonState)>,
    f: spec_fn(ButtonState) -> ButtonState,
)
    requires
        a.len() == b.len(),
        forall|j: int| 0 <= j < a.len() ==> #[trigger] b[j] == (a[j].0, f(a[j].1)),
    ensures
        states_map(b).dom() == states_map(a).dom(),
        forall|k: u32|
            states_map(a).contains_key(k) ==> #[trigger] states_map(b)[k] == f(states_map(a)[k]),
    decreases a.len(),
{
    if a.len() > 0 {
        let sa = a.drop_last();
        let sb = b.drop_last();
        assert(forall|j: int| 0 <= j < sa.len() ==> #[trigger] sb[j] == (sa[j].0, f(sa[j].1)))
            by {
            assert(forall|j: int|
                0 <= j < sa.len() ==> sb[j] == b[j] && #[trigger] sa[j] == a[j]);
        }
        lemma_states_map_transformed(sa, sb, f);
        assert(b.last() == (a.last().0, f(a.last().1)));
        assert(states_map(b).dom() =~= states_map(a).dom());
    } else {
        assert(states_map(b).dom() =~= states_map(a).dom());
    }
}

impl Keyboard {
    /// Keycodes are unique, so each key has the one binding the view gives.
    pub closed spec fn wf(&self) -> bool {
        keys_distinct(self.key_states@)
    }

    /// A keyboard that has seen no events.
    pub fn new() -> (r: Keyboard)
        ensures
            r.wf(),
            r@ == Map::<u32, ButtonState>::empty(),
    {
        Keyboard { key_states: Vec::new() }
    }

    /// The index of the entry for `keycode`, if the keyboard has seen it.
    fn find_key(&self, keycode: u32) -> (r: Option<usize>)
        requires
            self.wf(),
        ensures
            match r {
                Some(i) => i < self.key_states@.len() && self.key_states@[i as int].0 == keycode,
                None => forall|j: int|
                    0 <= j < self.key_states@.len() ==> (#[trigger] self.key_states@[j]).0
                        != keycode,
            },
    {
        let n = self.key_states.len();
        for i in 0..n
            invariant
                n == self.key_states@.len(),
                forall|j: int| 0 <= j < i ==> (#[trigger] self.key_states@[j]).0 != keycode,
        {
            if self.key_states[i].0 == keycode {
                return Some(i);
            }
        }
        None
    }

    /// The state of a key, or `None` for a key that has seen no event.
    pub fn get_key_state(&self, keycode: u32) -> (r: Option<ButtonState>)
        requires
            self.wf(),
        ensures
            match r {
                Some(st) => self@.contains_key(keycode) && st == self@[keycode],
                None => !self@.contains_key(keycode),
            },
    {
        match self.find_key(keycode) {
            Some(i) => {
                proof {
                    lemma_states_map_index(self.key_states@, i as int);
                }
                Some(self.key_states[i].1)
            },
            None => {
                proof {
                    lemma_states_map_missing(self.key_states@, keycode);
                }
                None
            },
        }
    }

    /// Whether the key was pressed this frame.
    pub fn is_key_pressed(&self, keycode: u32) -> (r: bool)
        requires
            self.wf(),
        ensures
            r == (self@.contains_key(keycode) && self@[keycode] is Pressed),
    {
        match self.get_key_state(keycode) {
            Some(ButtonState::Pressed(_)) => true,
            _ => false,
        }
    }

    /// How long the key has been held, in ticks up to `now`, or `None` for
    /// a key that is not held.
    pub fn is_key_held(&self, keycode: u32, now: u64) -> (r: Option<u64>)
        requires
            self.wf(),
        ensures
            match r {
                Some(d) => {
                    &&& self@.contains_key(keycode)
                    &&& self@[keycode] is Held
                    &&& d == ({
                        let start = self@[keycode]->Held_0;
                        if now >= start {
                            now - start
                        } else {
                            0
                        }
                    })
                },
                None => !self@.contains_key(keycode) || !(self@[keycode] is Held),
            },
    {
        match self.get_key_state(keycode) {
            Some(ButtonState::Held(start)) => {
                if now >= start {
                    Some(now - start)
                } else {
                    Some(0)
                }
            },
            _ => None,
        }
    }

    /// Rebind one key.
    fn set_key_state(&mut self, keycode: u32, st: ButtonState)
        requires
            old(self).wf(),
        ensures
            final(self).wf(),
            final(self)@ == old(self)@.insert(keycode, st),
    {
        match self.find_key(keycode) {
            Some(i) => {
                proof {
                    lemma_states_map_update(self.key_states@, i as int, st);
                }
                let slot = &mut self.key_states[i];
                *slot = (keycode, st);
            },
            None => {
                proof {
                    assert(self.key_states@.push((keycode, st)).drop_last() =~= self.key_states@);
                }
                self.key_states.push((keycode, st));
            },
        }
    }

    /// Feed one key event: a key-down on a key that is released (or never
    /// seen) makes it pressed at `now`; a repeated key-down changes
    /// nothing; a key-up releases the key.
    pub fn handle_key_event(&mut self, scancode: u32, pressed: bool, now: u64)
        requires
            old(self).wf(),
        ensures
            final(self).wf(),
            final(self)@ == (if pressed {
                if !old(self)@.contains_key(scancode) || old(self)@[scancode] is Released {
                    old(self)@.insert(scancode, ButtonState::Pressed(now))
                } else {
                    old(self)@
                }
            } else {
                old(self)@.insert(scancode, ButtonState::Released)
            }),
    {
        if pressed {
            let fresh = match self.get_key_state(scancode) {
                None => true,
                Some(ButtonState::Released) => true,
                _ => false,
            };
            if fresh {
                self.set_key_state(scancode, ButtonState::Pressed(now));
            }
        } else {
            self.set_key_state(scancode, ButtonState::Released);
        }
    }

    /// The end-of-frame sweep: every key pressed this frame becomes held
    /// (same press time), so a press counts as a press for one frame only.
    pub fn clear_presses(&mut self)
        requires
            old(self).wf(),
        ensures
            final(self).wf(),
            final(self)@.dom() == old(self)@.dom(),
            forall|k: u32|
                old(self)@.contains_key(k) ==> #[trigger] final(self)@[k] == swept_state(
                    old(self)@[k],
                ),
    {
        let ghost orig = self.key_states@;
        let n = self.key_states.len();
        for i in 0..n
            invariant
                n == self.key_states@.len(),
                orig.len() == n,
                forall|j: int|
                    0 <= j < i ==> #[trigger] self.key_states@[j] == (
                        orig[j].0,
                        swept_state(orig[j].1),
                    ),
                forall|j: int| i <= j < n ==> #[trigger] self.key_states@[j] == orig[j],
        {
            let entry = self.key_states[i];
            let new_state = match entry.1 {
                ButtonState::Pressed(t) => ButtonState::Held(t),
                other => other,
            };
            let slot = &mut self.key_states[i];
            *slot = (entry.0, new_state);
        }
        proof {
            assert(forall|j: int|
                0 <= j < orig.len() ==> #[trigger] self.key_states@[j] == (
                    orig[j].0,
                    swept_state(orig[j].1),
                ));
            lemma_states_map_transformed(
                orig,
                self.key_states@,
                |st: ButtonState| swept_state(st),
            );
            assert(keys_distinct(self.key_states@)) by {
                assert(forall|a: int, b: int|
                    #![trigger self.key_states@[a], self.key_states@[b]]
                    0 <= a < b < orig.len() ==> self.key_states@[a].0 == orig[a].0
                        && self.key_states@[b].0 == orig[b].0);
            }
        }
    }
}

} // verus!
