//! Macro actions and the immutable per-device binding table.
//!
//! A binding table maps logical keys to actions. It is built once, before a
//! session starts, and never changes afterwards. Dispatch fires on release
//! events only; a key without a binding is a silent no-op. The actions
//! themselves (spawning a process, synthesizing input) are performed
//! outside this crate; here they are plain values, and a key sequence's
//! synthetic events are computed as a plan the performer follows.

use crate::config::{Macro, OneOfMacros, Shortcut};
use crate::keyboard::{
    pressed_events_of, released_events_of, spec_injectable, Key, KeyEvent, KeyEventType,
};
use vstd::prelude::*;

verus! {

/// A shell-command macro: program, arguments, environment overrides and an
/// optional identity to run as. Spawning is fire-and-forget: a spawn
/// failure is logged and discarded by the performer, never surfaced.
#[derive(Debug, Clone)]
pub struct ShellMacro {
    pub command: String,
    pub args: Vec<String>,
    pub envs: Option<Vec<(String, String)>>,
    pub uid: Option<u32>,
}

/// The synthetic events a key sequence emits when dispatched: a key-down
/// for every configured key in order, then a key-up for every configured
/// key in the same order.
pub open spec fn spec_injection_plan(keys: Seq<Key>) -> Seq<KeyEvent> {
    pressed_events_of(keys) + released_events_of(keys)
}

impl Shortcut {
    /// Computes the full, fixed plan of synthetic events for this key
    /// sequence. The performer sends them one by one with the configured
    /// delay; computing the plan up front means one failed synthesis can
    /// never cut the remaining events off.
    pub fn injection_plan(&self) -> (plan: Vec<KeyEvent>)
        ensures
            plan@ == spec_injection_plan(self.keys@),
    {
        let mut plan: Vec<KeyEvent> = Vec::new();
        let n: usize = self.keys.len();
        let mut i: usize = 0;
        proof {
            assert(self.keys@.take(0) =~= Seq::<Key>::empty());
            assert(plan@ =~= pressed_events_of(self.keys@.take(0)));
        }
        while i < n
            invariant
                i <= n,
                n == self.keys@.len(),
                plan@ == pressed_events_of(self.keys@.take(i as int)),
            decreases n - i,
        {
            let k = self.keys[i];
            plan.push(KeyEvent { key: k, event_type: KeyEventType::PRESSED });
            proof {
                assert(plan@ =~= pressed_events_of(self.keys@.take(i as int + 1)));
            }
            i += 1;
        }
        proof {
            assert(self.keys@.take(n as int) =~= self.keys@);
        }
        let mut j: usize = 0;
        proof {
            assert(self.keys@.take(0) =~= Seq::<Key>::empty());
            assert(plan@ =~= pressed_events_of(self.keys@) + released_events_of(
                self.keys@.take(0),
            ));
        }
        while j < n
            invariant
                j <= n,
                n == self.keys@.len(),
                plan@ == pressed_events_of(self.keys@) + released_events_of(
                    self.keys@.take(j as int),
                ),
            decreases n - j,
        {
            let k = self.keys[j];
            plan.push(KeyEvent { key: k, event_type: KeyEventType::RELEASED });
            proof {
                assert(plan@ =~= pressed_events_of(self.keys@) + released_events_of(
                    self.keys@.take(j as int + 1),
                ));
            }
            j += 1;
        }
        proof {
            assert(self.keys@.take(n as int) =~= self.keys@);
        }
        plan
    }
}

/// The first key of a key list that cannot be synthesized, if any.
pub open spec fn seq_first_uninjectable(keys: Seq<Key>) -> Option<Key>
    decreases keys.len(),
{
    if keys.len() == 0 {
        None
    } else if !spec_injectable(keys[0]) {
        Some(keys[0])
    } else {
        seq_first_uninjectable(keys.skip(1))
    }
}

/// The first key of one binding's action that cannot be synthesized, if
/// any. Shell commands reference no keys.
pub open spec fn entry_first_uninjectable(m: Macro) -> Option<Key> {
    match m.oneof_macro {
        OneOfMacros::Shell(_) => None,
        OneOfMacros::Shortcut(sc) => seq_first_uninjectable(sc.keys@),
    }
}

/// The first key of a binding list that cannot be synthesized, if any.
pub open spec fn spec_first_uninjectable(entries: Seq<Macro>) -> Option<Key>
    decreases entries.len(),
{
    if entries.len() == 0 {
        None
    } else if entry_first_uninjectable(entries[0]) is Some {
        entry_first_uninjectable(entries[0])
    } else {
        spec_first_uninjectable(entries.skip(1))
    }
}

/// The mapping a binding list denotes: later entries for the same key win,
/// as the entries are inserted in order.
pub open spec fn binding_map(entries: Seq<Macro>) -> Map<Key, OneOfMacros>
    decreases entries.len(),
{
    if entries.len() == 0 {
        Map::empty()
    } else {
        binding_map(entries.drop_last()).insert(entries.last().key, entries.last().oneof_macro)
    }
}

/// An entry that no later entry shadows decides the mapping for its key.
proof fn lemma_binding_map_last(entries: Seq<Macro>, i: int)
    requires
        0 <= i < entries.len(),
        forall|m: int| i < m < entries.len() ==> entries[m].key != entries[i].key,
    ensures
        binding_map(entries).dom().contains(entries[i].key),
        binding_map(entries)[entries[i].key] == entries[i].oneof_macro,
    decreases entries.len(),
{
    if i == entries.len() - 1 {
    } else {
        let pre = entries.drop_last();
        assert(pre[i] == entries[i]);
        assert(forall|m: int| i < m < pre.len() ==> pre[m] == entries[m]);
        lemma_binding_map_last(pre, i);
        assert(entries.last() == entries[entries.len() - 1]);
        assert(entries[entries.len() - 1].key != entries[i].key);
    }
}

/// A key no entry names is not in the mapping.
proof fn lemma_binding_map_absent(entries: Seq<Macro>, k: Key)
    requires
        forall|m: int| 0 <= m < entries.len() ==> entries[m].key != k,
    ensures
        !binding_map(entries).dom().contains(k),
    decreases entries.len(),
{
    if entries.len() == 0 {
    } else {
        let pre = entries.drop_last();
        assert(forall|m: int| 0 <= m < pre.len() ==> pre[m] == entries[m]);
        lemma_binding_map_absent(pre, k);
        assert(entries[entries.len() - 1].key != k);
    }
}

/// Finds the first key of a key list that cannot be synthesized.
fn first_uninjectable_key(keys: &Vec<Key>) -> (r: Option<Key>)
    ensures
        r == seq_first_uninjectable(keys@),
{
    let kn: usize = keys.len();
    let mut j: usize = 0;
    proof {
        assert(keys@.skip(0) =~= keys@);
    }
    while j < kn
        invariant
            j <= kn,
            kn == keys@.len(),
            seq_first_uninjectable(keys@) == seq_first_uninjectable(keys@.skip(j as int)),
        decreases kn - j,
    {
        let ghost ktail = keys@.skip(j as int);
        proof {
            assert(ktail[0] == keys@[j as int]);
            assert(ktail.skip(1) =~= keys@.skip(j as int + 1));
        }
        let k = keys[j];
        if !k.is_injectable() {
            proof {
                assert(seq_first_uninjectable(keys@) == Some(k));
            }
            return Some(k);
        }
        j += 1;
    }
    proof {
        assert(keys@.skip(kn as int) =~= Seq::<Key>::empty());
    }
    None
}

/// The immutable binding table of one device: built once from the
/// configured entries, validated, and read-only for the session's life.
pub struct MacroBinding {
    entries: Vec<Macro>,
}

impl View for MacroBinding {
    type V = Map<Key, OneOfMacros>;

    closed spec fn view(&self) -> Map<Key, OneOfMacros> {
        binding_map(self.entries@)
    }
}

impl MacroBinding {
    /// Builds the table from the configured entries, validating that every
    /// key a key sequence names can be synthesized. Returns the first key
    /// that cannot, as a configuration error, and succeeds exactly when
    /// there is none.
    ///
    /// The configuration loader is expected to hand in unique keys. Should
    /// a key nevertheless repeat, the table deliberately lets the latest
    /// entry win — the behaviour of inserting the entries, in order, into
    /// a map — as `binding_map` states.
    pub fn new(entries: Vec<Macro>) -> (r: Result<MacroBinding, Key>)
        ensures
            r is Ok <==> spec_first_uninjectable(entries@) is None,
            r matches Ok(b) ==> b@ == binding_map(entries@),
            r matches Err(k) ==> spec_first_uninjectable(entries@) == Some(k),
    {
        let n: usize = entries.len();
        let mut i: usize = 0;
        proof {
            assert(entries@.skip(0) =~= entries@);
        }
        while i < n
            invariant
                i <= n,
                n == entries@.len(),
                spec_first_uninjectable(entries@) == spec_first_uninjectable(
                    entries@.skip(i as int),
                ),
            decreases n - i,
        {
            let ghost tail = entries@.skip(i as int);
            proof {
                assert(tail[0] == entries@[i as int]);
                assert(tail.skip(1) =~= entries@.skip(i as int + 1));
            }
            match &entries[i].oneof_macro {
                OneOfMacros::Shell(_) => {
                    proof {
                        assert(entry_first_uninjectable(entries@[i as int]) is None);
                    }
                },
                OneOfMacros::Shortcut(sc) => {
                    match first_uninjectable_key(&sc.keys) {
                        Some(k) => {
                            proof {
                                assert(entry_first_uninjectable(entries@[i as int]) == Some(k));
                                assert(spec_first_uninjectable(entries@) == Some(k));
                            }
                            return Err(k);
                        },
                        None => {
                            proof {
                                assert(entry_first_uninjectable(entries@[i as int]) is None);
                            }
                        },
                    }
                },
            }
            i += 1;
        }
        proof {
            assert(entries@.skip(n as int) =~= Seq::<Macro>::empty());
        }
        Ok(MacroBinding { entries })
    }

    /// Looks the bound action for a key up; `None` exactly when the key has
    /// no binding. The latest configured entry for a key decides.
    pub fn lookup(&self, key: Key) -> (r: Option<&OneOfMacros>)
        ensures
            match r {
                Some(a) => self@.dom().contains(key) && self@[key] == *a,
                None => !self@.dom().contains(key),
            },
    {
        let mut idx: usize = self.entries.len();
        while idx > 0
            invariant
                idx <= self.entries@.len(),
                forall|m: int| idx <= m < self.entries@.len() ==> self.entries@[m].key != key,
            decreases idx,
    {
            idx = idx - 1;
            if self.entries[idx].key == key {
                proof {
                    lemma_binding_map_last(self.entries@, idx as int);
                }
                return Some(&self.entries[idx].oneof_macro);
            }
        }
        proof {
            lemma_binding_map_absent(self.entries@, key);
        }
        None
    }

    /// Dispatch decision for one decoded event: a `RELEASED` event looks
    /// its binding up, a `PRESSED` event never dispatches, and an unbound
    /// key is a silent no-op.
    pub fn action_for(&self, ev: &KeyEvent) -> (r: Option<&OneOfMacros>)
        ensures
            match r {
                Some(a) => ev.event_type == KeyEventType::RELEASED && self@.dom().contains(ev.key)
                    && self@[ev.key] == *a,
                None => ev.event_type == KeyEventType::PRESSED || !self@.dom().contains(ev.key),
            },
    {
        match ev.event_type {
            KeyEventType::PRESSED => None,
            KeyEventType::RELEASED => self.lookup(ev.key),
        }
    }
}

} // verus!
