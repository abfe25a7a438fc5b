use vstd::prelude::*;
use crate::keys::{Key, key_name};

verus! {

/// The longest key sequence the recognizer buffers before starting over.
pub const MAX_KEYS: usize = 6;

/// What a recognized command asks the editor to do.
#[derive(Clone, Copy, Debug, PartialEq, Eq, Structural)]
pub enum Action {
    ReqFile,
    SaveFile,
    ReqFolder,
}

/// The modifier keys held during a key press.
#[derive(Clone, Copy, Debug, PartialEq, Eq, Structural)]
pub struct Modifiers {
    pub shift: bool,
    pub control: bool,
    pub alt: bool,
    pub logo: bool,
}

/// The abstract state of a recognizer.
pub struct RecognizerView {
    pub bindings: Map<Seq<Key>, Action>,
    pub keys: Seq<Key>,
    pub pending: Option<Action>,
    pub accept: bool,
}

/// Keys that open capture on their own, without a preceding colon.
pub open spec fn is_trigger(k: Key) -> bool {
    k == Key::LControl || k == Key::RControl
}

/// Keys that are buffered rather than handled as commands of their own.
pub open spec fn is_plain(k: Key) -> bool {
    k != Key::Enter && k != Key::Escape && k != Key::Colon
}

/// The action bound to exactly `keys`, if any.
pub open spec fn lookup(bindings: Map<Seq<Key>, Action>, keys: Seq<Key>) -> Option<Action> {
    if bindings.contains_key(keys) {
        Some(bindings[keys])
    } else {
        None
    }
}

/// The state after a reset: empty buffer, nothing pending, not capturing.
pub open spec fn idle(s: RecognizerView) -> RecognizerView {
    RecognizerView { keys: Seq::empty(), pending: None, accept: false, ..s }
}

/// One transition of the recognizer on a key press: the next state and the
/// action dispatched, if any.
pub open spec fn step(s: RecognizerView, k: Key) -> (RecognizerView, Option<Action>) {
    if k == Key::Enter {
        (idle(s), s.pending)
    } else if k == Key::Escape {
        (idle(s), None)
    } else if k == Key::Colon {
        (RecognizerView { accept: true, ..s }, None)
    } else if s.accept || is_trigger(k) {
        let base = if s.keys.len() >= MAX_KEYS { Seq::empty() } else { s.keys };
        let keys = base.push(k);
        (RecognizerView { keys, pending: lookup(s.bindings, keys), accept: true, ..s }, None)
    } else {
        (s, None)
    }
}

/// The state after a run of key presses.
pub open spec fn run(s: RecognizerView, ks: Seq<Key>) -> RecognizerView
    decreases ks.len(),
{
    if ks.len() == 0 {
        s
    } else {
        step(run(s, ks.drop_last()), ks.last()).0
    }
}

/// The key names of a non-empty sequence, joined by dashes.
pub open spec fn joined_names(ks: Seq<Key>) -> Seq<char>
    decreases ks.len(),
{
    if ks.len() <= 1 {
        if ks.len() == 0 { Seq::empty() } else { key_name(ks[0]) }
    } else {
        joined_names(ks.drop_last()) + "-"@ + key_name(ks.last())
    }
}

/// The status-line text for a buffer.
pub open spec fn keys_text(ks: Seq<Key>) -> Seq<char> {
    if ks.len() == 0 {
        "empty"@
    } else {
        joined_names(ks)
    }
}

/// Collects key presses into command sequences and resolves them against
/// registered bindings.
pub struct ShortcutManager {
    shortcuts: Vec<(Vec<Key>, Action)>,
    keys: Vec<Key>,
    last_fn: Option<Action>,
    pub accept: bool,
}

/// Whether two key sequences are equal.
fn same_keys(a: &Vec<Key>, b: &Vec<Key>) -> (r: bool)
    ensures
        r == (a@ == b@),
{
    if a.len() != b.len() {
        return false;
    }
    let mut i: usize = 0;
    while i < a.len()
        invariant
            a@.len() == b@.len(),
            0 <= i <= a@.len(),
            forall|j: int| 0 <= j < i ==> a@[j] == b@[j],
        decreases a@.len() - i,
    {
        if a[i] != b[i] {
            return false;
        }
        i = i + 1;
    }
    assert(a@ =~= b@);
    true
}

impl ShortcutManager {
    /// No two bindings share a key sequence, and the buffer is within bounds.
    pub closed spec fn wf(&self) -> bool {
        &&& forall|i: int, j: int|
            0 <= i < j < self.shortcuts@.len() ==> self.shortcuts@[i].0@ != self.shortcuts@[j].0@
        &&& self.keys@.len() <= MAX_KEYS
    }

    /// The registered bindings as a map from key sequence to action.
    pub closed spec fn bindings(&self) -> Map<Seq<Key>, Action> {
        Map::new(
            |ks: Seq<Key>| exists|i: int| 0 <= i < self.shortcuts@.len() && self.shortcuts@[i].0@ == ks,
            |ks: Seq<Key>|
                self.shortcuts@[choose|i: int|
                    0 <= i < self.shortcuts@.len() && self.shortcuts@[i].0@ == ks].1,
        )
    }

    pub closed spec fn view(&self) -> RecognizerView {
        RecognizerView {
            bindings: self.bindings(),
            keys: self.keys@,
            pending: self.last_fn,
            accept: self.accept,
        }
    }

    /// An idle recognizer with no bindings.
    pub fn new() -> (r: Self)
        ensures
            r.wf(),
            r.view().bindings == Map::<Seq<Key>, Action>::empty(),
            r.view() == idle(r.view()),
    {
        let r = Self { shortcuts: Vec::new(), keys: Vec::new(), last_fn: None, accept: false };
        assert(r.bindings() =~= Map::<Seq<Key>, Action>::empty());
        r
    }

    /// The buffer as status-line text: key names joined by dashes, or "empty".
    pub fn current_keys_str(&self) -> (r: String)
        ensures
            r@ == keys_text(self.view().keys),
    {
        Self::keys_to_string(&self.keys)
    }

    fn keys_to_string(ks: &Vec<Key>) -> (r: String)
        ensures
            r@ == keys_text(ks@),
    {
        if ks.len() == 0 {
            return String::from_str("empty");
        }
        let mut s = String::from_str(ks[0].name());
        assert(ks@.take(1).drop_last() =~= Seq::<Key>::empty());
        let mut i: usize = 1;
        while i < ks.len()
            invariant
                1 <= i <= ks@.len(),
                s@ == joined_names(ks@.take(i as int)),
            decreases ks@.len() - i,
        {
            s.append("-");
            s.append(ks[i].name());
            assert(ks@.take(i + 1).drop_last() =~= ks@.take(i as int));
            i = i + 1;
        }
        assert(ks@.take(ks@.len() as int) =~= ks@);
        s
    }

    /// The index of the binding for `ks`, if there is one.
    fn find(&self, ks: &Vec<Key>) -> (r: Option<usize>)
        ensures
            match r {
                Some(i) => i < self.shortcuts@.len() && self.shortcuts@[i as int].0@ == ks@,
                None => forall|j: int| 0 <= j < self.shortcuts@.len() ==> self.shortcuts@[j].0@ != ks@,
            },
    {
        let mut i: usize = 0;
        while i < self.shortcuts.len()
            invariant
                0 <= i <= self.shortcuts@.len(),
                forall|j: int| 0 <= j < i ==> self.shortcuts@[j].0@ != ks@,
            decreases self.shortcuts@.len() - i,
        {
            if same_keys(&self.shortcuts[i].0, ks) {
                return Some(i);
            }
            i = i + 1;
        }
        None
    }

    /// Binds `shortcut` to `handler`, replacing any earlier binding of it.
    pub fn register(&mut self, shortcut: Vec<Key>, handler: Action)
        requires
            old(self).wf(),
        ensures
            final(self).wf(),
            final(self).view() == (RecognizerView {
                bindings: old(self).view().bindings.insert(shortcut@, handler),
                ..old(self).view()
            }),
    {
        let ghost ks = shortcut@;
        let _ = self.unregister_seq(&shortcut);
        let ghost mid = self.shortcuts@;
        let ghost mid_b = self.bindings();
        self.shortcuts.push((shortcut, handler));
        proof {
            let n = mid.len() as int;
            assert(self.shortcuts@[n].0@ == ks);
            assert forall|i: int, j: int|
                0 <= i < j < self.shortcuts@.len() implies self.shortcuts@[i].0@ != self.shortcuts@[j].0@ by {
                assert(self.shortcuts@[i] == mid[i]);
                if j < n {
                    assert(self.shortcuts@[j] == mid[j]);
                }
            }
            assert forall|k: Seq<Key>| #[trigger] self.bindings().contains_key(k)
                == mid_b.insert(ks, handler).contains_key(k) by {
                if k != ks && mid_b.contains_key(k) {
                    let m = choose|m: int| 0 <= m < mid.len() && mid[m].0@ == k;
                    assert(self.shortcuts@[m] == mid[m]);
                }
                if k != ks && self.bindings().contains_key(k) {
                    let m = choose|m: int| 0 <= m < self.shortcuts@.len() && self.shortcuts@[m].0@ == k;
                    assert(m < n);
                    assert(mid[m] == self.shortcuts@[m]);
                }
            }
            assert forall|k: Seq<Key>| #[trigger] self.bindings().contains_key(k) implies self.bindings()[k]
                == mid_b.insert(ks, handler)[k] by {
                let m = choose|m: int| 0 <= m < self.shortcuts@.len() && self.shortcuts@[m].0@ == k;
                if k == ks {
                    if m < n {
                        assert(mid[m] == self.shortcuts@[m]);
                    }
                } else {
                    assert(m < n);
                    assert(mid[m] == self.shortcuts@[m]);
                    let mo = choose|mo: int| 0 <= mo < mid.len() && mid[mo].0@ == k;
                    assert(self.shortcuts@[mo] == mid[mo]);
                }
            }
            assert(self.bindings() =~= mid_b.insert(ks, handler));
            assert(mid_b.insert(ks, handler) =~= old(self).bindings().insert(ks, handler));
        }
    }

    /// Removes the binding of `shortcut`, leaving no binding of it behind.
    fn unregister_seq(&mut self, shortcut: &Vec<Key>) -> (r: Option<Action>)
        requires
            old(self).wf(),
        ensures
            final(self).wf(),
            r == lookup(old(self).view().bindings, shortcut@),
            final(self).view() == (RecognizerView {
                bindings: old(self).view().bindings.remove(shortcut@),
                ..old(self).view()
            }),
            forall|j: int| 0 <= j < final(self).shortcuts@.len() ==> final(self).shortcuts@[j].0@ != shortcut@,
    {
        let ghost ks = shortcut@;
        match self.find(shortcut) {
            None => {
                assert(self.bindings() =~= old(self).bindings().remove(ks));
                None
            },
            Some(i) => {
                let ghost before = self.shortcuts@;
                let (_, a) = self.shortcuts.remove(i);
                let ghost after = self.shortcuts@;
                proof {
                assert(after =~= before.remove(i as int));
                assert forall|p: int, q: int|
                    0 <= p < q < after.len() implies after[p].0@ != after[q].0@ by {
                    let pp = if p < i { p } else { p + 1 };
                    let qq = if q < i { q } else { q + 1 };
                    assert(after[p] == before[pp] && after[q] == before[qq]);
                }
                assert forall|j: int| 0 <= j < after.len() implies after[j].0@ != ks by {
                    let jj = if j < i { j } else { j + 1 };
                    assert(after[j] == before[jj]);
                }
                assert forall|k: Seq<Key>| #[trigger] self.bindings().contains_key(k)
                    == old(self).bindings().remove(ks).contains_key(k) by {
                    if k != ks && old(self).bindings().contains_key(k) {
                        let m = choose|m: int| 0 <= m < before.len() && before[m].0@ == k;
                        assert(m != i);
                        let mm = if m < i { m } else { m - 1 };
                        assert(after[mm] == before[m]);
                    }
                    if self.bindings().contains_key(k) {
                        let m = choose|m: int| 0 <= m < after.len() && after[m].0@ == k;
                        let mm = if m < i { m } else { m + 1 };
                        assert(after[m] == before[mm]);
                    }
                }
                assert forall|k: Seq<Key>| #[trigger] self.bindings().contains_key(k) implies self.bindings()[k]
                    == old(self).bindings()[k] by {
                    let m = choose|m: int| 0 <= m < after.len() && after[m].0@ == k;
                    let mm = if m < i { m } else { m + 1 };
                    assert(after[m] == before[mm]);
                    let mo = choose|mo: int| 0 <= mo < before.len() && before[mo].0@ == k;
                    assert(mo == mm);
                }
                assert(self.bindings() =~= old(self).bindings().remove(ks));
                let ii = i as int;
                assert(before[ii].0@ == ks);
                let mo = choose|mo: int| 0 <= mo < before.len() && before[mo].0@ == ks;
                assert(mo == ii);
                }
                Some(a)
            },
        }
    }

    /// Removes the binding of `shortcut` and returns the action it had.
    pub fn unregister(&mut self, shortcut: Vec<Key>) -> (r: Option<Action>)
        requires
            old(self).wf(),
        ensures
            final(self).wf(),
            r == lookup(old(self).view().bindings, shortcut@),
            final(self).view() == (RecognizerView {
                bindings: old(self).view().bindings.remove(shortcut@),
                ..old(self).view()
            }),
    {
        self.unregister_seq(&shortcut)
    }

    /// Empties the buffer, clears the pending action and stops capturing.
    pub fn reset(&mut self)
        requires
            old(self).wf(),
        ensures
            final(self).wf(),
            final(self).view() == idle(old(self).view()),
    {
        self.keys.clear();
        self.accept = false;
        self.last_fn = None;
    }

    /// Whether a key press would be buffered: capture is on, or the key opens it.
    pub fn is_accepting(&self, key: Key) -> (r: bool)
        ensures
            r == (self.view().accept || is_trigger(key)),
    {
        self.accept || match key {
            Key::LControl | Key::RControl => true,
            _ => false,
        }
    }

    /// Handles one key press and returns the action to dispatch, if any.
    pub fn receive(&mut self, key: Key, _modifiers: Modifiers) -> (r: Option<Action>)
        requires
            old(self).wf(),
        ensures
            final(self).wf(),
            (final(self).view(), r) == step(old(self).view(), key),
    {
        match key {
            Key::Enter => {
                let f = self.last_fn;
                self.reset();
                f
            },
            Key::Escape => {
                self.reset();
                None
            },
            Key::Colon => {
                self.accept = true;
                None
            },
            _ => {
                if self.is_accepting(key) {
                    self.accept = true;
                    if self.keys.len() >= MAX_KEYS {
                        self.reset();
                        self.accept = true;
                    }
                    self.keys.push(key);
                    match self.find(&self.keys) {
                        Some(i) => {
                            self.last_fn = Some(self.shortcuts[i].1);
                            proof {
                                let m = choose|m: int|
                                    0 <= m < self.shortcuts@.len() && self.shortcuts@[m].0@ == self.keys@;
                                assert(m == i);
                            }
                        },
                        None => {
                            self.last_fn = None;
                        },
                    }
                }
                None
            },
        }
    }
}

/// Plain keys pressed while the buffer has room are appended to it, in order.
proof fn lemma_run_appends(s: RecognizerView, ks: Seq<Key>)
    requires
        s.keys.len() + ks.len() <= MAX_KEYS,
        forall|i: int| 0 <= i < ks.len() ==> is_plain(#[trigger] ks[i]),
        ks.len() > 0 ==> (s.accept || is_trigger(ks[0])),
    ensures
        run(s, ks).bindings == s.bindings,
        run(s, ks).keys == s.keys + ks,
        ks.len() > 0 ==> run(s, ks).accept,
        ks.len() > 0 ==> run(s, ks).pending == lookup(s.bindings, s.keys + ks),
    decreases ks.len(),
{
    if ks.len() == 0 {
        assert(s.keys + ks =~= s.keys);
    } else {
        let pre = ks.drop_last();
        assert forall|i: int| 0 <= i < pre.len() implies is_plain(#[trigger] pre[i]) by {
            assert(pre[i] == ks[i]);
        }
        if pre.len() > 0 {
            assert(pre[0] == ks[0]);
        }
        lemma_run_appends(s, pre);
        assert(is_plain(ks[ks.len() - 1]));
        assert((s.keys + pre).push(ks.last()) =~= s.keys + ks);
    }
}

/// After `ks` is bound to `a`, typing `ks` from an empty buffer and then Enter
/// dispatches `a` and empties the buffer.
pub proof fn lemma_register_then_replay(s: RecognizerView, ks: Seq<Key>, a: Action)
    requires
        s.keys.len() == 0,
        0 < ks.len() <= MAX_KEYS,
        forall|i: int| 0 <= i < ks.len() ==> is_plain(#[trigger] ks[i]),
        s.accept || is_trigger(ks[0]),
    ensures
        ({
            let t = RecognizerView { bindings: s.bindings.insert(ks, a), ..s };
            &&& step(run(t, ks), Key::Enter).1 == Some(a)
            &&& step(run(t, ks), Key::Enter).0.keys.len() == 0
            &&& keys_text(step(run(t, ks), Key::Enter).0.keys) == "empty"@
        }),
{
    let t = RecognizerView { bindings: s.bindings.insert(ks, a), ..s };
    lemma_run_appends(t, ks);
    assert(t.keys + ks =~= ks);
}

/// Escape, at any point, dispatches nothing and empties the buffer, whose
/// status text is then "empty".
pub proof fn lemma_escape_cancels(s: RecognizerView)
    ensures
        step(s, Key::Escape).1 == None::<Action>,
        step(s, Key::Escape).0 == idle(s),
        step(s, Key::Escape).0.keys.len() == 0,
        keys_text(step(s, Key::Escape).0.keys) == "empty"@,
{
}

/// One plain key more than the buffer holds starts the buffer over: capture
/// goes on, and the buffer holds that key alone.
pub proof fn lemma_overflow_restarts(s: RecognizerView, ks: Seq<Key>)
    requires
        s.keys.len() == 0,
        ks.len() == MAX_KEYS + 1,
        forall|i: int| 0 <= i < ks.len() ==> is_plain(#[trigger] ks[i]),
        s.accept || is_trigger(ks[0]),
    ensures
        run(s, ks).keys == seq![ks[MAX_KEYS as int]],
        run(s, ks).accept,
        run(s, ks).bindings == s.bindings,
{
    let pre = ks.drop_last();
    assert forall|i: int| 0 <= i < pre.len() implies is_plain(#[trigger] pre[i]) by {
        assert(pre[i] == ks[i]);
    }
    assert(pre[0] == ks[0]);
    lemma_run_appends(s, pre);
    assert(is_plain(ks[MAX_KEYS as int]));
    assert(Seq::<Key>::empty().push(ks.last()) =~= seq![ks[MAX_KEYS as int]]);
}

/// After the binding of `ks` is removed, typing `ks` from an empty buffer and
/// then Enter dispatches nothing.
pub proof fn lemma_unregister_then_replay(s: RecognizerView, ks: Seq<Key>)
    requires
        s.keys.len() == 0,
        0 < ks.len() <= MAX_KEYS,
        forall|i: int| 0 <= i < ks.len() ==> is_plain(#[trigger] ks[i]),
        s.accept || is_trigger(ks[0]),
    ensures
        ({
            let t = RecognizerView { bindings: s.bindings.remove(ks), ..s };
            &&& step(run(t, ks), Key::Enter).1 == None::<Action>
            &&& step(run(t, ks), Key::Enter).0.keys.len() == 0
        }),
{
    let t = RecognizerView { bindings: s.bindings.remove(ks), ..s };
    lemma_run_appends(t, ks);
    assert(t.keys + ks =~= ks);
}

} // verus!
