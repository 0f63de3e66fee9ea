//! Global hot keys: the keys a binding waits for, which bindings fire for a
//! given set of pressed keys, and the pressed-key set kept between events.
use vstd::prelude::*;

verus! {

/// A key that a global binding can wait for.
#[derive(Clone, Copy, PartialEq, Eq, Hash, Debug, Structural)]
pub enum Key {
    Space,
    Escape,
    Alt,
    Enter,
    Tab,
}

/// True when every key of `keys` is in `pressed`.
pub open spec fn all_pressed(keys: Seq<Key>, pressed: Set<Key>) -> bool {
    forall|i: int| 0 <= i < keys.len() ==> pressed.contains(#[trigger] keys[i])
}

/// The indices, in order, of the bindings whose keys are all in `pressed`.
pub open spec fn firing(bindings: Seq<Seq<Key>>, pressed: Set<Key>) -> Seq<usize>
    decreases bindings.len(),
{
    if bindings.len() == 0 {
        seq![]
    } else {
        let rest = firing(bindings.drop_last(), pressed);
        if all_pressed(bindings.last(), pressed) {
            rest.push((bindings.len() - 1) as usize)
        } else {
            rest
        }
    }
}

/// One global binding: the keys that must be held together.
pub struct KeyBinding {
    keys: Vec<Key>,
}

impl View for KeyBinding {
    type V = Seq<Key>;

    closed spec fn view(&self) -> Seq<Key> {
        self.keys@
    }
}

impl KeyBinding {
    /// The keys of this binding.
    pub fn keys(&self) -> (r: &Vec<Key>)
        ensures
            r@ == self@,
    {
        &self.keys
    }

    /// Whether every key of this binding is in `pressed`.
    pub fn is_held(&self, pressed: &PressedKeys) -> (r: bool)
        ensures
            r == all_pressed(self@, pressed@),
    {
        let mut i: usize = 0;
        while i < self.keys.len()
            invariant
                i <= self.keys.len(),
                forall|j: int| 0 <= j < i ==> pressed@.contains(#[trigger] self.keys@[j]),
            decreases self.keys.len() - i,
        {
            if !pressed.contains(self.keys[i]) {
                return false;
            }
            i += 1;
        }
        true
    }
}

/// The set of keys currently held down, as seen from press and release events.
pub struct PressedKeys {
    keys: Vec<Key>,
}

impl View for PressedKeys {
    type V = Set<Key>;

    closed spec fn view(&self) -> Set<Key> {
        self.keys@.to_set()
    }
}

impl PressedKeys {
    /// No key held.
    pub fn new() -> (r: Self)
        ensures
            r@ == Set::<Key>::empty(),
    {
        let r = PressedKeys { keys: Vec::new() };
        assert(r@ =~= Set::<Key>::empty());
        r
    }

    /// Whether `key` is held.
    pub fn contains(&self, key: Key) -> (r: bool)
        ensures
            r == self@.contains(key),
    {
        let mut i: usize = 0;
        while i < self.keys.len()
            invariant
                i <= self.keys.len(),
                forall|j: int| 0 <= j < i ==> self.keys@[j] != key,
            decreases self.keys.len() - i,
        {
            if self.keys[i] == key {
                assert(self.keys@.contains(key));
                return true;
            }
            i += 1;
        }
        assert(!self.keys@.contains(key));
        false
    }

    /// Records that `key` went down.
    pub fn press(&mut self, key: Key)
        ensures
            final(self)@ == old(self)@.insert(key),
    {
        if !self.contains(key) {
            self.keys.push(key);
        }
        proof {
            assert forall|k: Key| final(self)@.contains(k) == old(self)@.insert(key).contains(k) by {
                if old(self).keys@.contains(k) {
                    let j = choose|j: int| 0 <= j < old(self).keys@.len() && old(self).keys@[j] == k;
                    assert(final(self).keys@[j] == k);
                }
                if final(self).keys@.contains(k) && k != key {
                    let j = choose|j: int| 0 <= j < final(self).keys@.len() && final(self).keys@[j] == k;
                    assert(old(self).keys@[j] == k);
                }
                if k == key && old(self)@.contains(key) {
                } else if k == key {
                    assert(final(self).keys@[final(self).keys@.len() - 1] == key);
                }
            }
            assert(final(self)@ =~= old(self)@.insert(key));
        }
    }

    /// Records that `key` went up.
    pub fn release(&mut self, key: Key)
        ensures
            final(self)@ == old(self)@.remove(key),
    {
        let mut kept: Vec<Key> = Vec::new();
        let mut i: usize = 0;
        while i < self.keys.len()
            invariant
                i <= self.keys.len(),
                forall|x: Key|
                    kept@.contains(x) <==> (x != key && exists|j: int|
                        0 <= j < i && #[trigger] self.keys@[j] == x),
            decreases self.keys.len() - i,
        {
            let k = self.keys[i];
            let ghost before = kept@;
            if k != key {
                kept.push(k);
            }
            proof {
                assert forall|x: Key|
                    kept@.contains(x) <==> (x != key && exists|j: int|
                        0 <= j < i + 1 && #[trigger] self.keys@[j] == x) by {
                    if kept@.contains(x) {
                        let j = choose|j: int| 0 <= j < kept@.len() && kept@[j] == x;
                        if j < before.len() {
                            assert(before[j] == x);
                            assert(before.contains(x));
                        } else {
                            assert(self.keys@[i as int] == x);
                        }
                    }
                    if x != key && exists|j: int| 0 <= j < i + 1 && #[trigger] self.keys@[j] == x {
                        let j = choose|j: int| 0 <= j < i + 1 && #[trigger] self.keys@[j] == x;
                        if j < i {
                            assert(before.contains(x));
                            let t = choose|t: int| 0 <= t < before.len() && before[t] == x;
                            assert(kept@[t] == x);
                        } else {
                            assert(kept@[kept@.len() - 1] == x);
                        }
                    }
                }
            }
            i += 1;
        }
        let ghost before = self@;
        proof {
            assert forall|x: Key| kept@.contains(x) == before.remove(key).contains(x) by {
                if x != key && self.keys@.contains(x) {
                    let j = choose|j: int| 0 <= j < self.keys@.len() && self.keys@[j] == x;
                    assert(self.keys@[j] == x);
                }
            }
        }
        self.keys = kept;
        assert(self@ =~= before.remove(key));
    }
}

/// Pause in milliseconds after a binding fired while polling the keyboard,
/// so that one press does not fire it again and again.
pub const FIRE_PAUSE_MS: u64 = 300;

/// Pause in milliseconds between two polling rounds over all bindings.
pub const POLL_INTERVAL_MS: u64 = 100;

/// What polling does for one binding: whether it fires, and how long to
/// pause afterwards.
#[derive(Clone, Copy, PartialEq, Eq, Debug, Structural)]
pub struct PollStep {
    pub fire: bool,
    pub pause_ms: u64,
}

/// The global bindings, in the order in which they were made.
pub struct KeyboardHandler {
    bindings: Vec<KeyBinding>,
}

impl View for KeyboardHandler {
    type V = Seq<Seq<Key>>;

    closed spec fn view(&self) -> Seq<Seq<Key>> {
        self.bindings@.map_values(|b: KeyBinding| b@)
    }
}

impl KeyboardHandler {
    /// No binding yet.
    pub fn new() -> (r: Self)
        ensures
            r@ == Seq::<Seq<Key>>::empty(),
    {
        let r = KeyboardHandler { bindings: Vec::new() };
        assert(r@ =~= Seq::<Seq<Key>>::empty());
        r
    }

    /// Adds a binding for `keys` and returns its index, the number that the
    /// listener hands back when the binding fires.
    pub fn bind(&mut self, keys: Vec<Key>) -> (index: usize)
        ensures
            final(self)@ == old(self)@.push(keys@),
            index == old(self)@.len(),
    {
        let index = self.bindings.len();
        let ghost before = self.bindings@;
        self.bindings.push(KeyBinding { keys });
        assert(self@ =~= before.map_values(|b: KeyBinding| b@).push(keys@));
        index
    }

    /// The number of bindings.
    pub fn len(&self) -> (r: usize)
        ensures
            r == self@.len(),
    {
        self.bindings.len()
    }

    /// Whether binding `index` has all its keys in `pressed`.
    pub fn binding_held(&self, index: usize, pressed: &PressedKeys) -> (r: bool)
        requires
            index < self@.len(),
        ensures
            r == all_pressed(self@[index as int], pressed@),
    {
        self.bindings[index].is_held(pressed)
    }

    /// One step of polling the keyboard: binding `index` fires when all its
    /// keys are held, and then polling pauses before the next binding; a
    /// binding that does not fire costs no pause. A round over all bindings
    /// ends with a pause of `POLL_INTERVAL_MS`.
    pub fn poll_step(&self, index: usize, pressed: &PressedKeys) -> (r: PollStep)
        requires
            index < self@.len(),
        ensures
            r.fire == all_pressed(self@[index as int], pressed@),
            r.pause_ms == if r.fire {
                FIRE_PAUSE_MS
            } else {
                0
            },
    {
        if self.binding_held(index, pressed) {
            PollStep { fire: true, pause_ms: FIRE_PAUSE_MS }
        } else {
            PollStep { fire: false, pause_ms: 0 }
        }
    }

    /// The indices of all bindings whose keys are all in `pressed`, in order.
    pub fn held_bindings(&self, pressed: &PressedKeys) -> (r: Vec<usize>)
        ensures
            r@ == firing(self@, pressed@),
    {
        let mut r: Vec<usize> = Vec::new();
        let mut i: usize = 0;
        while i < self.bindings.len()
            invariant
                i <= self.bindings.len(),
                self@.len() == self.bindings.len(),
                r@ == firing(self@.take(i as int), pressed@),
            decreases self.bindings.len() - i,
        {
            assert(self@.take(i + 1).drop_last() =~= self@.take(i as int));
            if self.bindings[i].is_held(pressed) {
                r.push(i);
            }
            i += 1;
        }
        assert(self@.take(i as int) =~= self@);
        r
    }

    /// A key went down: records it in `pressed` and returns the bindings that
    /// now have all their keys held.
    pub fn key_down(&self, pressed: &mut PressedKeys, key: Key) -> (r: Vec<usize>)
        ensures
            final(pressed)@ == old(pressed)@.insert(key),
            r@ == firing(self@, old(pressed)@.insert(key)),
    {
        pressed.press(key);
        self.held_bindings(pressed)
    }

    /// A key went up: it leaves `pressed`; no binding fires on a release.
    pub fn key_up(&self, pressed: &mut PressedKeys, key: Key)
        ensures
            final(pressed)@ == old(pressed)@.remove(key),
    {
        pressed.release(key);
    }
}

/// The bindings that fire are exactly those whose keys are all held, each
/// named once and in increasing order.
pub proof fn law_firing_is_exact(bindings: Seq<Seq<Key>>, pressed: Set<Key>)
    requires
        bindings.len() <= usize::MAX,
    ensures
        forall|i: usize| #[trigger] firing(bindings, pressed).contains(i) <==> (i < bindings.len()
            && all_pressed(bindings[i as int], pressed)),
        forall|a: int, b: int|
            0 <= a < b < firing(bindings, pressed).len() ==> firing(bindings, pressed)[a]
                < firing(bindings, pressed)[b],
    decreases bindings.len(),
{
    if bindings.len() > 0 {
        let rest = bindings.drop_last();
        law_firing_is_exact(rest, pressed);
        let f = firing(bindings, pressed);
        let fr = firing(rest, pressed);
        let n = bindings.len() - 1;
        let fires = all_pressed(bindings.last(), pressed);
        if fires {
            assert(f == fr.push(n as usize));
        } else {
            assert(f == fr);
        }
        assert forall|i: usize| #[trigger] f.contains(i) <==> (i < bindings.len() && all_pressed(bindings[i as int], pressed)) by {
            if i < rest.len() {
                assert(rest[i as int] == bindings[i as int]);
            }
            if f.contains(i) {
                let k = choose|k: int| 0 <= k < f.len() && f[k] == i;
                if k < fr.len() {
                    assert(fr[k] == i);
                    assert(fr.contains(i));
                } else {
                    assert(i == n);
                }
            }
            if i < bindings.len() && all_pressed(bindings[i as int], pressed) {
                if i < rest.len() {
                    assert(fr.contains(i));
                    let k = choose|k: int| 0 <= k < fr.len() && fr[k] == i;
                    assert(f[k] == i);
                } else {
                    assert(i == n);
                    assert(f[f.len() - 1] == i);
                }
            }
        }
        assert forall|a: int, b: int| 0 <= a < b < f.len() implies f[a] < f[b] by {
            if b >= fr.len() {
                assert(fr.contains(fr[a]));
                assert(fr[a] < rest.len());
            }
        }
    }
}

/// A binding counts as held exactly when every one of its keys is itself
/// in the pressed set: its keys form a subset of the pressed keys. So a
/// binding that fires has each of its keys pressed, whatever else is held.
pub proof fn law_held_means_every_key_pressed(bindings: Seq<Seq<Key>>, keys: Seq<Key>, pressed: Set<Key>)
    requires
        bindings.len() <= usize::MAX,
    ensures
        all_pressed(keys, pressed) <==> keys.to_set().subset_of(pressed),
        forall|i: usize, k: Key|
            #![trigger firing(bindings, pressed).contains(i), bindings[i as int].contains(k)]
            firing(bindings, pressed).contains(i) && bindings[i as int].contains(k)
            ==> pressed.contains(k),
{
    assert(all_pressed(keys, pressed) ==> keys.to_set().subset_of(pressed)) by {
        if all_pressed(keys, pressed) {
            assert forall|k: Key| keys.to_set().contains(k) implies pressed.contains(k) by {
                let j = choose|j: int| 0 <= j < keys.len() && keys[j] == k;
                assert(pressed.contains(keys[j]));
            }
        }
    }
    assert(keys.to_set().subset_of(pressed) ==> all_pressed(keys, pressed)) by {
        if keys.to_set().subset_of(pressed) {
            assert forall|i: int| 0 <= i < keys.len() implies pressed.contains(#[trigger] keys[i]) by {
                assert(keys.contains(keys[i]));
                assert(keys.to_set().contains(keys[i]));
            }
        }
    }
    law_firing_is_exact(bindings, pressed);
    assert forall|i: usize, k: Key|
            #![trigger firing(bindings, pressed).contains(i), bindings[i as int].contains(k)]
            firing(bindings, pressed).contains(i) && bindings[i as int].contains(k)
        implies pressed.contains(k) by {
        let b = bindings[i as int];
        assert(all_pressed(b, pressed));
        let j = choose|j: int| 0 <= j < b.len() && b[j] == k;
        assert(pressed.contains(b[j]));
    }
}

/// Pressing a key that was not held and releasing it again leaves the held
/// keys as they were; releasing a key that is not held changes nothing.
pub proof fn law_press_release_round_trip(pressed: Set<Key>, key: Key)
    ensures
        !pressed.contains(key) ==> pressed.insert(key).remove(key) == pressed,
        !pressed.contains(key) ==> pressed.remove(key) == pressed,
        pressed.insert(key).insert(key) == pressed.insert(key),
{
    assert(!pressed.contains(key) ==> pressed.insert(key).remove(key) =~= pressed);
    assert(!pressed.contains(key) ==> pressed.remove(key) =~= pressed);
    assert(pressed.insert(key).insert(key) =~= pressed.insert(key));
}

} // verus!
