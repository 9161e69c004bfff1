use vstd::arithmetic::div_mod::{lemma_mod_mod, lemma_small_mod};
use vstd::arithmetic::power::{lemma_pow_positive, pow};
use vstd::arithmetic::power2::{
    lemma2_to64, lemma2_to64_rest, lemma_pow2_pos, lemma_pow2_strictly_increases,
    lemma_pow2_adds, lemma_pow2_unfold, pow2, is_pow2, is_pow2_equiv, is_pow2_exists,
};
use vstd::prelude::*;
use vstd::relations::injective_on;
use vstd::set_lib::{lemma_int_range, lemma_len_subset, lemma_map_size, set_int_range};

verus! {

/// The largest table size the map grows to: the largest power of two a
/// `usize` holds.
pub const MAX_CAPACITY: usize = usize::MAX / 2 + 1;

/// The exponent of `MAX_CAPACITY`.
pub open spec fn max_exp() -> nat {
    if usize::MAX == 0xffff_ffff { 31 } else { 63 }
}

proof fn lemma_max_capacity()
    ensures
        MAX_CAPACITY as nat == pow2(max_exp()),
{
    lemma2_to64();
    lemma2_to64_rest();
    assert(usize::MAX == 0xffff_ffff || usize::MAX == 0xffff_ffff_ffff_ffff);
}

/// `f` can derive a key from every value, and derives the same key from the
/// same value each time.
pub open spec fn is_key_fn<V, F: Fn(&V) -> usize>(f: F) -> bool {
    &&& forall|v: &V| #[trigger] call_requires(f, (v,))
    &&& forall|v: &V, a: usize, b: usize|
        #[trigger] call_ensures(f, (v,), a) && #[trigger] call_ensures(f, (v,), b) ==> a == b
}

/// The key that `f` derives from `v`.
pub open spec fn key_of<V, F: Fn(&V) -> usize>(f: F, v: V) -> usize {
    choose|r: usize| call_ensures(f, (&v,), r)
}

/// No two distinct keys of `keys` fall into the same slot of a table of size `cap`.
pub open spec fn separates(keys: Set<usize>, cap: nat) -> bool {
    forall|a: usize, b: usize|
        #![trigger keys.contains(a), keys.contains(b)]
        keys.contains(a) && keys.contains(b) && a != b ==> slot_of(a, cap) != slot_of(b, cap)
}

/// Storing `k` in a table of `len` slots that holds `keys` meets another
/// key in `k`'s slot.
pub open spec fn collides_in(keys: Set<usize>, len: nat, k: usize) -> bool {
    &&& len > 0
    &&& exists|j: usize| #[trigger] keys.contains(j) && j != k && slot_of(j, len) == slot_of(k, len)
}

/// The key set fits the map: the largest table separates it.
pub open spec fn fits(keys: Set<usize>) -> bool {
    separates(keys, MAX_CAPACITY as nat)
}

/// The slot that key `k` names in a table of `len` slots.
pub open spec fn slot_of(k: usize, len: nat) -> int {
    (k as int) % (len as int)
}

proof fn lemma_separates_subset(small: Set<usize>, big: Set<usize>, cap: nat)
    requires
        small.subset_of(big),
        separates(big, cap),
    ensures
        separates(small, cap),
{
    assert forall|a: usize, b: usize|
        small.contains(a) && small.contains(b) && a != b implies slot_of(a, cap) != slot_of(b, cap) by {
        assert(big.contains(a) && big.contains(b));
    }
}

/// The first of `c`, `2c`, `4c`, ... at which `keys` is separated, or the
/// first that reaches `MAX_CAPACITY`.
pub open spec fn first_separating(keys: Set<usize>, c: nat) -> nat
    decreases 2 * (MAX_CAPACITY as int) - c,
{
    if c == 0 || c >= MAX_CAPACITY || separates(keys, c) {
        c
    } else {
        first_separating(keys, 2 * c)
    }
}

/// What `first_separating` finds for a set, it finds too for any larger set
/// starting from what it finds for the smaller one.
proof fn lemma_first_separating_subset(small: Set<usize>, big: Set<usize>, c: nat)
    requires
        small.subset_of(big),
    ensures
        first_separating(big, c) == first_separating(big, first_separating(small, c)),
    decreases 2 * (MAX_CAPACITY as int) - c,
{
    if c == 0 || c >= MAX_CAPACITY || separates(small, c) {
    } else {
        if separates(big, c) {
            lemma_separates_subset(small, big, c);
        }
        lemma_first_separating_subset(small, big, 2 * c);
    }
}

/// Keys below `MAX_CAPACITY` always fit.
pub proof fn lemma_small_keys_fit(keys: Set<usize>)
    requires
        forall|k: usize| #[trigger] keys.contains(k) ==> k < MAX_CAPACITY,
    ensures
        fits(keys),
{
    assert forall|a: usize, b: usize|
        keys.contains(a) && keys.contains(b) && a != b implies slot_of(a, MAX_CAPACITY as nat)
        != slot_of(b, MAX_CAPACITY as nat) by {
        lemma_small_mod(a as nat, MAX_CAPACITY as nat);
        lemma_small_mod(b as nat, MAX_CAPACITY as nat);
    }
}

/// A key that `f` returned for `v` is the key of `v`.
proof fn lemma_key_of<V, F: Fn(&V) -> usize>(f: F, v: V, k: usize)
    requires
        is_key_fn(f),
        call_ensures(f, (&v,), k),
    ensures
        key_of(f, v) == k,
{
    let r = key_of(f, v);
    assert(call_ensures(f, (&v,), r));
}

/// A map from keys to values, where each value's key is `index_fn` of it.
pub struct FnMap<V, F: Fn(&V) -> usize> {
    pub(crate) index_fn: F,
    pub(crate) buckets: Vec<Option<(usize, V)>>,
    pub(crate) exp: Ghost<nat>,
}

/// Exclusive access to one entry of a map, for changing its value.
///
/// The entry stays in its slot while the guard lives. A new value for it is
/// put in `replacement`; `release` then takes the entry out of its slot and
/// stores the guard's current value under the key that value has, moving it
/// if the key changed. Verus does not run a finalizing `Drop`, so release is
/// an explicit call: a guard dropped without it leaves the map as it was,
/// the entry in place with its old value.
pub struct MutGuard<'a, V, F: Fn(&V) -> usize> {
    /// The map, which the guard borrows exclusively.
    pub map: &'a mut FnMap<V, F>,
    /// The slot that holds the entry.
    pub slot: usize,
    /// The value the entry is to hold from release on, if it is to change.
    pub replacement: Option<V>,
}

impl<'a, V, F: Fn(&V) -> usize> MutGuard<'a, V, F> {
    /// The guard points at an entry of a valid map.
    pub open spec fn wf(&self) -> bool {
        self.map.wf() && self.map.holds_slot(self.slot as int)
    }

    /// The key of the guarded entry.
    pub open spec fn key(&self) -> usize {
        self.map.key_in_slot(self.slot as int)
    }

    /// The value the entry will hold once the guard is released.
    pub open spec fn current(&self) -> V {
        match self.replacement {
            Some(v) => v,
            None => self.map@[self.key()],
        }
    }

    /// The guard's current value: the replacement if there is one, else the
    /// value stored in the entry.
    pub fn value(&self) -> (r: &V)
        requires
            self.wf(),
        ensures
            *r == self.current(),
    {
        match &self.replacement {
            Some(v) => v,
            None => {
                proof {
                    self.map.lemma_slot(self.slot as int);
                }
                let e = self.map.buckets[self.slot].as_ref().unwrap();
                &e.1
            },
        }
    }

    /// Takes the entry out of its slot and stores the current value under
    /// the key it has now, replacing the value stored under that key if
    /// there is one.
    pub fn release(self)
        requires
            self.wf(),
            fits(self.map@.dom().remove(self.key()).insert(self.map.key(self.current()))),
        ensures
            final(self.map).wf(),
            final(self.map).key_fn() == old(self.map).key_fn(),
            final(self.map)@ == old(self.map)@.remove(self.key()).insert(
                old(self.map).key(self.current()),
                self.current(),
            ),
            call_ensures(old(self.map).key_fn(), (&self.current(),), old(self.map).key(self.current())),
            final(self.map).table_len() >= old(self.map).table_len(),
            !collides_in(
                old(self.map)@.dom().remove(self.key()),
                old(self.map).table_len(),
                old(self.map).key(self.current()),
            ) ==> final(self.map).table_len() == old(self.map).table_len(),
            collides_in(
                old(self.map)@.dom().remove(self.key()),
                old(self.map).table_len(),
                old(self.map).key(self.current()),
            ) ==> final(self.map).table_len() == first_separating(
                old(self.map)@.dom().remove(self.key()).insert(old(self.map).key(self.current())),
                2 * old(self.map).table_len(),
            ),
    {
        let ghost k = self.key();
        let ghost cur = self.current();
        let ghost before = *self.map;
        let MutGuard { map, slot, replacement } = self;
        proof {
            before.lemma_slot(slot as int);
        }
        let taken = map.buckets[slot].take();
        proof {
            assert(map@ =~= before@.remove(k));
        }
        let v = match replacement {
            Some(v) => v,
            None => taken.unwrap().1,
        };
        map.insert(v);
    }
}

impl<V, F: Fn(&V) -> usize> FnMap<V, F> {
    /// The function that derives keys.
    pub closed spec fn key_fn(&self) -> F {
        self.index_fn
    }

    /// The key of `v` in this map.
    pub open spec fn key(&self, v: V) -> usize {
        key_of(self.key_fn(), v)
    }

    /// The number of slots.
    pub closed spec fn table_len(&self) -> nat {
        self.buckets@.len()
    }

    /// Storing under `k` meets an entry with another key in `k`'s slot.
    pub open spec fn collides(&self, k: usize) -> bool {
        collides_in(self@.dom(), self.table_len(), k)
    }

    /// Slot `s` holds an entry.
    pub closed spec fn holds_slot(&self, s: int) -> bool {
        0 <= s < self.buckets@.len() && self.buckets@[s] is Some
    }

    /// The key of the entry in slot `s`.
    pub closed spec fn key_in_slot(&self, s: int) -> usize {
        self.buckets@[s]->Some_0.0
    }

    /// The entry in a held slot is the map's entry under its key.
    proof fn lemma_slot(&self, s: int)
        requires
            self.wf(),
            self.holds_slot(s),
        ensures
            self@.contains_key(self.key_in_slot(s)),
            self@[self.key_in_slot(s)] == self.buckets@[s]->Some_0.1,
            slot_of(self.key_in_slot(s), self.table_len()) == s,
    {
    }

    spec fn slot_has(&self, s: int, k: usize) -> bool {
        self.buckets@[s] matches Some(e) && e.0 == k
    }

    spec fn holds(&self, k: usize) -> bool {
        self.buckets@.len() > 0 && self.slot_has(slot_of(k, self.buckets@.len()), k)
    }

    /// The entries in slot order.
    pub closed spec fn entries(&self) -> Seq<(usize, V)> {
        entries_from(self.buckets@, 0)
    }

    pub(crate) proof fn lemma_reveal_table(&self)
        ensures
            self.entries() == entries_from(self.buckets@, 0),
            self.table_len() == self.buckets@.len(),
    {
    }

    /// The entries, by key.
    pub closed spec fn view(&self) -> Map<usize, V> {
        Map::new(
            |k: usize| self.holds(k),
            |k: usize| self.buckets@[slot_of(k, self.buckets@.len())]->Some_0.1,
        )
    }

    /// The internal invariant: each entry sits in the slot its key names
    /// and is stored with its own key, and the table size is zero or a power
    /// of two no larger than `MAX_CAPACITY`.
    pub closed spec fn wf(&self) -> bool {
        &&& is_key_fn(self.index_fn)
        &&& self.exp@ <= max_exp()
        &&& self.buckets@.len() == 0 || self.buckets@.len() == pow2(self.exp@)
        &&& forall|s: int|
            0 <= s < self.buckets@.len() && #[trigger] self.buckets@[s] is Some ==> {
                let e = self.buckets@[s]->Some_0;
                &&& slot_of(e.0, self.buckets@.len()) == s
                &&& key_of(self.index_fn, e.1) == e.0
            }
    }

    proof fn lemma_dom(&self, s: int)
        requires
            self.wf(),
            0 <= s < self.buckets@.len(),
            self.buckets@[s] is Some,
        ensures
            self@.contains_key(self.buckets@[s]->Some_0.0),
            self@[self.buckets@[s]->Some_0.0] == self.buckets@[s]->Some_0.1,
    {
    }

    spec fn occupied(&self, j: int) -> bool {
        self.buckets@[j] is Some
    }

    spec fn key_at(&self, j: int) -> usize {
        self.buckets@[j]->Some_0.0
    }

    /// Where `k` meets no other key in its slot, the table separates the
    /// stored keys together with `k`.
    proof fn lemma_no_collision(&self, k: usize)
        requires
            self.wf(),
            self.table_len() > 0,
            !(self.buckets@[slot_of(k, self.table_len())] matches Some(e) && e.0 != k),
        ensures
            separates(self@.dom().insert(k), self.table_len()),
    {
        let len = self.table_len();
        assert forall|a: usize, b: usize|
            self@.dom().insert(k).contains(a) && self@.dom().insert(k).contains(b) && a != b
                implies slot_of(a, len) != slot_of(b, len) by {
            if slot_of(a, len) == slot_of(b, len) {
                if a != k {
                    assert(self.slot_has(slot_of(a, len), a));
                }
                if b != k {
                    assert(self.slot_has(slot_of(b, len), b));
                }
            }
        }
    }

    proof fn lemma_cap_bound(&self)
        requires
            self.wf(),
        ensures
            self.buckets@.len() <= MAX_CAPACITY,
            self.buckets@.len() < MAX_CAPACITY ==> 2 * self.buckets@.len() <= MAX_CAPACITY,
            self.buckets@.len() > 0 ==> self.buckets@.len() == pow2(self.exp@),
    {
        lemma_max_capacity();
        if self.buckets@.len() > 0 {
            lemma_pow2_unfold(self.exp@ + 1);
            if self.exp@ < max_exp() {
                lemma_pow2_strictly_increases(self.exp@, max_exp());
                if self.exp@ + 1 < max_exp() {
                    lemma_pow2_strictly_increases(self.exp@ + 1, max_exp());
                }
            }
        }
    }

    /// Whether a table of `cap` slots gives each stored key a slot of its own.
    fn separates_at(&self, cap: usize) -> (r: bool)
        requires
            self.wf(),
            cap > 0,
        ensures
            r == separates(self@.dom(), cap as nat),
    {
        let mut marks: Vec<bool> = Vec::new();
        let mut t: usize = 0;
        while t < cap
            invariant
                t <= cap,
                marks@.len() == t,
                forall|j: int| 0 <= j < t ==> !marks@[j],
            decreases cap - t,
        {
            marks.push(false);
            t += 1;
        }
        let len = self.buckets.len();
        let mut i: usize = 0;
        while i < len
            invariant
                self.wf(),
                cap > 0,
                len == self.buckets@.len(),
                i <= len,
                marks@.len() == cap,
                forall|t: int|
                    0 <= t < cap ==> (#[trigger] marks@[t] <==> exists|j: int|
                        0 <= j < i && self.occupied(j) && slot_of(self.key_at(j), cap as nat) == t),
                forall|j1: int, j2: int|
                    #![trigger self.key_at(j1), self.key_at(j2)]
                    0 <= j1 < i && 0 <= j2 < i && j1 != j2 && self.occupied(j1) && self.occupied(j2)
                        ==> slot_of(self.key_at(j1), cap as nat) != slot_of(self.key_at(j2), cap as nat),
            decreases len - i,
        {
            if let Some(e) = &self.buckets[i] {
                let s = e.0 % cap;
                if marks[s] {
                    proof {
                        let j = choose|j: int|
                            0 <= j < i && self.occupied(j) && slot_of(self.key_at(j), cap as nat) == s;
                        self.lemma_dom(j);
                        self.lemma_dom(i as int);
                        let a = self.key_at(j);
                        let b = self.key_at(i as int);
                        assert(self@.dom().contains(a) && self@.dom().contains(b));
                        assert(a != b);
                    }
                    return false;
                }
                marks.set(s, true);
            }
            i += 1;
            proof {
                assert forall|t: int| 0 <= t < cap implies (#[trigger] marks@[t] <==> exists|j: int|
                    0 <= j < i && self.occupied(j) && slot_of(self.key_at(j), cap as nat) == t) by {
                    let last = i - 1;
                    if self.occupied(last) && slot_of(self.key_at(last), cap as nat) == t {
                        assert(0 <= last < i);
                    }
                }
            }
        }
        proof {
            assert forall|a: usize, b: usize|
                self@.dom().contains(a) && self@.dom().contains(b) && a != b implies slot_of(
                    a,
                    cap as nat,
                ) != slot_of(b, cap as nat) by {
                let sa = slot_of(a, len as nat);
                let sb = slot_of(b, len as nat);
                assert(self.key_at(sa) == a);
                assert(self.key_at(sb) == b);
            }
        }
        true
    }

    /// Moves every entry into a fresh table of `cap` slots.
    fn rebuild(&mut self, cap: usize, Ghost(e): Ghost<nat>)
        requires
            old(self).wf(),
            e <= max_exp(),
            cap == pow2(e),
            separates(old(self)@.dom(), cap as nat),
        ensures
            final(self).wf(),
            final(self)@ == old(self)@,
            final(self).key_fn() == old(self).key_fn(),
            final(self).table_len() == cap,
    {
        proof {
            lemma_pow2_pos(e);
        }
        let mut fresh: Vec<Option<(usize, V)>> = Vec::new();
        let mut t: usize = 0;
        while t < cap
            invariant
                t <= cap,
                fresh@.len() == t,
                forall|j: int| 0 <= j < t ==> fresh@[j] is None,
            decreases cap - t,
        {
            fresh.push(None);
            t += 1;
        }
        let mut old_b: Vec<Option<(usize, V)>> = Vec::new();
        std::mem::swap(&mut self.buckets, &mut old_b);
        let ghost ob = old_b@;
        let ghost len = ob.len();
        while old_b.len() > 0
            invariant
                old(self).wf(),
                old(self).buckets@ == ob,
                len == ob.len(),
                cap > 0,
                separates(old(self)@.dom(), cap as nat),
                fresh@.len() == cap,
                old_b@.len() <= len,
                old_b@ == ob.subrange(0, old_b@.len() as int),
                forall|t: int|
                    0 <= t < cap && #[trigger] fresh@[t] is Some ==> {
                        &&& slot_of(fresh@[t]->Some_0.0, cap as nat) == t
                        &&& exists|j: int| old_b@.len() <= j < len && ob[j] == fresh@[t]
                    },
                forall|j: int|
                    old_b@.len() <= j < len && #[trigger] ob[j] is Some ==> fresh@[slot_of(
                        ob[j]->Some_0.0,
                        cap as nat,
                    )] == ob[j],
            decreases old_b@.len(),
        {
            let ghost n = old_b@.len() - 1;
            let last = old_b.pop();
            if let Some(Some((k, v))) = last {
                let s = k % cap;
                proof {
                    old(self).lemma_dom(n);
                    if fresh@[s as int] is Some {
                        let j = choose|j: int| old_b@.len() < j < len && ob[j] == fresh@[s as int];
                        old(self).lemma_dom(j);
                        let a = ob[j]->Some_0.0;
                        assert(old(self)@.dom().contains(a) && old(self)@.dom().contains(k));
                        assert(slot_of(a, len) == j);
                        assert(slot_of(k, len) == n);
                    }
                }
                fresh[s] = Some((k, v));
            }
            assert(old_b@ =~= ob.subrange(0, old_b@.len() as int));
        }
        self.buckets = fresh;
        self.exp = Ghost(e);
        proof {
            assert forall|s: int|
                0 <= s < self.buckets@.len() && #[trigger] self.buckets@[s] is Some implies {
                let en = self.buckets@[s]->Some_0;
                &&& slot_of(en.0, self.buckets@.len()) == s
                &&& key_of(self.index_fn, en.1) == en.0
            } by {
                let j = choose|j: int| 0 <= j < len && ob[j] == self.buckets@[s];
            }
            assert forall|k: usize| #[trigger] self@.contains_key(k) <==> old(self)@.contains_key(k) by {
                if old(self)@.contains_key(k) {
                    let j = slot_of(k, len);
                    assert(ob[j] is Some);
                }
                if self@.contains_key(k) {
                    let j = choose|j: int| 0 <= j < len && ob[j] == self.buckets@[slot_of(k, cap as nat)];
                    old(self).lemma_dom(j);
                }
            }
            assert forall|k: usize| #[trigger] self@.contains_key(k) implies self@[k] == old(self)@[k] by {
                let j = slot_of(k, len);
                assert(ob[j] is Some);
            }
            assert(self@ =~= old(self)@);
        }
    }

    /// Doubles the table until every stored key has a slot of its own, then
    /// moves the entries there.
    fn grow(&mut self)
        requires
            old(self).wf(),
            fits(old(self)@.dom()),
            0 < old(self).buckets@.len() < MAX_CAPACITY,
        ensures
            final(self).wf(),
            final(self)@ == old(self)@,
            final(self).key_fn() == old(self).key_fn(),
            final(self).table_len() > old(self).table_len(),
            final(self).table_len() == first_separating(old(self)@.dom(), 2 * old(self).table_len()),
    {
        proof {
            self.lemma_cap_bound();
            lemma_max_capacity();
            lemma_pow2_unfold(self.exp@ + 1);
        }
        let mut cap = self.buckets.len() * 2;
        let ghost mut e = self.exp@ + 1;
        while !self.separates_at(cap)
            invariant
                self.wf(),
                fits(self@.dom()),
                self.buckets@.len() < cap,
                cap == pow2(e),
                cap <= MAX_CAPACITY,
                e <= max_exp(),
                first_separating(self@.dom(), cap as nat) == first_separating(
                    self@.dom(),
                    2 * self.table_len(),
                ),
            decreases max_exp() - e,
        {
            proof {
                lemma_max_capacity();
                if e == max_exp() {
                    assert(false);
                }
                lemma_pow2_unfold(e + 1);
                if e + 1 < max_exp() {
                    lemma_pow2_strictly_increases(e + 1, max_exp());
                }
            }
            cap = cap * 2;
            proof {
                e = e + 1;
            }
        }
        self.rebuild(cap, Ghost(e));
    }

    /// Stores `v` under its key `k`, growing the table until `k` has a slot.
    fn place(&mut self, k: usize, v: V)
        requires
            old(self).wf(),
            key_of(old(self).key_fn(), v) == k,
            fits(old(self)@.dom().insert(k)),
        ensures
            final(self).wf(),
            final(self)@ == old(self)@.insert(k, v),
            final(self).key_fn() == old(self).key_fn(),
            old(self).table_len() == 0 ==> final(self).table_len() == 1,
            old(self).table_len() > 0 && !old(self).collides(k) ==> final(self).table_len()
                == old(self).table_len(),
            old(self).collides(k) ==> final(self).table_len() > old(self).table_len(),
            old(self).collides(k) ==> final(self).table_len() == first_separating(
                old(self)@.dom().insert(k),
                2 * old(self).table_len(),
            ),
    {
        let ghost mut grew = false;
        let ghost all = old(self)@.dom().insert(k);
        loop
            invariant
                self.wf(),
                self@ == old(self)@,
                self.key_fn() == old(self).key_fn(),
                !grew ==> *self == *old(self),
                grew ==> old(self).collides(k) && self.table_len() > old(self).table_len(),
                grew ==> first_separating(all, self.table_len()) == first_separating(
                    all,
                    2 * old(self).table_len(),
                ),
                all == old(self)@.dom().insert(k),
                key_of(self.key_fn(), v) == k,
                fits(self@.dom().insert(k)),
            decreases MAX_CAPACITY - self.buckets@.len(),
        {
            proof {
                self.lemma_cap_bound();
            }
            let len = self.buckets.len();
            if len == 0 {
                self.buckets.push(Some((k, v)));
                self.exp = Ghost(0);
                proof {
                    lemma2_to64();
                    assert(slot_of(k, 1) == 0);
                    assert(self@ =~= old(self)@.insert(k, v));
                }
                return;
            }
            let s = k % len;
            let collides = match &self.buckets[s] {
                Some(e) => e.0 != k,
                None => false,
            };
            if !collides {
                proof {
                    if !grew && old(self).collides(k) {
                        let j = choose|j: usize|
                            #[trigger] old(self)@.dom().contains(j) && j != k && slot_of(j, len as nat)
                                == slot_of(k, len as nat);
                        assert(self.slot_has(s as int, j));
                    }
                    if grew {
                        self.lemma_no_collision(k);
                    }
                }
                self.buckets[s] = Some((k, v));
                proof {
                    assert(self@ =~= old(self)@.insert(k, v));
                }
                return;
            }
            let ghost before_len = self.table_len();
            proof {
                if !grew {
                    let j = self.key_at(s as int);
                    self.lemma_dom(s as int);
                    assert(old(self)@.contains_key(j));
                }
                let j = self.key_at(s as int);
                self.lemma_dom(s as int);
                assert(self@.dom().insert(k).contains(j) && self@.dom().insert(k).contains(k));
                lemma_max_capacity();
                lemma_separates_subset(self@.dom(), self@.dom().insert(k), MAX_CAPACITY as nat);
            }
            self.grow();
            proof {
                self.lemma_cap_bound();
                lemma_first_separating_subset(self@.dom(), all, 2 * before_len);
                grew = true;
            }
        }
    }

    /// Distinct stored keys sit in distinct slots, of the table and of the
    /// largest table.
    proof fn lemma_separated(&self)
        requires
            self.wf(),
        ensures
            separates(self@.dom(), self.table_len()),
            fits(self@.dom()),
    {
        let len = self.table_len();
        assert forall|a: usize, b: usize|
            self@.dom().contains(a) && self@.dom().contains(b) && a != b implies slot_of(a, len)
            != slot_of(b, len) by {
            assert(self.slot_has(slot_of(a, len), a));
            assert(self.slot_has(slot_of(b, len), b));
        }
        if len > 0 {
            self.lemma_cap_bound();
            lemma_max_capacity();
            lemma_pow2_pos(self.exp@);
            assert forall|a: usize, b: usize|
                self@.dom().contains(a) && self@.dom().contains(b) && a != b implies slot_of(
                    a,
                    MAX_CAPACITY as nat,
                ) != slot_of(b, MAX_CAPACITY as nat) by {
                if slot_of(a, MAX_CAPACITY as nat) == slot_of(b, MAX_CAPACITY as nat) {
                    lemma_pow2_adds(self.exp@, (max_exp() - self.exp@) as nat);
                    let m = pow2((max_exp() - self.exp@) as nat);
                    lemma_pow2_pos((max_exp() - self.exp@) as nat);
                    lemma_mod_mod(a as int, len as int, m as int);
                    lemma_mod_mod(b as int, len as int, m as int);
                    assert(slot_of(a, len) != slot_of(b, len));
                }
            }
        }
    }

    /// The keys are finitely many, no more than the slots.
    proof fn lemma_counted(&self)
        requires
            self.wf(),
        ensures
            self@.dom().finite(),
            self@.len() <= self.table_len(),
    {
        let len = self.table_len() as int;
        let range = set_int_range(0, len);
        let occ = range.filter(|s: int| self.occupied(s));
        let f = |s: int| self.key_at(s);
        lemma_int_range(0, len);
        lemma_len_subset(occ, range);
        assert(injective_on(f, occ)) by {
            assert forall|x: int, y: int| occ.contains(x) && occ.contains(y) && #[trigger] f(x) == #[trigger] f(
                y,
            ) implies x == y by {
            }
        }
        assert(occ.map(f) =~= self@.dom()) by {
            assert forall|k: usize| self@.dom().contains(k) implies occ.map(f).contains(k) by {
                let s = slot_of(k, len as nat);
                assert(occ.contains(s));
                assert(f(s) == k);
            }
            assert forall|k: usize| occ.map(f).contains(k) implies self@.dom().contains(k) by {
                let s = choose|s: int| occ.contains(s) && f(s) == k;
                self.lemma_dom(s);
            }
        }
        lemma_map_size(occ, self@.dom(), f);
    }

    /// Each entry is stored under the key of its own value, and the table
    /// is empty or a power of two in size, no larger than `MAX_CAPACITY`.
    pub proof fn lemma_shape(&self)
        requires
            self.wf(),
        ensures
            forall|k: usize| #[trigger] self@.contains_key(k) ==> self.key(self@[k]) == k,
            self.table_len() == 0 || is_pow2(self.table_len() as int),
            self.table_len() <= MAX_CAPACITY,
            separates(self@.dom(), self.table_len()),
            fits(self@.dom()),
            self@.dom().finite(),
            self@.len() <= self.table_len(),
    {
        self.lemma_separated();
        self.lemma_counted();
        self.lemma_cap_bound();
        if self.table_len() > 0 {
            is_pow2_equiv(self.table_len() as int);
            lemma_pow_positive(2, self.exp@);
            assert(pow(2, self.exp@) == self.table_len());
            assert(is_pow2_exists(self.table_len() as int));
        }
        assert forall|k: usize| #[trigger] self@.contains_key(k) implies self.key(self@[k]) == k by {
            assert(self.buckets@[slot_of(k, self.table_len())] is Some);
        }
    }

    /// Creates an empty map whose keys `index_fn` derives.
    pub fn new(index_fn: F) -> (r: Self)
        requires
            is_key_fn(index_fn),
        ensures
            r.wf(),
            r.key_fn() == index_fn,
            r@ == Map::<usize, V>::empty(),
            r.table_len() == 0,
    {
        let r = FnMap { index_fn, buckets: Vec::new(), exp: Ghost(0) };
        assert(r@ =~= Map::<usize, V>::empty());
        r
    }

    /// Stores `value` under its key, replacing the value stored under that
    /// key if there is one.
    pub fn insert(&mut self, value: V)
        requires
            old(self).wf(),
            fits(old(self)@.dom().insert(old(self).key(value))),
        ensures
            final(self).wf(),
            final(self).key_fn() == old(self).key_fn(),
            final(self)@ == old(self)@.insert(old(self).key(value), value),
            call_ensures(old(self).key_fn(), (&value,), old(self).key(value)),
            old(self).table_len() == 0 ==> final(self).table_len() == 1,
            old(self).table_len() > 0 && !old(self).collides(old(self).key(value))
                ==> final(self).table_len() == old(self).table_len(),
            final(self).table_len() >= old(self).table_len(),
            old(self).collides(old(self).key(value))
                ==> final(self).table_len() > old(self).table_len(),
            old(self).collides(old(self).key(value)) ==> final(self).table_len()
                == first_separating(
                old(self)@.dom().insert(old(self).key(value)),
                2 * old(self).table_len(),
            ),
    {
        let k = (self.index_fn)(&value);
        proof {
            lemma_key_of(self.index_fn, value, k);
        }
        self.place(k, value);
    }

    /// Gives exclusive access to the entry whose key is `id`, if there is
    /// one. The map is unchanged until the guard is released.
    pub fn get_mut(&mut self, id: usize) -> (r: Option<MutGuard<'_, V, F>>)
        requires
            old(self).wf(),
        ensures
            r is Some <==> old(self)@.contains_key(id),
            r is None ==> *final(self) == *old(self),
            r matches Some(g) ==> {
                &&& *g.map == *old(self)
                &&& g.wf()
                &&& g.key() == id
                &&& g.replacement is None
            },
            r matches Some(g) ==> *final(self) == *final(g.map),
    {
        let len = self.buckets.len();
        if len == 0 {
            return None;
        }
        let s = id % len;
        let hit = match &self.buckets[s] {
            Some(e) => e.0 == id,
            None => false,
        };
        if !hit {
            return None;
        }
        Some(MutGuard { map: self, slot: s, replacement: None })
    }

    /// The key that the map's key function derives from `v`.
    pub fn key_for(&self, v: &V) -> (r: usize)
        requires
            self.wf(),
        ensures
            r == self.key(*v),
            call_ensures(self.key_fn(), (v,), r),
    {
        let r = (self.index_fn)(v);
        proof {
            lemma_key_of(self.index_fn, *v, r);
        }
        r
    }

    /// The number of slots in the table.
    pub fn capacity(&self) -> (r: usize)
        ensures
            r == self.table_len(),
    {
        self.buckets.len()
    }

    /// Returns the value whose key is `id`, if there is one.
    pub fn get(&self, id: usize) -> (r: Option<&V>)
        requires
            self.wf(),
        ensures
            r is Some <==> self@.contains_key(id),
            r matches Some(v) ==> *v == self@[id],
    {
        let len = self.buckets.len();
        if len == 0 {
            return None;
        }
        match &self.buckets[id % len] {
            Some(e) => {
                if e.0 == id {
                    Some(&e.1)
                } else {
                    None
                }
            },
            None => None,
        }
    }
}

/// The entries held in the slots of `b` from `pos` on, in slot order.
pub open spec fn entries_from<V>(b: Seq<Option<(usize, V)>>, pos: int) -> Seq<(usize, V)>
    decreases b.len() - pos,
{
    if 0 <= pos < b.len() {
        match b[pos] {
            Some(e) => seq![e] + entries_from(b, pos + 1),
            None => entries_from(b, pos + 1),
        }
    } else {
        Seq::empty()
    }
}

/// `s` lists the entries of `m`, each exactly once.
pub open spec fn lists<V>(s: Seq<(usize, V)>, m: Map<usize, V>) -> bool {
    &&& forall|i: int| 0 <= i < s.len() ==> #[trigger] m.contains_key(s[i].0) && m[s[i].0] == s[i].1
    &&& forall|i: int, j: int|
        #![trigger s[i], s[j]]
        0 <= i < j < s.len() ==> s[i].0 != s[j].0
    &&& forall|k: usize| #[trigger] m.contains_key(k) ==> exists|i: int| 0 <= i < s.len() && s[i].0 == k
}

impl<V, F: Fn(&V) -> usize> FnMap<V, F> {
    proof fn lemma_from_slots(&self, pos: int)
        requires
            self.wf(),
            0 <= pos <= self.buckets@.len(),
        ensures
            forall|i: int|
                0 <= i < entries_from(self.buckets@, pos).len() ==> exists|j: int|
                    pos <= j < self.buckets@.len() && self.buckets@[j] == Some(
                        #[trigger] entries_from(self.buckets@, pos)[i],
                    ),
        decreases self.buckets@.len() - pos,
    {
        let b = self.buckets@;
        if pos < b.len() {
            self.lemma_from_slots(pos + 1);
            let t = entries_from(b, pos + 1);
            let s = entries_from(b, pos);
            if let Some(e) = b[pos] {
                assert forall|i: int| 0 <= i < s.len() implies exists|j: int|
                    pos <= j < b.len() && b[j] == Some(#[trigger] s[i]) by {
                    if i == 0 {
                        assert(b[pos] == Some(s[0]));
                    } else {
                        assert(s[i] == t[i - 1]);
                    }
                }
            }
        }
    }

    proof fn lemma_keys_distinct(&self, pos: int)
        requires
            self.wf(),
            0 <= pos <= self.buckets@.len(),
        ensures
            forall|i: int, i2: int|
                0 <= i < i2 < entries_from(self.buckets@, pos).len() ==> (#[trigger] entries_from(
                    self.buckets@,
                    pos,
                )[i]).0 != (#[trigger] entries_from(self.buckets@, pos)[i2]).0,
        decreases self.buckets@.len() - pos,
    {
        let b = self.buckets@;
        let len = b.len();
        if pos < len {
            self.lemma_keys_distinct(pos + 1);
            self.lemma_from_slots(pos + 1);
            let t = entries_from(b, pos + 1);
            let s = entries_from(b, pos);
            if let Some(e) = b[pos] {
                assert forall|i: int, i2: int| 0 <= i < i2 < s.len() implies (#[trigger] s[i]).0
                    != (#[trigger] s[i2]).0 by {
                    assert(s[i2] == t[i2 - 1]);
                    if i == 0 {
                        let j = choose|j: int| pos + 1 <= j < len && b[j] == Some(t[i2 - 1]);
                        assert(slot_of(s[i2].0, len) == j);
                        assert(slot_of(e.0, len) == pos);
                    } else {
                        assert(s[i] == t[i - 1]);
                    }
                }
            }
        }
    }

    proof fn lemma_covers(&self, pos: int)
        requires
            self.wf(),
            0 <= pos <= self.buckets@.len(),
        ensures
            forall|j: int|
                pos <= j < self.buckets@.len() && #[trigger] self.buckets@[j] is Some ==> exists|i: int|
                    0 <= i < entries_from(self.buckets@, pos).len() && entries_from(self.buckets@, pos)[i]
                        == self.buckets@[j]->Some_0,
        decreases self.buckets@.len() - pos,
    {
        let b = self.buckets@;
        let len = b.len();
        if pos < len {
            self.lemma_covers(pos + 1);
            let t = entries_from(b, pos + 1);
            let s = entries_from(b, pos);
            assert forall|j: int| pos <= j < len && #[trigger] b[j] is Some implies exists|i: int|
                0 <= i < s.len() && s[i] == b[j]->Some_0 by {
                if j == pos {
                    assert(s[0] == b[j]->Some_0);
                } else {
                    let i = choose|i: int| 0 <= i < t.len() && t[i] == b[j]->Some_0;
                    if b[pos] is Some {
                        assert(s[i + 1] == t[i]);
                    } else {
                        assert(s[i] == t[i]);
                    }
                }
            }
        }
    }

    /// Every entry of the map stands in its slots exactly once.
    pub(crate) proof fn lemma_lists(&self)
        requires
            self.wf(),
        ensures
            lists(entries_from(self.buckets@, 0), self@),
    {
        let b = self.buckets@;
        let s = entries_from(b, 0);
        self.lemma_from_slots(0);
        self.lemma_keys_distinct(0);
        self.lemma_covers(0);
        assert forall|i: int| 0 <= i < s.len() implies #[trigger] self@.contains_key(s[i].0)
            && self@[s[i].0] == s[i].1 by {
            let j = choose|j: int| 0 <= j < b.len() && b[j] == Some(s[i]);
            self.lemma_dom(j);
        }
        assert forall|k: usize| #[trigger] self@.contains_key(k) implies exists|i: int|
            0 <= i < s.len() && s[i].0 == k by {
            let j = slot_of(k, b.len());
            assert(b[j] is Some);
        }
    }

}

} // verus!
