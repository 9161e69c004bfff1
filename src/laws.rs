//! Properties of the map that relate several of its operations.
use vstd::prelude::*;

use crate::fn_map::{collides_in, fits, slot_of, FnMap};

verus! {

/// After a value is inserted, looking up its key finds that value.
pub proof fn lemma_round_trip<V, F: Fn(&V) -> usize>(before: FnMap<V, F>, v: V, after: FnMap<V, F>)
    requires
        before.wf(),
        after@ == before@.insert(before.key(v), v),
    ensures
        after@.contains_key(before.key(v)),
        after@[before.key(v)] == v,
{
}

/// Inserting two values with the same key leaves one entry under that key,
/// holding the second value, and adds no other entry.
pub proof fn lemma_update_in_place<V, F: Fn(&V) -> usize>(
    m0: FnMap<V, F>,
    v1: V,
    v2: V,
    m1: FnMap<V, F>,
    m2: FnMap<V, F>,
)
    requires
        m0.wf(),
        m0.key(v1) == m0.key(v2),
        m1@ == m0@.insert(m0.key(v1), v1),
        m1.key_fn() == m0.key_fn(),
        m2@ == m1@.insert(m1.key(v2), v2),
    ensures
        m2@ == m0@.insert(m0.key(v2), v2),
        m2@.dom() == m1@.dom(),
        m2@[m0.key(v2)] == v2,
{
    assert(m2@ =~= m0@.insert(m0.key(v2), v2));
    assert(m2@.dom() =~= m1@.dom());
}

/// Changing a value's key through a guard moves it: after the guard is
/// released, its old key finds nothing and its new key finds the changed
/// value.
pub proof fn lemma_relocate<V, F: Fn(&V) -> usize>(
    before: FnMap<V, F>,
    k1: usize,
    changed: V,
    after: FnMap<V, F>,
)
    requires
        before.wf(),
        before@.contains_key(k1),
        after@ == before@.remove(k1).insert(before.key(changed), changed),
        before.key(changed) != k1,
    ensures
        !after@.contains_key(k1),
        after@.contains_key(before.key(changed)),
        after@[before.key(changed)] == changed,
{
}

/// Releasing a guard whose value keeps its key needs no room beyond what
/// the map has: the key meets no other key in its slot, and the keys still
/// fit.
pub proof fn lemma_release_same_key<V, F: Fn(&V) -> usize>(m: FnMap<V, F>, k: usize)
    requires
        m.wf(),
        m@.contains_key(k),
    ensures
        !collides_in(m@.dom().remove(k), m.table_len(), k),
        fits(m@.dom().remove(k).insert(k)),
        m@.dom().remove(k).insert(k) == m@.dom(),
{
    m.lemma_shape();
    assert(m@.dom().remove(k).insert(k) =~= m@.dom());
    if collides_in(m@.dom().remove(k), m.table_len(), k) {
        let j = choose|j: usize|
            #[trigger] m@.dom().remove(k).contains(j) && j != k && slot_of(j, m.table_len())
                == slot_of(k, m.table_len());
        assert(m@.dom().contains(j) && m@.dom().contains(k));
    }
}

/// Inserting values with distinct keys one after another loses none of
/// them: each is found under its key, the keys held are those held before
/// together with the new ones, and where none of the new keys was held
/// before, the map has gained exactly one entry per value.
pub proof fn lemma_no_loss<V, F: Fn(&V) -> usize>(vs: Seq<V>, ms: Seq<FnMap<V, F>>)
    requires
        ms.len() == vs.len() + 1,
        ms[0].wf(),
        forall|i: int, j: int|
            0 <= i < j < vs.len() ==> ms[0].key(#[trigger] vs[i]) != ms[0].key(#[trigger] vs[j]),
        forall|i: int|
            0 <= i < vs.len() ==> (#[trigger] ms[i + 1])@ == ms[i]@.insert(ms[0].key(vs[i]), vs[i]),
    ensures
        forall|i: int|
            0 <= i < vs.len() ==> ms[vs.len() as int]@.contains_key(ms[0].key(#[trigger] vs[i]))
                && ms[vs.len() as int]@[ms[0].key(vs[i])] == vs[i],
        ms[vs.len() as int]@.dom() == ms[0]@.dom().union(
            Set::new(|k: usize| exists|i: int| 0 <= i < vs.len() && ms[0].key(vs[i]) == k),
        ),
        ms[vs.len() as int]@.dom().finite(),
        (forall|i: int| 0 <= i < vs.len() ==> !ms[0]@.contains_key(ms[0].key(#[trigger] vs[i])))
            ==> ms[vs.len() as int]@.len() == ms[0]@.len() + vs.len(),
    decreases vs.len(),
{
    let n = vs.len() as int;
    ms[0].lemma_shape();
    if n > 0 {
        let vs1 = vs.drop_last();
        let ms1 = ms.drop_last();
        assert forall|i: int| 0 <= i < vs1.len() implies (#[trigger] ms1[i + 1])@ == ms1[i]@.insert(
            ms1[0].key(vs1[i]),
            vs1[i],
        ) by {
            assert(ms1[i + 1] == ms[i + 1]);
        }
        lemma_no_loss(vs1, ms1);
        let last = ms[n];
        assert(last == ms[n - 1 + 1]);
        assert forall|i: int| 0 <= i < n implies last@.contains_key(ms[0].key(#[trigger] vs[i]))
            && last@[ms[0].key(vs[i])] == vs[i] by {
            if i < n - 1 {
                assert(vs1[i] == vs[i]);
            }
        }
        let before = Set::new(|k: usize| exists|i: int| 0 <= i < vs1.len() && ms1[0].key(vs1[i]) == k);
        let now = Set::new(|k: usize| exists|i: int| 0 <= i < n && ms[0].key(vs[i]) == k);
        assert forall|k: usize| now.contains(k) <==> before.insert(ms[0].key(vs[n - 1])).contains(k) by {
            if now.contains(k) {
                let i = choose|i: int| 0 <= i < n && ms[0].key(vs[i]) == k;
                if i < n - 1 {
                    assert(vs1[i] == vs[i]);
                }
            }
            if before.contains(k) {
                let i = choose|i: int| 0 <= i < vs1.len() && ms1[0].key(vs1[i]) == k;
                assert(vs1[i] == vs[i]);
            }
        }
        assert(last@.dom() =~= ms[0]@.dom().union(now));
        let k = ms[0].key(vs[n - 1]);
        assert(last@ == ms[n - 1]@.insert(k, vs[n - 1]));
        assert(last@.dom() =~= ms[n - 1]@.dom().insert(k));
        if forall|i: int| 0 <= i < vs.len() ==> !ms[0]@.contains_key(ms[0].key(#[trigger] vs[i])) {
            assert forall|i: int| 0 <= i < vs1.len() implies !ms1[0]@.contains_key(
                ms1[0].key(#[trigger] vs1[i]),
            ) by {
                assert(vs1[i] == vs[i]);
            }
            if ms[n - 1]@.contains_key(k) {
                assert(!ms[0]@.contains_key(k));
                assert(before.contains(k));
                let i = choose|i: int| 0 <= i < vs1.len() && ms1[0].key(vs1[i]) == k;
                assert(vs1[i] == vs[i]);
            }
        }
    } else {
        assert(ms[0]@.dom() =~= ms[0]@.dom().union(
            Set::new(|k: usize| exists|i: int| 0 <= i < vs.len() && ms[0].key(vs[i]) == k),
        ));
    }
}

/// A map with no entries finds nothing, whatever the key.
pub proof fn lemma_empty_finds_nothing<V, F: Fn(&V) -> usize>(m: FnMap<V, F>, id: usize)
    requires
        m@ == Map::<usize, V>::empty(),
    ensures
        !m@.contains_key(id),
{
}

} // verus!
