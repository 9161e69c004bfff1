use vstd::prelude::*;

use crate::fn_map::{entries_from, lists, FnMap};

verus! {

proof fn lemma_entries_from_tail<V>(b1: Seq<Option<(usize, V)>>, b2: Seq<Option<(usize, V)>>, pos: int)
    requires
        b1.len() == b2.len(),
        forall|j: int| pos <= j < b1.len() ==> b1[j] == b2[j],
    ensures
        entries_from(b1, pos) == entries_from(b2, pos),
    decreases b1.len() - pos,
{
    if 0 <= pos < b1.len() {
        lemma_entries_from_tail(b1, b2, pos + 1);
    }
}

impl<V, F: Fn(&V) -> usize> FnMap<V, F> {
    /// A view of the entries, by reference, in slot order.
    pub fn iter(&self) -> (r: Iter<'_, V>)
        requires
            self.wf(),
        ensures
            r.remaining() == self.entries(),
            lists(r.remaining(), self@),
            r.slots_left() == self.table_len(),
    {
        proof {
            self.lemma_lists();
            self.lemma_reveal_table();
        }
        Iter { buckets: &self.buckets, pos: 0 }
    }

    /// Consumes the map into the sequence of its values, in slot order.
    pub fn into_iter(self) -> (r: IntoIter<V>)
        requires
            self.wf(),
        ensures
            r.remaining() == self.entries(),
            lists(r.remaining(), self@),
            r.slots_left() == self.table_len(),
    {
        proof {
            self.lemma_lists();
            self.lemma_reveal_table();
        }
        IntoIter { buckets: self.buckets, pos: 0 }
    }
}

/// The entries of a map, by reference.
pub struct Iter<'a, V> {
    buckets: &'a Vec<Option<(usize, V)>>,
    pos: usize,
}

impl<'a, V> Iter<'a, V> {
    #[verifier::type_invariant]
    spec fn inv(&self) -> bool {
        self.pos <= self.buckets@.len()
    }

    /// The slots not yet visited.
    pub closed spec fn slots_left(&self) -> nat {
        (self.buckets@.len() - self.pos) as nat
    }

    /// The entries that are still to come, in order.
    pub closed spec fn remaining(&self) -> Seq<(usize, V)> {
        entries_from(self.buckets@, self.pos as int)
    }

    /// The next entry, if any is left.
    pub fn next(&mut self) -> (r: Option<&'a (usize, V)>)
        ensures
            old(self).remaining().len() == 0 ==> r is None,
            old(self).remaining().len() > 0 ==> (r matches Some(e) && *e == old(self).remaining()[0]),
            old(self).remaining().len() == 0 ==> final(self).remaining().len() == 0,
            final(self).slots_left() <= old(self).slots_left(),
            old(self).remaining().len() > 0 ==> final(self).remaining() == old(self).remaining().drop_first(),
    {
        proof {
            use_type_invariant(&*self);
        }
        let len = self.buckets.len();
        while self.pos < len
            invariant
                len == self.buckets@.len(),
                self.buckets == old(self).buckets,
                self.pos <= len,
                self.remaining() == old(self).remaining(),
                old(self).pos <= self.pos,
            decreases len - self.pos,
        {
            let b: &'a Vec<Option<(usize, V)>> = self.buckets;
            match &b[self.pos] {
                Some(pair) => {
                    self.pos += 1;
                    return Some(pair);
                },
                None => {
                    self.pos += 1;
                },
            }
        }
        None
    }

    /// Bounds on the number of entries left: none at least, and no more
    /// than the slots not yet visited.
    pub fn size_hint(&self) -> (r: (usize, Option<usize>))
        ensures
            r.0 == 0,
            r.1 == Some(self.slots_left() as usize),
            self.remaining().len() <= self.slots_left(),
    {
        proof {
            use_type_invariant(self);
            lemma_entries_len(self.buckets@, self.pos as int);
        }
        (0, Some(self.buckets.len() - self.pos))
    }
}

/// The values of a consumed map.
pub struct IntoIter<V> {
    buckets: Vec<Option<(usize, V)>>,
    pos: usize,
}

impl<V> IntoIter<V> {
    #[verifier::type_invariant]
    spec fn inv(&self) -> bool {
        self.pos <= self.buckets@.len()
    }

    /// The slots not yet visited.
    pub closed spec fn slots_left(&self) -> nat {
        (self.buckets@.len() - self.pos) as nat
    }

    /// The entries whose values are still to come, in order.
    pub closed spec fn remaining(&self) -> Seq<(usize, V)> {
        entries_from(self.buckets@, self.pos as int)
    }

    /// The next value, if any is left.
    pub fn next(&mut self) -> (r: Option<V>)
        ensures
            old(self).remaining().len() == 0 ==> r is None,
            old(self).remaining().len() > 0 ==> r == Some(old(self).remaining()[0].1),
            old(self).remaining().len() == 0 ==> final(self).remaining().len() == 0,
            final(self).slots_left() <= old(self).slots_left(),
            old(self).remaining().len() > 0 ==> final(self).remaining() == old(self).remaining().drop_first(),
    {
        proof {
            use_type_invariant(&*self);
        }
        let len = self.buckets.len();
        while self.pos < len
            invariant
                len == self.buckets@.len(),
                self.pos <= len,
                self.remaining() == old(self).remaining(),
                old(self).pos <= self.pos,
                len == old(self).buckets@.len(),
            decreases len - self.pos,
        {
            let ghost b = self.buckets@;
            let ghost p = self.pos as int;
            let taken = self.buckets[self.pos].take();
            self.pos += 1;
            proof {
                lemma_entries_from_tail(b, self.buckets@, p + 1);
            }
            if let Some(pair) = taken {
                return Some(pair.1);
            }
        }
        None
    }

    /// Bounds on the number of values left: none at least, and no more
    /// than the slots not yet visited.
    pub fn size_hint(&self) -> (r: (usize, Option<usize>))
        ensures
            r.0 == 0,
            r.1 == Some(self.slots_left() as usize),
            self.remaining().len() <= self.slots_left(),
    {
        proof {
            use_type_invariant(self);
            lemma_entries_len(self.buckets@, self.pos as int);
        }
        (0, Some(self.buckets.len() - self.pos))
    }
}

proof fn lemma_entries_len<V>(b: Seq<Option<(usize, V)>>, pos: int)
    requires
        0 <= pos <= b.len(),
    ensures
        entries_from(b, pos).len() <= b.len() - pos,
    decreases b.len() - pos,
{
    if pos < b.len() {
        lemma_entries_len(b, pos + 1);
    }
}

} // verus!
