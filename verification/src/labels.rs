use vstd::prelude::*;

use crate::text::chars_eq;

verus! {

/// The address of the last entry for `key`, if there is one.
pub open spec fn lookup(entries: Seq<(Seq<char>, u32)>, key: Seq<char>) -> Option<u32>
    decreases entries.len(),
{
    if entries.len() == 0 {
        None
    } else if entries.last().0 == key {
        Some(entries.last().1)
    } else {
        lookup(entries.drop_last(), key)
    }
}

/// The map from label to address that a sequence of definitions leaves,
/// a later definition of a label replacing an earlier one.
pub open spec fn label_map(entries: Seq<(Seq<char>, u32)>) -> Map<Seq<char>, u32> {
    Map::new(|k: Seq<char>| lookup(entries, k) is Some, |k: Seq<char>| lookup(entries, k).unwrap())
}

/// A table of label addresses.
pub struct Labels {
    entries: Vec<(Vec<char>, u32)>,
}

impl Labels {
    /// The definitions in the order they were made.
    pub closed spec fn entries(&self) -> Seq<(Seq<char>, u32)> {
        self.entries@.map_values(|e: (Vec<char>, u32)| (e.0@, e.1))
    }
}

impl View for Labels {
    type V = Map<Seq<char>, u32>;

    open spec fn view(&self) -> Map<Seq<char>, u32> {
        label_map(self.entries())
    }
}

impl Labels {
    /// An empty table.
    pub fn new() -> (t: Self)
        ensures
            t.entries() == Seq::<(Seq<char>, u32)>::empty(),
            t@ == Map::<Seq<char>, u32>::empty(),
    {
        let t = Labels { entries: Vec::new() };
        assert(t.entries() =~= Seq::<(Seq<char>, u32)>::empty());
        assert(t@ =~= Map::<Seq<char>, u32>::empty());
        t
    }

    /// Defines (or redefines) a label.
    pub fn insert(&mut self, key: Vec<char>, addr: u32)
        ensures
            final(self).entries() == old(self).entries().push((key@, addr)),
            final(self)@ == old(self)@.insert(key@, addr),
    {
        let ghost k = key@;
        self.entries.push((key, addr));
        assert(self.entries() =~= old(self).entries().push((k, addr)));
        assert(self.entries().drop_last() =~= old(self).entries());
        assert(self@ =~= old(self)@.insert(k, addr));
    }

    /// The address of a label, if it is defined.
    pub fn get(&self, key: &[char]) -> (r: Option<u32>)
        ensures
            r == lookup(self.entries(), key@),
            r == (if self@.contains_key(key@) {
                Some(self@[key@])
            } else {
                None
            }),
    {
        let mut i = self.entries.len();
        assert(self.entries().take(i as int) =~= self.entries());
        while i > 0
            invariant
                i <= self.entries@.len(),
                lookup(self.entries(), key@) == lookup(self.entries().take(i as int), key@),
            decreases i,
        {
            assert(self.entries().take(i as int).drop_last() =~= self.entries().take(i - 1));
            assert(self.entries().take(i as int).last() == self.entries()[i - 1]);
            if chars_eq(self.entries[i - 1].0.as_slice(), key) {
                return Some(self.entries[i - 1].1);
            }
            i -= 1;
        }
        None
    }
}

} // verus!
