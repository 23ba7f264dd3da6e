//! The label table: a mapping from label identifier to instruction index,
//! built in one forward scan over the program.  Re-definition of a label
//! overwrites the earlier entry (last definition wins).

use vstd::prelude::*;

verus! {

/// Abstraction of a sequence of (label, index) entries as a map where a
/// later entry for the same label overwrites an earlier one.
pub open spec fn label_map_of(entries: Seq<(String, usize)>) -> Map<Seq<char>, int>
    decreases entries.len(),
{
    if entries.len() == 0 {
        Map::empty()
    } else {
        label_map_of(entries.drop_last()).insert(entries.last().0@, entries.last().1 as int)
    }
}

/// A label table.  Viewed as a map from label text to instruction index.
pub struct LabelMap {
    entries: Vec<(String, usize)>,
}

impl View for LabelMap {
    type V = Map<Seq<char>, int>;

    closed spec fn view(&self) -> Map<Seq<char>, int> {
        label_map_of(self.entries@)
    }
}

/// A key is in the abstraction exactly when some entry carries it.
proof fn lemma_label_map_key(entries: Seq<(String, usize)>, key: Seq<char>)
    ensures
        label_map_of(entries).contains_key(key) <==> exists|j: int|
            0 <= j < entries.len() && #[trigger] entries[j].0@ == key,
    decreases entries.len(),
{
    if entries.len() > 0 {
        lemma_label_map_key(entries.drop_last(), key);
        if entries.last().0@ == key {
            assert(entries[entries.len() - 1].0@ == key);
        } else if label_map_of(entries.drop_last()).contains_key(key) {
            let j = choose|j: int|
                0 <= j < entries.len() - 1 && #[trigger] entries.drop_last()[j].0@ == key;
            assert(entries[j].0@ == key);
        } else if exists|j: int| 0 <= j < entries.len() && #[trigger] entries[j].0@ == key {
            let j = choose|j: int| 0 <= j < entries.len() && #[trigger] entries[j].0@ == key;
            assert(j < entries.len() - 1 ==> entries.drop_last()[j].0@ == key);
        }
    }
}

/// Entries past position `k` that never carry `key` do not affect the
/// abstraction at `key`.
proof fn lemma_label_map_unaffected(entries: Seq<(String, usize)>, k: int, key: Seq<char>)
    requires
        0 <= k <= entries.len(),
        forall|j: int| k <= j < entries.len() ==> #[trigger] entries[j].0@ != key,
    ensures
        label_map_of(entries).contains_key(key) == label_map_of(
            entries.subrange(0, k),
        ).contains_key(key),
        label_map_of(entries).contains_key(key) ==> label_map_of(entries)[key] == label_map_of(
            entries.subrange(0, k),
        )[key],
    decreases entries.len() - k,
{
    if k < entries.len() {
        let t = entries.subrange(0, k + 1);
        assert(t.drop_last() =~= entries.subrange(0, k));
        assert(t.last() == entries[k]);
        lemma_label_map_unaffected(entries, k + 1, key);
        assert(entries.subrange(0, entries.len() as int) =~= entries);
    } else {
        assert(entries.subrange(0, k) =~= entries);
    }
}

impl LabelMap {
    /// An empty table.
    pub fn new() -> (r: LabelMap)
        ensures
            r@ == Map::<Seq<char>, int>::empty(),
    {
        LabelMap { entries: Vec::new() }
    }

    /// Records that `label` names instruction `index`, overwriting any
    /// earlier record for the same label.
    pub fn insert(&mut self, label: &String, index: usize)
        ensures
            final(self)@ == old(self)@.insert(label@, index as int),
    {
        let owned = label.clone();
        proof {
            let ghost pre = self.entries@;
            assert(pre.push((owned, index)).drop_last() =~= pre);
        }
        self.entries.push((owned, index));
    }

    /// Looks a label up: the recorded index, or nothing when the label was
    /// never defined.
    pub fn get(&self, label: &String) -> (r: Option<usize>)
        ensures
            match r {
                Some(i) => self@.contains_key(label@) && self@[label@] == i as int,
                None => !self@.contains_key(label@),
            },
    {
        let n = self.entries.len();
        let mut k: usize = n;
        while k > 0
            invariant
                0 <= k <= n,
                n == self.entries@.len(),
                forall|j: int| k <= j < n ==> #[trigger] self.entries@[j].0@ != label@,
            decreases k,
        {
            k = k - 1;
            if self.entries[k].0 == *label {
                proof {
                    let e = self.entries@;
                    lemma_label_map_unaffected(e, k + 1, label@);
                    let t = e.subrange(0, k + 1);
                    assert(t.drop_last() =~= e.subrange(0, k as int));
                    assert(t.last() == e[k as int]);
                    assert(label_map_of(t) == label_map_of(t.drop_last()).insert(
                        e[k as int].0@,
                        e[k as int].1 as int,
                    ));
                }
                return Some(self.entries[k].1);
            }
        }
        proof {
            lemma_label_map_key(self.entries@, label@);
        }
        None
    }
}

} // verus!
