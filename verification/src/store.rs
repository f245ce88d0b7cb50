use vstd::prelude::*;

use crate::digest::{views, Digest};
use crate::model::put_new;

verus! {

/// One stored node: its key and its children.
pub struct Entry {
    key: Digest,
    node: Vec<Digest>,
}

/// The map that a run of entries stands for: a later entry under a key replaces
/// an earlier one.
pub closed spec fn map_of(entries: Seq<Entry>) -> Map<Seq<u8>, Seq<Seq<u8>>>
    decreases entries.len(),
{
    if entries.len() == 0 {
        Map::empty()
    } else {
        map_of(entries.drop_last()).insert(entries.last().key@, views(entries.last().node@))
    }
}

/// No key occurs twice among `entries`.
pub closed spec fn distinct(entries: Seq<Entry>) -> bool {
    forall|i: int, j: int|
        0 <= i < j < entries.len() ==> (#[trigger] entries[i]).key@ != (#[trigger] entries[j]).key@
}

/// The map's keys are the entries' keys.
proof fn lemma_keys(entries: Seq<Entry>, k: Seq<u8>)
    ensures
        map_of(entries).dom().contains(k) <==> exists|i: int|
            0 <= i < entries.len() && (#[trigger] entries[i]).key@ == k,
        map_of(entries).dom().finite(),
    decreases entries.len(),
{
    if entries.len() > 0 {
        let front = entries.drop_last();
        lemma_keys(front, k);
        if map_of(entries).dom().contains(k) {
            if entries.last().key@ == k {
                assert(entries[entries.len() - 1].key@ == k);
            } else {
                let i = choose|i: int| 0 <= i < front.len() && (#[trigger] front[i]).key@ == k;
                assert(entries[i].key@ == k);
            }
        }
        if exists|i: int| 0 <= i < entries.len() && (#[trigger] entries[i]).key@ == k {
            let i = choose|i: int| 0 <= i < entries.len() && (#[trigger] entries[i]).key@ == k;
            if i < front.len() {
                assert(front[i].key@ == k);
            }
        }
    }
}

/// Distinct entries without the last are distinct.
proof fn lemma_front_distinct(entries: Seq<Entry>)
    requires
        distinct(entries),
        entries.len() > 0,
    ensures
        distinct(entries.drop_last()),
{
    let front = entries.drop_last();
    assert forall|a: int, b: int| 0 <= a < b < front.len() implies (#[trigger] front[a]).key@ != (
    #[trigger] front[b]).key@ by {
        assert(entries[a].key@ != entries[b].key@);
    }
}

/// Under distinct keys the map gives each entry's own children.
proof fn lemma_value(entries: Seq<Entry>, i: int)
    requires
        distinct(entries),
        0 <= i < entries.len(),
    ensures
        map_of(entries).dom().contains(entries[i].key@),
        map_of(entries)[entries[i].key@] == views(entries[i].node@),
    decreases entries.len(),
{
    let front = entries.drop_last();
    if i < front.len() {
        lemma_front_distinct(entries);
        lemma_value(front, i);
        assert(front[i] == entries[i]);
        assert(entries[i].key@ != entries[entries.len() - 1].key@);
    }
}

/// Replacing the entry that holds a key replaces what the map holds under it.
proof fn lemma_replace(entries: Seq<Entry>, i: int, e: Entry)
    requires
        distinct(entries),
        0 <= i < entries.len(),
        entries[i].key@ == e.key@,
    ensures
        distinct(entries.update(i, e)),
        map_of(entries.update(i, e)) == map_of(entries).insert(e.key@, views(e.node@)),
    decreases entries.len(),
{
    let after = entries.update(i, e);
    assert(distinct(after)) by {
        assert forall|a: int, b: int| 0 <= a < b < after.len() implies (#[trigger] after[a]).key@
            != (#[trigger] after[b]).key@ by {
            assert(entries[a].key@ != entries[b].key@);
        }
    }
    let front = entries.drop_last();
    if i == entries.len() - 1 {
        assert(after.drop_last() =~= front);
        assert(map_of(after) =~= map_of(entries).insert(e.key@, views(e.node@)));
    } else {
        lemma_front_distinct(entries);
        lemma_replace(front, i, e);
        assert(after.drop_last() =~= front.update(i, e));
        assert(after.last() == entries.last());
        assert(entries[i].key@ != entries[entries.len() - 1].key@);
        assert(map_of(after) =~= map_of(entries).insert(e.key@, views(e.node@)));
    }
}

/// How many slots the store's table has.
pub const SLOTS: usize = 4096;

/// The slot of the table in which a key is kept.
pub closed spec fn slot_of(key: Seq<u8>) -> nat
    decreases key.len(),
{
    if key.len() == 0 {
        0
    } else {
        ((slot_of(key.drop_last()) * 31 + key.last() as nat) % 4096) as nat
    }
}

/// The place `(a, b)` occurs in `origin`.
spec fn listed(origin: Seq<(int, int)>, a: int, b: int) -> bool {
    exists|i: int| 0 <= i < origin.len() && #[trigger] origin[i] == (a, b)
}

/// Every key among `entries` belongs to slot `i`.
pub closed spec fn in_slot(entries: Seq<Entry>, i: int) -> bool {
    forall|j: int| 0 <= j < entries.len() ==> slot_of((#[trigger] entries[j]).key@) == i
}

/// The slot of a key.
fn slot(key: &Digest) -> (r: usize)
    ensures
        r == slot_of(key@),
        r < SLOTS,
{
    let bytes = key.as_bytes();
    let mut h: usize = 0;
    let mut i: usize = 0;
    while i < bytes.len()
        invariant
            i <= bytes@.len(),
            h < 4096,
            h == slot_of(bytes@.take(i as int)),
        decreases bytes@.len() - i,
    {
        proof {
            assert(bytes@.take(i + 1).drop_last() =~= bytes@.take(i as int));
        }
        h = (h * 31 + bytes[i] as usize) % 4096;
        i += 1;
    }
    proof {
        assert(bytes@.take(bytes@.len() as int) =~= bytes@);
    }
    h
}

/// Where `key` is held in a slot's run of entries, if it is.
fn find(entries: &Vec<Entry>, key: &Digest) -> (r: Option<usize>)
    ensures
        match r {
            Some(i) => i < entries@.len() && entries@[i as int].key@ == key@,
            None => !map_of(entries@).dom().contains(key@),
        },
{
    let mut i: usize = 0;
    while i < entries.len()
        invariant
            i <= entries@.len(),
            forall|j: int| 0 <= j < i ==> (#[trigger] entries@[j]).key@ != key@,
        decreases entries@.len() - i,
    {
        if entries[i].key.same(key) {
            return Some(i);
        }
        i += 1;
    }
    proof {
        lemma_keys(entries@, key@);
    }
    None
}

/// A content-addressed store of tree nodes: a map from a digest to the children
/// of the node with that digest.
pub struct NodeStore {
    table: Vec<Vec<Entry>>,
}

impl View for NodeStore {
    type V = Map<Seq<u8>, Seq<Seq<u8>>>;

    closed spec fn view(&self) -> Map<Seq<u8>, Seq<Seq<u8>>> {
        Map::new(
            |k: Seq<u8>| map_of(self.table@[slot_of(k) as int]@).dom().contains(k),
            |k: Seq<u8>| map_of(self.table@[slot_of(k) as int]@)[k],
        )
    }
}

impl NodeStore {
    /// The table has its slots, every key is kept in its own slot, and no slot
    /// holds a key twice.
    pub closed spec fn wf(&self) -> bool {
        &&& self.table@.len() == SLOTS
        &&& forall|i: int| 0 <= i < self.table@.len() ==> distinct((#[trigger] self.table@[i])@)
        &&& forall|i: int| 0 <= i < self.table@.len() ==> in_slot((#[trigger] self.table@[i])@, i)
    }

    /// An empty store.
    pub fn new() -> (s: NodeStore)
        ensures
            s.wf(),
            s@ == Map::<Seq<u8>, Seq<Seq<u8>>>::empty(),
    {
        let mut table: Vec<Vec<Entry>> = Vec::new();
        let mut i: usize = 0;
        while i < SLOTS
            invariant
                i <= SLOTS,
                table@.len() == i,
                forall|j: int| 0 <= j < i ==> (#[trigger] table@[j])@.len() == 0,
            decreases SLOTS - i,
        {
            table.push(Vec::new());
            i += 1;
        }
        let s = NodeStore { table };
        proof {
            assert forall|k: Seq<u8>| !s@.dom().contains(k) by {
                lemma_slot_bound(k);
                assert(s.table@[slot_of(k) as int]@.len() == 0);
            }
            assert(s@ =~= Map::<Seq<u8>, Seq<Seq<u8>>>::empty());
        }
        s
    }

    /// Whether a node is held under `key`.
    pub fn contains_key(&self, key: &Digest) -> (r: bool)
        requires
            self.wf(),
        ensures
            r == self@.dom().contains(key@),
    {
        let i = slot(key);
        let found = find(&self.table[i], key);
        proof {
            if let Some(k) = found {
                lemma_value(self.table@[i as int]@, k as int);
            }
        }
        found.is_some()
    }

    /// The children held under `key`, if any.
    pub fn get(&self, key: &Digest) -> (r: Option<Vec<Digest>>)
        requires
            self.wf(),
        ensures
            match r {
                Some(node) => self@.dom().contains(key@) && views(node@) == self@[key@],
                None => !self@.dom().contains(key@),
            },
    {
        let i = slot(key);
        match find(&self.table[i], key) {
            Some(k) => {
                proof {
                    lemma_value(self.table@[i as int]@, k as int);
                }
                Some(copy_digests(&self.table[i][k].node))
            },
            None => None,
        }
    }

    /// Files `node` under `key`, in place of what the key held before.
    pub fn insert(&mut self, key: Digest, node: Vec<Digest>)
        requires
            old(self).wf(),
        ensures
            final(self).wf(),
            final(self)@ == old(self)@.insert(key@, views(node@)),
    {
        let i = slot(&key);
        let ghost before = self.table@[i as int]@;
        let found = find(&self.table[i], &key);
        let e = Entry { key, node };
        match found {
            Some(k) => {
                proof {
                    lemma_replace(before, k as int, e);
                }
                self.table[i][k] = e;
            },
            None => {
                proof {
                    lemma_keys(before, e.key@);
                    assert(before.push(e).drop_last() =~= before);
                    assert(distinct(before.push(e))) by {
                        let after = before.push(e);
                        assert forall|a: int, b: int| 0 <= a < b < after.len() implies (
                        #[trigger] after[a]).key@ != (#[trigger] after[b]).key@ by {
                            if b < before.len() {
                                assert(before[a].key@ != before[b].key@);
                            } else {
                                assert(before[a].key@ != e.key@);
                            }
                        }
                    }
                }
                self.table[i].push(e);
            },
        }
        proof {
            let after = self.table@[i as int]@;
            assert(in_slot(before, i as int));
            assert(in_slot(after, i as int)) by {
                assert forall|j: int| 0 <= j < after.len() implies slot_of(
                    (#[trigger] after[j]).key@,
                ) == i by {
                    if j < before.len() && after[j] != e {
                        assert(after[j] == before[j]);
                        assert(slot_of(before[j].key@) == i);
                    }
                }
            }
            assert(map_of(after) == map_of(before).insert(e.key@, views(e.node@)));
            assert forall|q: Seq<u8>| #![auto] slot_of(q) != i implies self.table@[slot_of(q) as int]
                == old(self).table@[slot_of(q) as int] by {
                lemma_slot_bound(q);
            }
            assert(self@ =~= old(self)@.insert(e.key@, views(e.node@)));
        }
    }

    /// Every node held, each with its key: each key once, and none left out.
    pub fn entries(&self) -> (r: Vec<(Digest, Vec<Digest>)>)
        requires
            self.wf(),
        ensures
            forall|i: int|
                0 <= i < r@.len() ==> self@.dom().contains((#[trigger] r@[i]).0@) && self@[r@[i].0@]
                    == views(r@[i].1@),
            forall|k: Seq<u8>|
                self@.dom().contains(k) ==> exists|i: int|
                    0 <= i < r@.len() && (#[trigger] r@[i]).0@ == k,
            forall|i: int, j: int|
                0 <= i < j < r@.len() ==> (#[trigger] r@[i]).0@ != (#[trigger] r@[j]).0@,
    {
        let mut out: Vec<(Digest, Vec<Digest>)> = Vec::new();
        let ghost mut origin: Seq<(int, int)> = Seq::empty();
        let mut s: usize = 0;
        while s < SLOTS
            invariant
                s <= SLOTS,
                self.wf(),
                origin.len() == out@.len(),
                forall|i: int|
                    0 <= i < out@.len() ==> {
                        let (a, b) = #[trigger] origin[i];
                        &&& 0 <= a < s
                        &&& 0 <= b < self.table@[a]@.len()
                        &&& out@[i].0@ == self.table@[a]@[b].key@
                        &&& views(out@[i].1@) == views(self.table@[a]@[b].node@)
                    },
                forall|a: int, b: int|
                    0 <= a < s && 0 <= b < self.table@[a]@.len() ==> #[trigger] listed(origin, a, b),
                forall|i: int, j: int|
                    0 <= i < j < out@.len() ==> #[trigger] origin[i] != #[trigger] origin[j],
            decreases SLOTS - s,
        {
            let run = &self.table[s];
            let mut e: usize = 0;
            while e < run.len()
                invariant
                    s < SLOTS,
                    self.wf(),
                    run == &self.table@[s as int],
                    e <= run@.len(),
                    origin.len() == out@.len(),
                    forall|i: int|
                        0 <= i < out@.len() ==> {
                            let (a, b) = #[trigger] origin[i];
                            &&& 0 <= a <= s
                            &&& 0 <= b < self.table@[a]@.len()
                            &&& a == s ==> b < e
                            &&& out@[i].0@ == self.table@[a]@[b].key@
                            &&& views(out@[i].1@) == views(self.table@[a]@[b].node@)
                        },
                    forall|a: int, b: int|
                        (0 <= a < s && 0 <= b < self.table@[a]@.len()) || (a == s && 0 <= b < e)
                            ==> #[trigger] listed(origin, a, b),
                    forall|i: int, j: int|
                        0 <= i < j < out@.len() ==> #[trigger] origin[i] != #[trigger] origin[j],
                decreases run@.len() - e,
            {
                let ghost before = origin;
                out.push((run[e].key.clone(), copy_digests(&run[e].node)));
                proof {
                    origin = origin.push((s as int, e as int));
                    assert forall|a: int, b: int|
                        (0 <= a < s && 0 <= b < self.table@[a]@.len()) || (a == s && 0 <= b < e
                            + 1) implies #[trigger] listed(origin, a, b) by {
                        if a == s && b == e {
                            assert(origin[before.len() as int] == (a, b));
                        } else {
                            assert(listed(before, a, b));
                            let i = choose|i: int|
                                0 <= i < before.len() && #[trigger] before[i] == (a, b);
                            assert(origin[i] == (a, b));
                        }
                    }
                }
                e += 1;
            }
            s += 1;
        }
        proof {
            assert forall|i: int| 0 <= i < out@.len() implies self@.dom().contains(
                (#[trigger] out@[i]).0@,
            ) && self@[out@[i].0@] == views(out@[i].1@) by {
                let (a, b) = origin[i];
                assert(in_slot(self.table@[a]@, a));
                assert(slot_of(self.table@[a]@[b].key@) == a);
                lemma_value(self.table@[a]@, b);
            }
            assert forall|k: Seq<u8>| self@.dom().contains(k) implies exists|i: int|
                0 <= i < out@.len() && (#[trigger] out@[i]).0@ == k by {
                lemma_slot_bound(k);
                let a = slot_of(k) as int;
                lemma_keys(self.table@[a]@, k);
                let b = choose|b: int|
                    0 <= b < self.table@[a]@.len() && (#[trigger] self.table@[a]@[b]).key@ == k;
                assert(listed(origin, a, b));
                let i = choose|i: int| 0 <= i < origin.len() && #[trigger] origin[i] == (a, b);
                assert(out@[i].0@ == k);
            }
            assert forall|i: int, j: int| 0 <= i < j < out@.len() implies (#[trigger] out@[i]).0@
                != (#[trigger] out@[j]).0@ by {
                let (a, b) = origin[i];
                let (c, d) = origin[j];
                assert(in_slot(self.table@[a]@, a));
                assert(in_slot(self.table@[c]@, c));
                assert(slot_of(self.table@[a]@[b].key@) == a);
                assert(slot_of(self.table@[c]@[d].key@) == c);
                if a == c {
                    assert(distinct(self.table@[a]@));
                    if b < d {
                        assert(self.table@[a]@[b].key@ != self.table@[a]@[d].key@);
                    } else {
                        assert(self.table@[a]@[d].key@ != self.table@[a]@[b].key@);
                    }
                }
            }
        }
        out
    }

    /// Files `node` under `key` unless the key is taken: the first node under a
    /// digest stays.
    pub fn insert_new(&mut self, key: Digest, node: Vec<Digest>)
        requires
            old(self).wf(),
        ensures
            final(self).wf(),
            final(self)@ == put_new(old(self)@, key@, views(node@)),
    {
        if !self.contains_key(&key) {
            self.insert(key, node);
        }
    }
}

/// Every key has a slot of the table.
proof fn lemma_slot_bound(key: Seq<u8>)
    ensures
        slot_of(key) < SLOTS,
    decreases key.len(),
{
    if key.len() > 0 {
        lemma_slot_bound(key.drop_last());
    }
}

/// A copy of a run of digests.
pub fn copy_digests(v: &Vec<Digest>) -> (r: Vec<Digest>)
    ensures
        views(r@) == views(v@),
{
    let mut r: Vec<Digest> = Vec::new();
    let mut i: usize = 0;
    while i < v.len()
        invariant
            i <= v@.len(),
            r@.len() == i,
            forall|j: int| 0 <= j < i ==> r@[j]@ == v@[j]@,
        decreases v@.len() - i,
    {
        r.push(v[i].clone());
        i += 1;
    }
    assert(views(r@) =~= views(v@));
    r
}

/// An empty store.
pub fn make_db() -> (db: NodeStore)
    ensures
        db.wf(),
        db@ == Map::<Seq<u8>, Seq<Seq<u8>>>::empty(),
{
    NodeStore::new()
}

} // verus!
