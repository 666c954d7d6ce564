//! The reassembly buffer: fragments of one fan-out gathered until complete,
//! then handed out once.
use crate::batch::{RecordBatch, batches_view};
use crate::task_id::{GroupKey, TaskId, TaskIdView};
use vstd::prelude::*;

verus! {

/// What one fragment carried.
pub type FragmentView = Seq<Seq<Seq<u64>>>;

/// The slots of one group, one per sequence index; `None` until it arrives.
pub type SlotsView = Seq<Option<FragmentView>>;

/// Why a `put` or a `take` was refused.
#[derive(PartialEq, Eq, Structural, Clone, Copy, Debug)]
pub enum ArenaError {
    /// The group holds no fragment.
    NotFound,
    /// Some fragment of the group has not arrived yet.
    NotReady,
    /// The sequence index lies outside its fan-out, the fan-out is empty, or
    /// its size disagrees with earlier fragments of the group.
    InvalidTaskId,
}

struct ArenaEntry {
    key: GroupKey,
    slots: Vec<Option<Vec<RecordBatch>>>,
}

pub open spec fn slot_view(o: Option<Vec<RecordBatch>>) -> Option<FragmentView> {
    match o {
        Some(v) => Some(batches_view(v@)),
        None => None,
    }
}

impl ArenaEntry {
    spec fn slots_view(&self) -> SlotsView {
        self.slots@.map_values(|o: Option<Vec<RecordBatch>>| slot_view(o))
    }
}

/// Every slot is filled.
pub open spec fn complete(slots: SlotsView) -> bool {
    forall|i: int| 0 <= i < slots.len() ==> (#[trigger] slots[i]) is Some
}

/// The contents of complete slots, in order of sequence index.
pub open spec fn contents(slots: SlotsView) -> Seq<FragmentView> {
    slots.map_values(|o: Option<FragmentView>| o.unwrap())
}

/// The fragment `id` can be placed among `slots` of its group (`None` when
/// the group is new).
pub open spec fn fits(slots: Option<SlotsView>, id: TaskIdView) -> bool {
    &&& id.sequence_index < id.total_fragments
    &&& slots matches Some(s) ==> s.len() == id.total_fragments
}

/// The slots of the group of `id` after `fragment` is put there: a fragment
/// that arrived before is kept and the repeat ignored.
pub open spec fn after_put(slots: Option<SlotsView>, id: TaskIdView, fragment: FragmentView) -> SlotsView {
    let s = match slots {
        Some(s) => s,
        None => Seq::new(id.total_fragments as nat, |i: int| None),
    };
    if s[id.sequence_index as int] is Some {
        s
    } else {
        s.update(id.sequence_index as int, Some(fragment))
    }
}

/// The slots of group `k` in `m`, if it holds a fragment.
pub open spec fn current(m: Map<(Seq<char>, u64), SlotsView>, k: (Seq<char>, u64)) -> Option<SlotsView> {
    if m.contains_key(k) {
        Some(m[k])
    } else {
        None
    }
}

fn all_filled(slots: &Vec<Option<Vec<RecordBatch>>>) -> (r: bool)
    ensures
        r == complete(slots@.map_values(|o: Option<Vec<RecordBatch>>| slot_view(o))),
{
    let ghost v = slots@.map_values(|o: Option<Vec<RecordBatch>>| slot_view(o));
    let mut i: usize = 0;
    while i < slots.len()
        invariant
            i <= slots@.len(),
            v == slots@.map_values(|o: Option<Vec<RecordBatch>>| slot_view(o)),
            forall|j: int| 0 <= j < i ==> (#[trigger] v[j]) is Some,
        decreases slots.len() - i,
    {
        if slots[i].is_none() {
            assert(v[i as int] is None);
            return false;
        }
        i = i + 1;
    }
    true
}

/// Gathers the fragments of fan-outs, keyed by group.
pub struct Arena {
    entries: Vec<ArenaEntry>,
}

impl Arena {
    spec fn has(&self, k: (Seq<char>, u64)) -> bool {
        exists|i: int| 0 <= i < self.entries@.len() && (#[trigger] self.entries@[i]).key@ == k
    }

    spec fn index_of(&self, k: (Seq<char>, u64)) -> int {
        choose|i: int| 0 <= i < self.entries@.len() && (#[trigger] self.entries@[i]).key@ == k
    }

    /// The slots of each group that holds a fragment.
    pub closed spec fn view(&self) -> Map<(Seq<char>, u64), SlotsView> {
        Map::new(|k: (Seq<char>, u64)| self.has(k), |k: (Seq<char>, u64)| self.entries@[self.index_of(k)].slots_view())
    }

    /// Groups are held once each.
    pub closed spec fn wf(&self) -> bool {
        forall|i: int, j: int|
            0 <= i < self.entries@.len() && 0 <= j < self.entries@.len() && i != j ==> (#[trigger] self.entries@[i]).key@
                != (#[trigger] self.entries@[j]).key@
    }

    proof fn lemma_index(&self, i: int)
        requires
            self.wf(),
            0 <= i < self.entries@.len(),
        ensures
            self.has(self.entries@[i].key@),
            self.index_of(self.entries@[i].key@) == i,
            self.view()[self.entries@[i].key@] == self.entries@[i].slots_view(),
    {
        let k = self.entries@[i].key@;
        assert(self.has(k));
        let j = self.index_of(k);
        assert(self.entries@[j].key@ == k);
    }

    pub fn new() -> (r: Arena)
        ensures
            r.wf(),
            r.view() == Map::<(Seq<char>, u64), SlotsView>::empty(),
    {
        let r = Arena { entries: Vec::new() };
        assert(r.view() =~= Map::<(Seq<char>, u64), SlotsView>::empty());
        r
    }

    fn find(&self, key: &GroupKey) -> (r: Option<usize>)
        requires
            self.wf(),
        ensures
            match r {
                Some(i) => i < self.entries@.len() && self.entries@[i as int].key@ == key@,
                None => !self.view().contains_key(key@),
            },
    {
        let mut i: usize = 0;
        while i < self.entries.len()
            invariant
                i <= self.entries@.len(),
                forall|j: int| 0 <= j < i ==> (#[trigger] self.entries@[j]).key@ != key@,
            decreases self.entries.len() - i,
        {
            if self.entries[i].key.fanout == key.fanout && self.entries[i].key.stage_name == key.stage_name {
                return Some(i);
            }
            i = i + 1;
        }
        None
    }

    proof fn lemma_view_update(old_arena: &Arena, new_arena: &Arena, i: int)
        requires
            old_arena.wf(),
            0 <= i < old_arena.entries@.len(),
            new_arena.entries@ == old_arena.entries@.update(i, new_arena.entries@[i]),
            new_arena.entries@[i].key@ == old_arena.entries@[i].key@,
        ensures
            new_arena.wf(),
            new_arena.view() == old_arena.view().insert(
                new_arena.entries@[i].key@,
                new_arena.entries@[i].slots_view(),
            ),
    {
        let k = new_arena.entries@[i].key@;
        let m = old_arena.view().insert(k, new_arena.entries@[i].slots_view());
        assert forall|a: int, b: int|
            0 <= a < new_arena.entries@.len() && 0 <= b < new_arena.entries@.len() && a != b implies (#[trigger] new_arena.entries@[a]).key@
            != (#[trigger] new_arena.entries@[b]).key@ by {
            assert(old_arena.entries@[a].key@ != old_arena.entries@[b].key@);
        }
        assert forall|k2: (Seq<char>, u64)| #[trigger] new_arena.view().contains_key(k2) == m.contains_key(k2) by {
            if new_arena.has(k2) {
                let j = new_arena.index_of(k2);
                assert(old_arena.entries@[j].key@ == k2);
            }
            if old_arena.has(k2) {
                let j = old_arena.index_of(k2);
                assert(new_arena.entries@[j].key@ == k2);
            }
        }
        assert forall|k2: (Seq<char>, u64)| #[trigger] new_arena.view().contains_key(k2) implies new_arena.view()[k2]
            == m[k2] by {
            let j = new_arena.index_of(k2);
            new_arena.lemma_index(j);
            if j != i {
                old_arena.lemma_index(j);
            }
        }
        assert(new_arena.view() =~= m);
    }

    proof fn lemma_view_push(old_arena: &Arena, new_arena: &Arena)
        requires
            old_arena.wf(),
            new_arena.entries@.len() == old_arena.entries@.len() + 1,
            new_arena.entries@.drop_last() == old_arena.entries@,
            !old_arena.view().contains_key(new_arena.entries@.last().key@),
        ensures
            new_arena.wf(),
            new_arena.view() == old_arena.view().insert(
                new_arena.entries@.last().key@,
                new_arena.entries@.last().slots_view(),
            ),
    {
        let n = old_arena.entries@.len() as int;
        let e = new_arena.entries@.last();
        let m = old_arena.view().insert(e.key@, e.slots_view());
        assert forall|j: int| 0 <= j < n implies new_arena.entries@[j] == old_arena.entries@[j] by {
            assert(new_arena.entries@.drop_last()[j] == new_arena.entries@[j]);
        }
        assert forall|a: int, b: int|
            0 <= a < new_arena.entries@.len() && 0 <= b < new_arena.entries@.len() && a != b implies (#[trigger] new_arena.entries@[a]).key@
            != (#[trigger] new_arena.entries@[b]).key@ by {
            if a == n {
                assert(!old_arena.has(e.key@));
                assert(old_arena.entries@[b].key@ != e.key@);
            } else if b == n {
                assert(!old_arena.has(e.key@));
                assert(old_arena.entries@[a].key@ != e.key@);
            } else {
                assert(old_arena.entries@[a].key@ != old_arena.entries@[b].key@);
            }
        }
        assert forall|k2: (Seq<char>, u64)| #[trigger] new_arena.view().contains_key(k2) == m.contains_key(k2) by {
            if new_arena.has(k2) {
                let j = new_arena.index_of(k2);
                if j < n {
                    assert(old_arena.entries@[j].key@ == k2);
                }
            }
            if old_arena.has(k2) {
                let j = old_arena.index_of(k2);
                assert(new_arena.entries@[j].key@ == k2);
            }
            if k2 == e.key@ {
                assert(new_arena.entries@[n].key@ == k2);
            }
        }
        assert forall|k2: (Seq<char>, u64)| #[trigger] new_arena.view().contains_key(k2) implies new_arena.view()[k2]
            == m[k2] by {
            let j = new_arena.index_of(k2);
            new_arena.lemma_index(j);
            if j != n {
                old_arena.lemma_index(j);
            }
        }
        assert(new_arena.view() =~= m);
    }

    proof fn lemma_view_remove(old_arena: &Arena, new_arena: &Arena, i: int)
        requires
            old_arena.wf(),
            0 <= i < old_arena.entries@.len(),
            new_arena.entries@ == old_arena.entries@.remove(i),
        ensures
            new_arena.wf(),
            new_arena.view() == old_arena.view().remove(old_arena.entries@[i].key@),
    {
        let k = old_arena.entries@[i].key@;
        let m = old_arena.view().remove(k);
        let n = new_arena.entries@.len() as int;
        assert forall|j: int| 0 <= j < n implies #[trigger] new_arena.entries@[j] == old_arena.entries@[if j < i { j } else { j + 1 }] by {}
        assert forall|a: int, b: int|
            0 <= a < n && 0 <= b < n && a != b implies (#[trigger] new_arena.entries@[a]).key@
            != (#[trigger] new_arena.entries@[b]).key@ by {
            let a2 = if a < i { a } else { a + 1 };
            let b2 = if b < i { b } else { b + 1 };
            assert(old_arena.entries@[a2].key@ != old_arena.entries@[b2].key@);
        }
        assert forall|k2: (Seq<char>, u64)| #[trigger] new_arena.view().contains_key(k2) == m.contains_key(k2) by {
            if new_arena.has(k2) {
                let j = new_arena.index_of(k2);
                let j2 = if j < i { j } else { j + 1 };
                assert(old_arena.entries@[j2].key@ == k2);
                assert(k2 != k);
            }
            if old_arena.has(k2) && k2 != k {
                let j = old_arena.index_of(k2);
                assert(j != i);
                let j2 = if j < i { j } else { j - 1 };
                assert(new_arena.entries@[j2].key@ == k2);
            }
        }
        assert forall|k2: (Seq<char>, u64)| #[trigger] new_arena.view().contains_key(k2) implies new_arena.view()[k2]
            == m[k2] by {
            let j = new_arena.index_of(k2);
            new_arena.lemma_index(j);
            let j2 = if j < i { j } else { j + 1 };
            old_arena.lemma_index(j2);
        }
        assert(new_arena.view() =~= m);
    }

    /// Puts one fragment into the group of `id`. Says `true` exactly when
    /// this call completed the group; a fragment that arrives again is ignored.
    pub fn put(&mut self, id: &TaskId, fragment: Vec<RecordBatch>) -> (r: Result<(bool, GroupKey), ArenaError>)
        requires
            old(self).wf(),
        ensures
            final(self).wf(),
            ({
                let k = id@.group();
                let cur = current(old(self).view(), k);
                if fits(cur, id@) {
                    let after = after_put(cur, id@, batches_view(fragment@));
                    &&& r matches Ok((ready, g)) && g@ == k && ready == (complete(after) && !(cur matches Some(
                        s,
                    ) && complete(s)))
                    &&& final(self).view() == old(self).view().insert(k, after)
                } else {
                    &&& r matches Err(e) && e == ArenaError::InvalidTaskId
                    &&& final(self).view() == old(self).view()
                }
            }),
    {
        let key = id.group();
        let total = id.total_fragments;
        let seq = id.sequence_index;
        if seq >= total {
            return Err(ArenaError::InvalidTaskId);
        }
        let ghost frag_view = batches_view(fragment@);
        match self.find(&key) {
            Some(i) => {
                proof {
                    self.lemma_index(i as int);
                }
                if self.entries[i].slots.len() as u64 != total {
                    return Err(ArenaError::InvalidTaskId);
                }
                let ghost before = *self;
                let mut e = self.entries.remove(i);
                if e.slots[seq as usize].is_some() {
                    self.entries.insert(i, e);
                    assert(self.entries@ =~= before.entries@);
                    assert(self.view() =~= before.view().insert(key@, before.view()[key@]));
                    return Ok((false, key));
                }
                e.slots.set(seq as usize, Some(fragment));
                let ready = all_filled(&e.slots);
                self.entries.insert(i, e);
                proof {
                    assert(self.entries@ =~= before.entries@.update(i as int, self.entries@[i as int]));
                    assert(e.slots_view() =~= after_put(Some(before.view()[key@]), id@, frag_view));
                    Arena::lemma_view_update(&before, self, i as int);
                }
                Ok((ready, key))
            },
            None => {
                let mut slots: Vec<Option<Vec<RecordBatch>>> = Vec::new();
                let mut j: u64 = 0;
                while j < total
                    invariant
                        j <= total,
                        slots@.len() == j,
                        forall|t: int| 0 <= t < j ==> (#[trigger] slots@[t]) is None,
                    decreases total - j,
                {
                    slots.push(None);
                    j = j + 1;
                }
                let n = slots.len();
                assert(seq < n);
                slots.set(seq as usize, Some(fragment));
                let ready = all_filled(&slots);
                let ghost before = *self;
                let e = ArenaEntry { key: key.clone(), slots };
                assert(e.slots_view() =~= after_put(None, id@, frag_view));
                self.entries.push(e);
                proof {
                    assert(self.entries@.drop_last() =~= before.entries@);
                    Arena::lemma_view_push(&before, self);
                }
                Ok((ready, key))
            },
        }
    }

    /// Removes a complete group and hands out its fragments in order of
    /// sequence index.
    pub fn take(&mut self, key: &GroupKey) -> (r: Result<Vec<Vec<RecordBatch>>, ArenaError>)
        requires
            old(self).wf(),
        ensures
            final(self).wf(),
            !old(self).view().contains_key(key@) ==> (r matches Err(e) && e == ArenaError::NotFound
                && final(self).view() == old(self).view()),
            old(self).view().contains_key(key@) && !complete(old(self).view()[key@]) ==> (r matches Err(e)
                && e == ArenaError::NotReady && final(self).view() == old(self).view()),
            old(self).view().contains_key(key@) && complete(old(self).view()[key@]) ==> (r matches Ok(bs)
                && bs@.map_values(|v: Vec<RecordBatch>| batches_view(v@)) == contents(old(self).view()[key@])
                && final(self).view() == old(self).view().remove(key@)),
    {
        let i = match self.find(key) {
            None => return Err(ArenaError::NotFound),
            Some(i) => i,
        };
        proof {
            self.lemma_index(i as int);
        }
        if !all_filled(&self.entries[i].slots) {
            return Err(ArenaError::NotReady);
        }
        let ghost before = *self;
        let mut e = self.entries.remove(i);
        proof {
            Arena::lemma_view_remove(&before, self, i as int);
        }
        let ghost sv = e.slots_view();
        let mut out: Vec<Vec<RecordBatch>> = Vec::new();
        let mut j: usize = 0;
        while j < e.slots.len()
            invariant
                j <= e.slots@.len(),
                e.slots@.len() == sv.len(),
                complete(sv),
                forall|t: int| j <= t < sv.len() ==> slot_view(#[trigger] e.slots@[t]) == sv[t],
                out@.map_values(|v: Vec<RecordBatch>| batches_view(v@)) == contents(sv).take(j as int),
            decreases e.slots.len() - j,
        {
            let mut slot: Option<Vec<RecordBatch>> = None;
            e.slots.set_and_swap(j, &mut slot);
            assert(slot_view(slot) == sv[j as int]);
            match slot {
                Some(v) => {
                    let ghost prev = out@.map_values(|v: Vec<RecordBatch>| batches_view(v@));
                    assert(contents(sv)[j as int] == batches_view(v@));
                    out.push(v);
                    assert(out@.map_values(|v: Vec<RecordBatch>| batches_view(v@)) =~= prev.push(batches_view(v@)));
                    assert(prev.push(batches_view(v@)) =~= contents(sv).take(j + 1));
                },
                None => {
                    assert(sv[j as int] is Some);
                },
            }
            j = j + 1;
        }
        assert(contents(sv).take(sv.len() as int) =~= contents(sv));
        Ok(out)
    }

} // impl Arena

/// The slots of a group after its first `n` fragments were put, starting
/// from a group that held none.
pub open spec fn slots_after(ids: Seq<TaskIdView>, fragments: Seq<FragmentView>, n: nat) -> Option<SlotsView>
    decreases n,
{
    if n == 0 || n > ids.len() {
        None
    } else {
        Some(after_put(slots_after(ids, fragments, (n - 1) as nat), ids[n - 1], fragments[n - 1]))
    }
}

/// Whether the `n`-th put (counting from one) reports the group ready.
pub open spec fn ready_at(ids: Seq<TaskIdView>, fragments: Seq<FragmentView>, n: nat) -> bool {
    &&& slots_after(ids, fragments, n) matches Some(s) && complete(s)
    &&& !(slots_after(ids, fragments, (n - 1) as nat) matches Some(s) && complete(s))
}

/// The identifiers are the `k` fragments of one fan-out, in some order.
pub open spec fn one_fanout_in_any_order(ids: Seq<TaskIdView>, k: u64) -> bool {
    &&& ids.len() == k
    &&& forall|m: int| 0 <= m < ids.len() ==> (#[trigger] ids[m]).group() == ids[0].group()
    &&& forall|m: int| 0 <= m < ids.len() ==> (#[trigger] ids[m]).total_fragments == k
    &&& forall|m: int| 0 <= m < ids.len() ==> (#[trigger] ids[m]).sequence_index < k
    &&& forall|a: int, b: int|
        0 <= a < ids.len() && 0 <= b < ids.len() && a != b ==> (#[trigger] ids[a]).sequence_index
            != (#[trigger] ids[b]).sequence_index
    &&& forall|idx: u64| idx < k ==> #[trigger] has_index(ids, idx)
}

/// Some identifier among `ids` carries sequence index `idx`.
pub open spec fn has_index(ids: Seq<TaskIdView>, idx: u64) -> bool {
    exists|m: int| 0 <= m < ids.len() && (#[trigger] ids[m]).sequence_index == idx
}

proof fn lemma_slots_after(ids: Seq<TaskIdView>, fragments: Seq<FragmentView>, k: u64, n: nat)
    requires
        one_fanout_in_any_order(ids, k),
        fragments.len() == k,
        1 <= n <= k,
    ensures
        slots_after(ids, fragments, n) matches Some(s) && s.len() == k
            && (forall|m: int| 0 <= m < n ==> s[ids[m].sequence_index as int] == Some(#[trigger] fragments[m]))
            && (forall|idx: int| 0 <= idx < k && (#[trigger] s[idx]) is Some ==> exists|m: int| 0 <= m < n && ids[m].sequence_index == idx),
    decreases n,
{
    if n > 1 {
        lemma_slots_after(ids, fragments, k, (n - 1) as nat);
        let prev = slots_after(ids, fragments, (n - 1) as nat).unwrap();
        let t = ids[n - 1].sequence_index as int;
        if prev[t] is Some {
            let m = choose|m: int| 0 <= m < n - 1 && ids[m].sequence_index == t;
            assert(ids[m].sequence_index != ids[n - 1].sequence_index);
        }
        let s = slots_after(ids, fragments, n).unwrap();
        assert forall|idx: int| 0 <= idx < k && (#[trigger] s[idx]) is Some implies exists|m: int|
            0 <= m < n && ids[m].sequence_index == idx by {
            if idx != t {
                assert(prev[idx] is Some);
                let m = choose|m: int| 0 <= m < n - 1 && ids[m].sequence_index == idx;
                assert(0 <= m < n && ids[m].sequence_index == idx);
            } else {
                assert(ids[n - 1].sequence_index == idx);
            }
        }
        assert forall|m: int| 0 <= m < n implies s[ids[m].sequence_index as int] == Some(#[trigger] fragments[m]) by {
            if m < n - 1 {
                assert(ids[m].sequence_index != ids[n - 1].sequence_index);
            }
        }
    } else {
        let s = slots_after(ids, fragments, 1).unwrap();
        assert forall|idx: int| 0 <= idx < k && (#[trigger] s[idx]) is Some implies exists|m: int|
            0 <= m < n && ids[m].sequence_index == idx by {
            assert(ids[0].sequence_index == idx);
        }
    }
}

/// Putting the `k` fragments of one fan-out into an arena that holds none
/// of its group, in any order, reports the group ready on the `k`-th put
/// and on no earlier one; the group then holds every fragment, each at its
/// sequence index.
pub proof fn lemma_ready_exactly_at_last(ids: Seq<TaskIdView>, fragments: Seq<FragmentView>, k: u64)
    requires
        k >= 1,
        one_fanout_in_any_order(ids, k),
        fragments.len() == k,
    ensures
        forall|n: nat| 1 <= n <= k ==> (#[trigger] ready_at(ids, fragments, n) <==> n == k),
        slots_after(ids, fragments, k as nat) matches Some(s) && complete(s) && (forall|m: int|
            0 <= m < k ==> contents(s)[ids[m].sequence_index as int] == #[trigger] fragments[m]),
{
    assert forall|n: nat| 1 <= n <= k implies (#[trigger] ready_at(ids, fragments, n) <==> n == k) by {
        lemma_slots_after(ids, fragments, k, n);
        let s = slots_after(ids, fragments, n).unwrap();
        if n < k {
            let t = ids[k - 1].sequence_index as int;
            if s[t] is Some {
                let m = choose|m: int| 0 <= m < n && ids[m].sequence_index == t;
                assert(ids[m].sequence_index != ids[k - 1].sequence_index);
            }
            assert(!complete(s));
        } else {
            assert forall|idx: int| 0 <= idx < s.len() implies (#[trigger] s[idx]) is Some by {
                assert(has_index(ids, idx as u64));
                let m = choose|m: int| 0 <= m < ids.len() && (#[trigger] ids[m]).sequence_index == idx as u64;
                assert(s[ids[m].sequence_index as int] == Some(fragments[m]));
            }
            if n > 1 {
                lemma_slots_after(ids, fragments, k, (n - 1) as nat);
                let p = slots_after(ids, fragments, (n - 1) as nat).unwrap();
                let t = ids[k - 1].sequence_index as int;
                if p[t] is Some {
                    let m = choose|m: int| 0 <= m < n - 1 && ids[m].sequence_index == t;
                    assert(ids[m].sequence_index != ids[k - 1].sequence_index);
                }
            }
        }
    }
    lemma_slots_after(ids, fragments, k, k as nat);
    let s = slots_after(ids, fragments, k as nat).unwrap();
    assert(ready_at(ids, fragments, k as nat));
}

/// Once a group is complete, putting any of its fragments again, as
/// at-least-once delivery may, leaves it as it is and does not report it
/// ready: the hand-off happens once.
pub proof fn lemma_complete_group_not_ready_again(s: SlotsView, id: TaskIdView, fragment: FragmentView)
    requires
        complete(s),
        fits(Some(s), id),
    ensures
        after_put(Some(s), id, fragment) == s,
        !(complete(after_put(Some(s), id, fragment)) && !(Some(s) matches Some(t) && complete(t))),
{
    assert(s[id.sequence_index as int] is Some);
}

} // verus!
