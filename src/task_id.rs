//! Task identifiers minted per fan-out.
use vstd::prelude::*;

verus! {

/// Identifies one fragment of one fan-out of a stage.
#[derive(Debug)]
pub struct TaskId {
    pub stage_name: String,
    /// Counter of the fan-out within its stage; with `stage_name` it names the group.
    pub fanout: u64,
    pub sequence_index: u64,
    pub total_fragments: u64,
}

pub struct TaskIdView {
    pub stage_name: Seq<char>,
    pub fanout: u64,
    pub sequence_index: u64,
    pub total_fragments: u64,
}

/// The identity of a group of fragments: stage name and fan-out counter.
#[derive(Debug)]
pub struct GroupKey {
    pub stage_name: String,
    pub fanout: u64,
}

impl View for TaskId {
    type V = TaskIdView;

    open spec fn view(&self) -> TaskIdView {
        TaskIdView {
            stage_name: self.stage_name@,
            fanout: self.fanout,
            sequence_index: self.sequence_index,
            total_fragments: self.total_fragments,
        }
    }
}

impl View for GroupKey {
    type V = (Seq<char>, u64);

    open spec fn view(&self) -> (Seq<char>, u64) {
        (self.stage_name@, self.fanout)
    }
}

impl TaskIdView {
    pub open spec fn group(self) -> (Seq<char>, u64) {
        (self.stage_name, self.fanout)
    }
}

impl TaskId {
    /// The key of the group this fragment belongs to.
    pub fn group(&self) -> (r: GroupKey)
        ensures
            r@ == self@.group(),
    {
        GroupKey { stage_name: self.stage_name.clone(), fanout: self.fanout }
    }
}

impl Clone for TaskId {
    fn clone(&self) -> (r: TaskId)
        ensures
            r@ == self@,
    {
        TaskId {
            stage_name: self.stage_name.clone(),
            fanout: self.fanout,
            sequence_index: self.sequence_index,
            total_fragments: self.total_fragments,
        }
    }
}

impl Clone for GroupKey {
    fn clone(&self) -> (r: GroupKey)
        ensures
            r@ == self@,
    {
        GroupKey { stage_name: self.stage_name.clone(), fanout: self.fanout }
    }
}

/// Mints the task identifiers of successive fan-outs of one stage.
pub struct TaskIdMinter {
    stage_name: String,
    next_fanout: u64,
}

/// The identifiers `ids` are one fan-out of `total` fragments minted by `before`,
/// which became `after`.
pub open spec fn minted(before: TaskIdMinter, total: u64, after: TaskIdMinter, ids: Seq<TaskIdView>) -> bool {
    &&& ids.len() == total
    &&& forall|i: int|
        0 <= i < ids.len() ==> (#[trigger] ids[i]) == (TaskIdView {
            stage_name: before.spec_stage_name(),
            fanout: before.spec_next_fanout(),
            sequence_index: i as u64,
            total_fragments: total,
        })
    &&& after.spec_stage_name() == before.spec_stage_name()
    &&& after.spec_next_fanout() == before.spec_next_fanout() + 1
}

impl TaskIdMinter {
    pub closed spec fn spec_stage_name(self) -> Seq<char> {
        self.stage_name@
    }

    pub closed spec fn spec_next_fanout(self) -> u64 {
        self.next_fanout
    }

    pub fn new(stage_name: String) -> (r: TaskIdMinter)
        ensures
            r.spec_stage_name() == stage_name@,
            r.spec_next_fanout() == 0,
    {
        TaskIdMinter { stage_name, next_fanout: 0 }
    }

    pub fn stage_name(&self) -> (r: &String)
        ensures
            r@ == self.spec_stage_name(),
    {
        &self.stage_name
    }

    pub fn next_fanout(&self) -> (r: u64)
        ensures
            r == self.spec_next_fanout(),
    {
        self.next_fanout
    }

    /// Whether the fan-out counter leaves room for another fan-out.
    pub fn can_mint(&self) -> (r: bool)
        ensures
            r == (self.spec_next_fanout() < u64::MAX),
    {
        self.next_fanout < u64::MAX
    }

    /// Mints `total_fragments` identifiers of a new fan-out, indexed in order.
    pub fn mint(&mut self, total_fragments: u64) -> (ids: Vec<TaskId>)
        requires
            old(self).spec_next_fanout() < u64::MAX,
        ensures
            minted(*old(self), total_fragments, *final(self), ids@.map_values(|t: TaskId| t@)),
    {
        let mut ids: Vec<TaskId> = Vec::new();
        let mut i: u64 = 0;
        while i < total_fragments
            invariant
                i <= total_fragments,
                ids.len() == i,
                forall|j: int|
                    0 <= j < i ==> (#[trigger] ids@[j])@ == (TaskIdView {
                        stage_name: self.stage_name@,
                        fanout: self.next_fanout,
                        sequence_index: j as u64,
                        total_fragments: total_fragments,
                    }),
            decreases total_fragments - i,
        {
            ids.push(
                TaskId {
                    stage_name: self.stage_name.clone(),
                    fanout: self.next_fanout,
                    sequence_index: i,
                    total_fragments,
                },
            );
            i = i + 1;
        }
        self.next_fanout = self.next_fanout + 1;
        ids
    }
}

/// Within one fan-out, the identifiers share one group and carry pairwise
/// distinct sequence indices.
pub proof fn lemma_one_fanout_one_group(
    before: TaskIdMinter,
    total: u64,
    after: TaskIdMinter,
    ids: Seq<TaskIdView>,
)
    requires
        minted(before, total, after, ids),
    ensures
        forall|i: int, j: int|
            0 <= i < ids.len() && 0 <= j < ids.len() ==> #[trigger] ids[i].group() == #[trigger] ids[j].group(),
        forall|i: int, j: int|
            0 <= i < ids.len() && 0 <= j < ids.len() && i != j ==> #[trigger] ids[i].sequence_index
                != #[trigger] ids[j].sequence_index,
{
}

/// Two successive fan-outs of one minter never share a group, whatever their sizes.
pub proof fn lemma_successive_fanouts_distinct(
    first_minter: TaskIdMinter,
    first_total: u64,
    second_minter: TaskIdMinter,
    first: Seq<TaskIdView>,
    second_total: u64,
    third_minter: TaskIdMinter,
    second: Seq<TaskIdView>,
)
    requires
        minted(first_minter, first_total, second_minter, first),
        minted(second_minter, second_total, third_minter, second),
    ensures
        forall|i: int, j: int|
            0 <= i < first.len() && 0 <= j < second.len() ==> #[trigger] first[i].group()
                != #[trigger] second[j].group(),
{
    assert forall|i: int, j: int| 0 <= i < first.len() && 0 <= j < second.len() implies #[trigger] first[i].group()
        != #[trigger] second[j].group() by {
        assert(first[i].fanout + 1 == second[j].fanout);
    }
}

} // verus!
