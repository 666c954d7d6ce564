//! The stage runtime: the state a warm instance keeps across activations,
//! and the decisions of one activation. The host rehydrates the descriptor
//! through `ensure_initialized`, hands each event to `prepare_input`, runs
//! the sub-plan on the input it returns, and hands the outputs to `finish`,
//! which says which invocations to send.
use crate::arena::{after_put, complete, contents, current, fits, Arena, ArenaError, FragmentView, SlotsView};
use crate::batch::{batches_view, conforms, flatten, lemma_flatten_width, lemma_round_robin_width, repartition, round_robin, RecordBatch, Schema};
use crate::codec::{decode, encode, parse_wire, rows_conform, wire_bytes, CodecError, Compression, PayloadView};
use crate::descriptor::{names_view, parse_descriptor, rehydrate, requires_reassembly, DescriptorError, DescriptorView, InputArrangement, RoutingDescriptor, RoutingView, StageDescriptor};
use crate::task_id::{TaskIdMinter, TaskIdView};
use vstd::prelude::*;

verus! {

/// What starts an activation.
pub enum ActivationEvent {
    /// An encoded payload from an upstream stage.
    Payload(Vec<u8>),
    /// Records from an outside source, already shaped as batches.
    External(Vec<RecordBatch>),
}

/// Why an activation failed.
#[derive(PartialEq, Eq, Structural, Clone, Copy, Debug)]
pub enum StageError {
    /// The descriptor is absent or malformed; the activation aborts.
    Descriptor(DescriptorError),
    /// The payload is poisoned; it is dropped and never reaches the arena.
    Codec(CodecError),
    /// The arena refused the fragment or the hand-off.
    Arena(ArenaError),
    /// The input holds no batch.
    EmptyInput,
    /// No descriptor has been rehydrated yet.
    NotInitialized,
    /// The event or the routing is of a shape this runtime does not handle.
    Unsupported,
    /// The fan-out counter of the stage is spent.
    FanoutExhausted,
}

/// What an activation does after reading its event.
pub enum InputStep {
    /// The group is not complete yet: nothing to compute.
    Pending,
    /// Compute over these input partitions.
    Compute(Vec<Vec<RecordBatch>>),
}

/// One invocation to send.
pub struct Invocation {
    pub target: String,
    pub payload: Vec<u8>,
}

/// How an activation ends after computing.
pub enum Completion {
    /// The stage is a sink: its outputs are its result.
    Sink { ack: String, outputs: Vec<RecordBatch> },
    /// Send these invocations, then acknowledge.
    Forward { ack: String, invocations: Vec<Invocation> },
}

pub open spec fn partitions_view(parts: Seq<Vec<RecordBatch>>) -> Seq<FragmentView> {
    parts.map_values(|p: Vec<RecordBatch>| batches_view(p@))
}

/// No partition holds a batch.
pub open spec fn no_batch(parts: Seq<FragmentView>) -> bool {
    forall|i: int| 0 <= i < parts.len() ==> (#[trigger] parts[i]).len() == 0
}

/// An activation's event, as mathematical values.
pub enum EventView {
    Payload(Seq<u8>),
    External(Seq<Seq<Seq<u64>>>),
}

impl View for ActivationEvent {
    type V = EventView;

    open spec fn view(&self) -> EventView {
        match self {
            ActivationEvent::Payload(b) => EventView::Payload(b@),
            ActivationEvent::External(bs) => EventView::External(batches_view(bs@)),
        }
    }
}

/// The outcome of reading an event, as mathematical values.
pub enum StepView {
    Pending,
    Compute(Seq<FragmentView>),
    Fail(StageError),
}

pub open spec fn step_view(r: Result<InputStep, StageError>) -> StepView {
    match r {
        Ok(InputStep::Pending) => StepView::Pending,
        Ok(InputStep::Compute(parts)) => StepView::Compute(partitions_view(parts@)),
        Err(e) => StepView::Fail(e),
    }
}

/// The error `decode` gives for bytes it cannot read.
pub open spec fn codec_error(bytes: Seq<u8>) -> CodecError {
    if bytes.len() == 0 || crate::codec::compression_of(bytes[0]) is None {
        CodecError::UnknownCompression
    } else {
        CodecError::Corrupt
    }
}

/// A stage that gathers fragments puts the decoded one into the arena; it
/// computes once the group is complete, over the fragments in order.
pub open spec fn gather(arena: Map<(Seq<char>, u64), SlotsView>, v: PayloadView) -> (StepView, Map<(Seq<char>, u64), SlotsView>) {
    let k = v.task_id.group();
    let cur = current(arena, k);
    if !fits(cur, v.task_id) {
        (StepView::Fail(StageError::Arena(ArenaError::InvalidTaskId)), arena)
    } else {
        let after = after_put(cur, v.task_id, v.batches);
        if complete(after) && !(cur matches Some(s) && complete(s)) {
            if no_batch(contents(after)) {
                (StepView::Fail(StageError::EmptyInput), arena.remove(k))
            } else {
                (StepView::Compute(contents(after)), arena.remove(k))
            }
        } else {
            (StepView::Pending, arena.insert(k, after))
        }
    }
}

/// What reading `event` gives, and the arena after it.
pub open spec fn step_of(d: Option<DescriptorView>, arena: Map<(Seq<char>, u64), SlotsView>, event: EventView) -> (StepView, Map<(Seq<char>, u64), SlotsView>) {
    match d {
        None => (StepView::Fail(StageError::NotInitialized), arena),
        Some(d) => match event {
            EventView::External(bs) => if d.input != InputArrangement::ExternalEvent {
                (StepView::Fail(StageError::Unsupported), arena)
            } else if bs.len() == 0 {
                (StepView::Fail(StageError::EmptyInput), arena)
            } else {
                (StepView::Compute(seq![bs]), arena)
            },
            EventView::Payload(bytes) => if d.input != InputArrangement::UpstreamPayload {
                (StepView::Fail(StageError::Unsupported), arena)
            } else {
                match parse_wire(bytes) {
                    None => (StepView::Fail(StageError::Codec(codec_error(bytes))), arena),
                    Some(v) => if requires_reassembly(d.routing) {
                        gather(arena, v)
                    } else if v.batches.len() == 0 {
                        (StepView::Fail(StageError::EmptyInput), arena)
                    } else {
                        (StepView::Compute(seq![v.batches]), arena)
                    },
                }
            },
        },
    }
}

/// The payload a single-routed stage sends: all its outputs, as the only
/// fragment of fan-out `fanout`.
pub open spec fn single_payload(name: Seq<char>, fanout: u64, fields: Seq<Seq<char>>, outputs: Seq<Seq<Seq<u64>>>) -> Seq<u8> {
    wire_bytes(
        PayloadView {
            task_id: TaskIdView { stage_name: name, fanout, sequence_index: 0, total_fragments: 1 },
            fields,
            batches: outputs,
        },
    )
}

/// The payload that a group-routed stage sends to member `p` of `k`: the
/// rows that round-robin selection gives partition `p`, as one batch.
pub open spec fn group_payload(name: Seq<char>, fanout: u64, k: nat, p: int, fields: Seq<Seq<char>>, outputs: Seq<Seq<Seq<u64>>>) -> Seq<u8> {
    wire_bytes(
        PayloadView {
            task_id: TaskIdView { stage_name: name, fanout, sequence_index: p as u64, total_fragments: k as u64 },
            fields,
            batches: seq![round_robin(flatten(outputs), k, p)],
        },
    )
}

fn all_empty(parts: &Vec<Vec<RecordBatch>>) -> (r: bool)
    ensures
        r == no_batch(partitions_view(parts@)),
{
    let mut i: usize = 0;
    while i < parts.len()
        invariant
            i <= parts@.len(),
            forall|j: int| 0 <= j < i ==> (#[trigger] partitions_view(parts@)[j]).len() == 0,
        decreases parts.len() - i,
    {
        if parts[i].len() > 0 {
            assert(partitions_view(parts@)[i as int].len() > 0);
            return false;
        }
        i = i + 1;
    }
    true
}

/// The state a warm instance keeps: the latched descriptor, the fan-out
/// counter of the stage and the reassembly arena.
pub struct ExecutionContext {
    descriptor: Option<StageDescriptor>,
    minter: TaskIdMinter,
    arena: Arena,
}

impl ExecutionContext {
    pub closed spec fn spec_descriptor(&self) -> Option<DescriptorView> {
        match &self.descriptor {
            Some(d) => Some(d@),
            None => None,
        }
    }

    pub closed spec fn spec_arena(&self) -> Map<(Seq<char>, u64), SlotsView> {
        self.arena.view()
    }

    pub closed spec fn spec_minter(&self) -> TaskIdMinter {
        self.minter
    }

    pub closed spec fn wf(&self) -> bool {
        &&& self.arena.wf()
        &&& self.descriptor matches Some(d) ==> self.minter.spec_stage_name() == d.stage_name@
    }

    /// A fresh warm instance: nothing rehydrated, nothing gathered.
    pub fn new() -> (r: ExecutionContext)
        ensures
            r.wf(),
            r.spec_descriptor() is None,
            r.spec_arena() == Map::<(Seq<char>, u64), SlotsView>::empty(),
    {
        ExecutionContext { descriptor: None, minter: TaskIdMinter::new(String::new()), arena: Arena::new() }
    }

    /// Whether a descriptor is latched.
    pub fn is_ready(&self) -> (r: bool)
        ensures
            r == self.spec_descriptor() is Some,
    {
        self.descriptor.is_some()
    }

    /// Rehydrates the descriptor on the first call that succeeds and keeps
    /// it for good; later calls change nothing.
    pub fn ensure_initialized(&mut self, raw: Option<&[u8]>) -> (r: Result<(), StageError>)
        requires
            old(self).wf(),
        ensures
            final(self).wf(),
            final(self).spec_arena() == old(self).spec_arena(),
            old(self).spec_descriptor() is Some ==> r is Ok && final(self).spec_descriptor()
                == old(self).spec_descriptor() && final(self).spec_minter() == old(self).spec_minter(),
            old(self).spec_descriptor() is None ==> match raw {
                None => r == Err::<(), StageError>(StageError::Descriptor(DescriptorError::Absent))
                    && final(self).spec_descriptor() is None,
                Some(b) => match parse_descriptor(b@) {
                    None => r == Err::<(), StageError>(StageError::Descriptor(DescriptorError::Malformed))
                        && final(self).spec_descriptor() is None,
                    Some(d) => r is Ok && final(self).spec_descriptor() == Some(d)
                        && final(self).spec_minter().spec_next_fanout() == 0,
                },
            },
    {
        if self.descriptor.is_some() {
            return Ok(());
        }
        match raw {
            None => Err(StageError::Descriptor(DescriptorError::Absent)),
            Some(b) => match rehydrate(b) {
                Err(e) => Err(StageError::Descriptor(e)),
                Ok(d) => {
                    self.minter = TaskIdMinter::new(d.stage_name.clone());
                    self.descriptor = Some(d);
                    Ok(())
                },
            },
        }
    }

    /// Reads the event of an activation: decodes a payload, gathers it
    /// when the stage ends a fan-in, and says whether to compute and on what.
    /// A payload that cannot be decoded never reaches the arena.
    pub fn prepare_input(&mut self, event: ActivationEvent) -> (r: Result<InputStep, StageError>)
        requires
            old(self).wf(),
        ensures
            final(self).wf(),
            final(self).spec_descriptor() == old(self).spec_descriptor(),
            final(self).spec_minter() == old(self).spec_minter(),
            (step_view(r), final(self).spec_arena()) == step_of(old(self).spec_descriptor(), old(self).spec_arena(), event@),
    {
        let (input, gathers) = match &self.descriptor {
            None => return Err(StageError::NotInitialized),
            Some(d) => (d.input, crate::descriptor::routing_requires_reassembly(d)),
        };
        match event {
            ActivationEvent::External(bs) => {
                if input != InputArrangement::ExternalEvent {
                    return Err(StageError::Unsupported);
                }
                if bs.len() == 0 {
                    return Err(StageError::EmptyInput);
                }
                let ghost bv = batches_view(bs@);
                let parts = vec![bs];
                assert(partitions_view(parts@) =~= seq![bv]);
                Ok(InputStep::Compute(parts))
            },
            ActivationEvent::Payload(bytes) => {
                if input != InputArrangement::UpstreamPayload {
                    return Err(StageError::Unsupported);
                }
                let p = match decode(bytes.as_slice()) {
                    Err(e) => return Err(StageError::Codec(e)),
                    Ok(p) => p,
                };
                if !gathers {
                    if p.batches.len() == 0 {
                        return Err(StageError::EmptyInput);
                    }
                    let ghost bv = batches_view(p.batches@);
                    let parts = vec![p.batches];
                    assert(partitions_view(parts@) =~= seq![bv]);
                    return Ok(InputStep::Compute(parts));
                }
                let ghost old_arena = self.arena.view();
                let ghost v = p@;
                let (ready, key) = match self.arena.put(&p.task_id, p.batches) {
                    Err(e) => return Err(StageError::Arena(e)),
                    Ok(x) => x,
                };
                if !ready {
                    return Ok(InputStep::Pending);
                }
                let ghost mid = self.arena.view();
                match self.arena.take(&key) {
                    Err(e) => Err(StageError::Arena(e)),
                    Ok(parts) => {
                        assert(self.arena.view() =~= old_arena.remove(v.task_id.group()));
                        assert(partitions_view(parts@) == contents(mid[key@]));
                        if all_empty(&parts) {
                            Err(StageError::EmptyInput)
                        } else {
                            Ok(InputStep::Compute(parts))
                        }
                    },
                }
            },
        }
    }

    /// Ends an activation after its compute: a sink returns its outputs; any
    /// other stage mints one fan-out and says which invocations carry the
    /// outputs on. The acknowledgment is the stage's name.
    pub fn finish(&mut self, outputs: Vec<RecordBatch>, schema: &Schema) -> (r: Result<Completion, StageError>)
        requires
            old(self).wf(),
        ensures
            final(self).wf(),
            final(self).spec_descriptor() == old(self).spec_descriptor(),
            final(self).spec_arena() == old(self).spec_arena(),
            r is Err ==> final(self).spec_minter() == old(self).spec_minter(),
            ({
                let m = old(self).spec_minter();
                let fanout = m.spec_next_fanout();
                let out = batches_view(outputs@);
                match old(self).spec_descriptor() {
                    None => r == Err::<Completion, StageError>(StageError::NotInitialized),
                    Some(d) => match d.routing {
                        RoutingView::Terminal => r matches Ok(Completion::Sink { ack, outputs: o }) && ack@
                            == d.stage_name && batches_view(o@) == out,
                        RoutingView::Single(t) => if !conforms(out, schema@.len()) {
                            r == Err::<Completion, StageError>(StageError::Codec(CodecError::SchemaMismatch))
                        } else if fanout == u64::MAX {
                            r == Err::<Completion, StageError>(StageError::FanoutExhausted)
                        } else {
                            &&& r matches Ok(Completion::Forward { ack, invocations }) && ack@ == d.stage_name
                                && invocations@.len() == 1 && invocations@[0].target@ == t
                                && invocations@[0].payload@ == single_payload(d.stage_name, fanout, schema@, out)
                            &&& final(self).spec_minter().spec_next_fanout() == fanout + 1
                        },
                        RoutingView::Group(_, ms) => if ms.len() == 0 {
                            r == Err::<Completion, StageError>(StageError::Unsupported)
                        } else if !conforms(out, schema@.len()) {
                            r == Err::<Completion, StageError>(StageError::Codec(CodecError::SchemaMismatch))
                        } else if fanout == u64::MAX {
                            r == Err::<Completion, StageError>(StageError::FanoutExhausted)
                        } else {
                            &&& r matches Ok(Completion::Forward { ack, invocations }) && ack@ == d.stage_name
                                && invocations@.len() == ms.len() && forall|p: int|
                                0 <= p < ms.len() ==> (#[trigger] invocations@[p]).target@ == ms[p]
                                    && invocations@[p].payload@ == group_payload(
                                    d.stage_name,
                                    fanout,
                                    ms.len(),
                                    p,
                                    schema@,
                                    out,
                                )
                            &&& final(self).spec_minter().spec_next_fanout() == fanout + 1
                        },
                    },
                }
            }),
    {
        let d = match &self.descriptor {
            None => return Err(StageError::NotInitialized),
            Some(d) => d,
        };
        let ack = d.stage_name.clone();
        match &d.routing {
            RoutingDescriptor::Terminal => Ok(Completion::Sink { ack, outputs }),
            RoutingDescriptor::Single(t) => {
                if !rows_conform(&outputs, schema.fields.len()) {
                    return Err(StageError::Codec(CodecError::SchemaMismatch));
                }
                if !self.minter.can_mint() {
                    return Err(StageError::FanoutExhausted);
                }
                let target = t.clone();
                let ids = self.minter.mint(1);
                assert(ids@.map_values(|t: crate::task_id::TaskId| t@)[0] == ids@[0]@);
                let payload = match encode(&outputs, schema, &ids[0], Compression::Identity) {
                    Ok(b) => b,
                    Err(e) => return Err(StageError::Codec(e)),
                };
                let mut invocations: Vec<Invocation> = Vec::new();
                invocations.push(Invocation { target, payload });
                Ok(Completion::Forward { ack, invocations })
            },
            RoutingDescriptor::Group(_, ms) => {
                let k = ms.len();
                if k == 0 {
                    return Err(StageError::Unsupported);
                }
                if !rows_conform(&outputs, schema.fields.len()) {
                    return Err(StageError::Codec(CodecError::SchemaMismatch));
                }
                if !self.minter.can_mint() {
                    return Err(StageError::FanoutExhausted);
                }
                let ghost name = d.stage_name@;
                let ghost fanout = self.minter.spec_next_fanout();
                let ghost out = batches_view(outputs@);
                let ghost width = schema@.len();
                let ghost msv = names_view(ms@);
                proof {
                    lemma_flatten_width(out, width);
                }
                let ids = self.minter.mint(k as u64);
                let mut parts = repartition(&outputs, k);
                let mut invocations: Vec<Invocation> = Vec::new();
                let mut p: usize = 0;
                while p < k
                    invariant
                        k == ms@.len(),
                        k == parts@.len(),
                        ids@.len() == k,
                        msv == names_view(ms@),
                        crate::task_id::minted(
                            old(self).spec_minter(),
                            k as u64,
                            self.minter,
                            ids@.map_values(|t: crate::task_id::TaskId| t@),
                        ),
                        old(self).spec_minter().spec_stage_name() == name,
                        old(self).spec_minter().spec_next_fanout() == fanout,
                        crate::batch::rows_width(flatten(out), width),
                        width == schema@.len(),
                        p <= k,
                        invocations@.len() == p,
                        forall|q: int| p <= q < k ==> (#[trigger] parts@[q])@ == round_robin(flatten(out), k as nat, q),
                        forall|q: int|
                            0 <= q < p ==> (#[trigger] invocations@[q]).target@ == msv[q]
                                && invocations@[q].payload@ == group_payload(name, fanout, k as nat, q, schema@, out),
                    decreases k - p,
                {
                    let mut part = RecordBatch { rows: Vec::new() };
                    parts.set_and_swap(p, &mut part);
                    let ghost pv = part@;
                    let one = vec![part];
                    assert(batches_view(one@) =~= seq![pv]);
                    proof {
                        lemma_round_robin_width(flatten(out), k as nat, p as int, width);
                    }
                    assert(ids@.map_values(|t: crate::task_id::TaskId| t@)[p as int] == ids@[p as int]@);
                    let payload = match encode(&one, schema, &ids[p], Compression::Identity) {
                        Ok(b) => b,
                        Err(e) => return Err(StageError::Codec(e)),
                    };
                    invocations.push(Invocation { target: ms[p].clone(), payload });
                    p = p + 1;
                }
                Ok(Completion::Forward { ack, invocations })
            },
        }
    }

} // impl ExecutionContext

} // verus!
