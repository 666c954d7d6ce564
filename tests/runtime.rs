use flock_core::arena::ArenaError;
use flock_core::batch::{RecordBatch, Schema};
use flock_core::codec::{decode, encode, CodecError, Compression};
use flock_core::descriptor::{encode_descriptor, DescriptorError, InputArrangement, RoutingDescriptor, StageDescriptor};
use flock_core::runtime::{ActivationEvent, Completion, ExecutionContext, InputStep, StageError};
use flock_core::task_id::TaskIdMinter;

fn schema() -> Schema {
    Schema { fields: vec!["v".to_string()] }
}

fn numbered(first: u64, n: u64) -> RecordBatch {
    RecordBatch { rows: (first..first + n).map(|v| vec![v]).collect() }
}

fn context(name: &str, routing: RoutingDescriptor, input: InputArrangement) -> ExecutionContext {
    let d = StageDescriptor { sub_plan: vec![0], stage_name: name.to_string(), routing, input, debug: false };
    let raw = encode_descriptor(&d);
    let mut ctx = ExecutionContext::new();
    ctx.ensure_initialized(Some(&raw)).unwrap();
    ctx
}

#[test]
fn terminal_stage_returns_its_five_rows() {
    let mut ctx = context("sink", RoutingDescriptor::Terminal, InputArrangement::UpstreamPayload);
    let mut up = TaskIdMinter::new("up".to_string());
    let ids = up.mint(1);
    let payload = encode(&vec![numbered(0, 5)], &schema(), &ids[0], Compression::Identity).unwrap();
    let parts = match ctx.prepare_input(ActivationEvent::Payload(payload)).unwrap() {
        InputStep::Compute(parts) => parts,
        InputStep::Pending => panic!("a group of one is complete at once"),
    };
    assert_eq!(parts.len(), 1);
    // The sub-plan selects every row.
    let outputs: Vec<RecordBatch> = parts.into_iter().flatten().collect();
    match ctx.finish(outputs, &schema()).unwrap() {
        Completion::Sink { ack, outputs } => {
            assert_eq!(ack, "sink");
            assert_eq!(outputs.len(), 1);
            assert_eq!(outputs[0].rows, numbered(0, 5).rows);
        }
        Completion::Forward { .. } => panic!("a sink invokes nothing"),
    }
}

#[test]
fn single_stage_waits_for_three_fragments() {
    let mut ctx = context("join", RoutingDescriptor::Single("next".to_string()), InputArrangement::UpstreamPayload);
    let mut up = TaskIdMinter::new("scan".to_string());
    let ids = up.mint(3);
    let mut steps = Vec::new();
    for (i, id) in ids.iter().enumerate() {
        let payload = encode(&vec![numbered(10 * i as u64, 2)], &schema(), id, Compression::Identity).unwrap();
        steps.push(ctx.prepare_input(ActivationEvent::Payload(payload)).unwrap());
    }
    assert!(matches!(steps[0], InputStep::Pending));
    assert!(matches!(steps[1], InputStep::Pending));
    let parts = match steps.pop().unwrap() {
        InputStep::Compute(parts) => parts,
        InputStep::Pending => panic!("the third fragment completes the group"),
    };
    let rows: Vec<Vec<u64>> = parts.iter().flatten().flat_map(|b| b.rows.clone()).collect();
    assert_eq!(rows, vec![vec![0], vec![1], vec![10], vec![11], vec![20], vec![21]]);
    let outputs: Vec<RecordBatch> = parts.into_iter().flatten().collect();
    match ctx.finish(outputs, &schema()).unwrap() {
        Completion::Forward { ack, invocations } => {
            assert_eq!(ack, "join");
            assert_eq!(invocations.len(), 1);
            assert_eq!(invocations[0].target, "next");
            let p = decode(&invocations[0].payload).unwrap();
            assert_eq!(p.task_id.stage_name, "join");
            assert_eq!(p.task_id.total_fragments, 1);
            assert_eq!(p.batches.iter().map(|b| b.rows.len()).sum::<usize>(), 6);
        }
        Completion::Sink { .. } => panic!("a single route forwards"),
    }
}

#[test]
fn group_stage_fans_out_to_four_members() {
    let members: Vec<String> = (0..4).map(|i| format!("worker-{}", i)).collect();
    let mut ctx = context(
        "split",
        RoutingDescriptor::Group("workers".to_string(), members.clone()),
        InputArrangement::UpstreamPayload,
    );
    let mut up = TaskIdMinter::new("src".to_string());
    let ids = up.mint(1);
    let payload = encode(&vec![numbered(0, 100)], &schema(), &ids[0], Compression::Identity).unwrap();
    let parts = match ctx.prepare_input(ActivationEvent::Payload(payload)).unwrap() {
        InputStep::Compute(parts) => parts,
        InputStep::Pending => panic!("a group-routed stage does not gather"),
    };
    let outputs: Vec<RecordBatch> = parts.into_iter().flatten().collect();
    let invocations = match ctx.finish(outputs, &schema()).unwrap() {
        Completion::Forward { invocations, .. } => invocations,
        Completion::Sink { .. } => panic!("a group route forwards"),
    };
    assert_eq!(invocations.len(), 4);
    let mut total = 0;
    for (p, inv) in invocations.iter().enumerate() {
        assert_eq!(inv.target, members[p]);
        let decoded = decode(&inv.payload).unwrap();
        assert_eq!(decoded.task_id.sequence_index, p as u64);
        assert_eq!(decoded.task_id.total_fragments, 4);
        let n: usize = decoded.batches.iter().map(|b| b.rows.len()).sum();
        assert!(n > 0);
        assert_eq!(decoded.batches[0].rows[0], vec![p as u64]);
        total += n;
    }
    assert_eq!(total, 100);
}

#[test]
fn external_event_feeds_compute() {
    let mut ctx = context("first", RoutingDescriptor::Single("next".to_string()), InputArrangement::ExternalEvent);
    match ctx.prepare_input(ActivationEvent::External(vec![numbered(0, 3)])).unwrap() {
        InputStep::Compute(parts) => assert_eq!(parts[0][0].rows.len(), 3),
        InputStep::Pending => panic!("external events are complete"),
    }
    assert_eq!(ctx.prepare_input(ActivationEvent::External(vec![])).err(), Some(StageError::EmptyInput));
    assert_eq!(ctx.prepare_input(ActivationEvent::Payload(vec![0])).err(), Some(StageError::Unsupported));
}

#[test]
fn initialization_is_latched() {
    let mut ctx = ExecutionContext::new();
    assert!(!ctx.is_ready());
    assert_eq!(ctx.ensure_initialized(None), Err(StageError::Descriptor(DescriptorError::Absent)));
    assert_eq!(ctx.ensure_initialized(Some(&[1, 2])), Err(StageError::Descriptor(DescriptorError::Malformed)));
    assert_eq!(ctx.prepare_input(ActivationEvent::External(vec![numbered(0, 1)])).err(), Some(StageError::NotInitialized));
    let d = StageDescriptor {
        sub_plan: vec![],
        stage_name: "s".to_string(),
        routing: RoutingDescriptor::Terminal,
        input: InputArrangement::ExternalEvent,
        debug: false,
    };
    let raw = encode_descriptor(&d);
    assert_eq!(ctx.ensure_initialized(Some(&raw)), Ok(()));
    assert!(ctx.is_ready());
    assert_eq!(ctx.ensure_initialized(None), Ok(()));
}

#[test]
fn poisoned_payload_never_reaches_arena() {
    let mut ctx = context("sink", RoutingDescriptor::Terminal, InputArrangement::UpstreamPayload);
    assert_eq!(ctx.prepare_input(ActivationEvent::Payload(vec![])).err(), Some(StageError::Codec(CodecError::UnknownCompression)));
    assert_eq!(ctx.prepare_input(ActivationEvent::Payload(vec![0, 1])).err(), Some(StageError::Codec(CodecError::Corrupt)));
    let mut up = TaskIdMinter::new("up".to_string());
    let ids = up.mint(2);
    let bad = flock_core::task_id::TaskId { sequence_index: 5, ..ids[0].clone() };
    let payload = encode(&vec![numbered(0, 1)], &schema(), &bad, Compression::Identity).unwrap();
    assert_eq!(ctx.prepare_input(ActivationEvent::Payload(payload)).err(), Some(StageError::Arena(ArenaError::InvalidTaskId)));
}

#[test]
fn empty_input_is_an_error() {
    let mut ctx = context("sink", RoutingDescriptor::Terminal, InputArrangement::UpstreamPayload);
    let mut up = TaskIdMinter::new("up".to_string());
    let ids = up.mint(1);
    let payload = encode(&vec![], &schema(), &ids[0], Compression::Identity).unwrap();
    assert_eq!(ctx.prepare_input(ActivationEvent::Payload(payload)).err(), Some(StageError::EmptyInput));
}

#[test]
fn finish_errors() {
    let mut ctx = context("g", RoutingDescriptor::Group("none".to_string(), vec![]), InputArrangement::UpstreamPayload);
    assert_eq!(ctx.finish(vec![numbered(0, 1)], &schema()).err(), Some(StageError::Unsupported));
    let mut ctx = context("s", RoutingDescriptor::Single("n".to_string()), InputArrangement::UpstreamPayload);
    let wide = RecordBatch { rows: vec![vec![1, 2]] };
    assert_eq!(ctx.finish(vec![wide], &schema()).err(), Some(StageError::Codec(CodecError::SchemaMismatch)));
    let mut fresh = ExecutionContext::new();
    assert_eq!(fresh.finish(vec![], &schema()).err(), Some(StageError::NotInitialized));
}
