use flock_core::descriptor::{
    encode_descriptor, next_targets, rehydrate, routing_requires_reassembly, DescriptorError, InputArrangement,
    RoutingDescriptor, StageDescriptor,
};

fn descriptor(routing: RoutingDescriptor) -> StageDescriptor {
    StageDescriptor {
        sub_plan: vec![1, 2, 3, 250],
        stage_name: "q2-stage-0".to_string(),
        routing,
        input: InputArrangement::UpstreamPayload,
        debug: true,
    }
}

fn group() -> RoutingDescriptor {
    RoutingDescriptor::Group("workers".to_string(), vec!["w-0".to_string(), "w-1".to_string(), "w-2".to_string()])
}

#[test]
fn descriptor_round_trip_each_routing() {
    for routing in vec![RoutingDescriptor::Terminal, RoutingDescriptor::Single("next".to_string()), group()] {
        let d = descriptor(routing);
        let bytes = encode_descriptor(&d);
        let back = rehydrate(&bytes).unwrap();
        assert_eq!(back.sub_plan, d.sub_plan);
        assert_eq!(back.stage_name, d.stage_name);
        assert_eq!(back.input, d.input);
        assert_eq!(back.debug, d.debug);
        assert_eq!(next_targets(&back), next_targets(&d));
        assert_eq!(routing_requires_reassembly(&back), routing_requires_reassembly(&d));
    }
}

#[test]
fn descriptor_malformed() {
    assert_eq!(rehydrate(&[]).err(), Some(DescriptorError::Malformed));
    let bytes = encode_descriptor(&descriptor(group()));
    for cut in 0..bytes.len() {
        assert!(rehydrate(&bytes[..cut]).is_err());
    }
    let mut bad_tag = encode_descriptor(&descriptor(RoutingDescriptor::Terminal));
    let n = bad_tag.len();
    bad_tag[n - 3] = 7;
    assert_eq!(rehydrate(&bad_tag).err(), Some(DescriptorError::Malformed));
    let mut bad_flag = encode_descriptor(&descriptor(RoutingDescriptor::Terminal));
    bad_flag[n - 1] = 2;
    assert_eq!(rehydrate(&bad_flag).err(), Some(DescriptorError::Malformed));
}

#[test]
fn routing_targets_and_reassembly() {
    assert!(next_targets(&descriptor(RoutingDescriptor::Terminal)).is_empty());
    assert_eq!(next_targets(&descriptor(RoutingDescriptor::Single("next".to_string()))), vec!["next".to_string()]);
    assert_eq!(next_targets(&descriptor(group())), vec!["w-0", "w-1", "w-2"]);
    assert!(routing_requires_reassembly(&descriptor(RoutingDescriptor::Terminal)));
    assert!(routing_requires_reassembly(&descriptor(RoutingDescriptor::Single("n".to_string()))));
    assert!(!routing_requires_reassembly(&descriptor(group())));
}
