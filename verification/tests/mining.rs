#![allow(unused_imports)]
use spindle_core::mining::{
    calculate_support, count_transitions_from, detect_conflicts, make_log_from_traces, make_repeated_log,
    make_sequential_trace, AlphaMiner, Arc, ArcNode, Case, Conflict, ConflictType, Event, EventLog, Footprint,
    PetriNet, Place, Relation, Transition,
};
use std::collections::HashMap;

#[test]
fn test_create_event_and_verify_fields() {
    let mut bindings = HashMap::new();
    bindings.insert("entity".to_string(), "x".to_string());

    let event = Event::new("2026-01-17T10:00:00Z", "started", bindings).with_actor("agent-1");

    assert_eq!(event.activity, "started");
    assert_eq!(event.bindings.get("entity"), Some(&"x".to_string()));
    assert_eq!(event.actor, Some("agent-1".to_string()));
}

#[test]
fn test_event_with_default_actor_and_annotations() {
    let mut bindings = HashMap::new();
    bindings.insert("status".to_string(), "ok".to_string());

    let event = Event::new("2026-01-17T11:00:00Z", "completed", bindings);

    assert_eq!(event.activity, "completed");
    assert_eq!(event.bindings.get("status"), Some(&"ok".to_string()));
    assert!(event.actor.is_none() || event.actor.is_some());
}

#[test]
fn test_event_with_annotations() {
    let mut annotations = HashMap::new();
    annotations.insert("priority".to_string(), "high".to_string());

    let event = Event::new("2026-01-17T12:00:00Z", "processed", HashMap::new())
        .with_actor("system")
        .with_annotations(annotations);

    assert_eq!(event.activity, "processed");
    assert_eq!(event.actor, Some("system".to_string()));
    assert!(!event.annotations.is_empty());
}

#[test]
fn test_build_footprint_from_sequential_traces() {
    // Given: Two sequential traces a -> b -> c
    let log = EventLog::new(vec![
        Case::new(
            "c1",
            vec![
                Event::new("T1", "a", HashMap::new()),
                Event::new("T2", "b", HashMap::new()),
                Event::new("T3", "c", HashMap::new()),
            ],
        ),
        Case::new(
            "c2",
            vec![
                Event::new("T1", "a", HashMap::new()),
                Event::new("T2", "b", HashMap::new()),
                Event::new("T3", "c", HashMap::new()),
            ],
        ),
    ]);

    // Then: Verify relations
    let fp = Footprint::from_log(&log);
    assert_eq!(
        fp.relation("a", "b"),
        Relation::Causality,
        "a->b should be causality"
    );
    assert_eq!(
        fp.relation("b", "c"),
        Relation::Causality,
        "b->c should be causality"
    );
    assert_eq!(
        fp.relation("a", "c"),
        Relation::Unrelated,
        "a->c should be unrelated (#) - not directly adjacent"
    );
}

#[test]
fn test_footprint_with_parallel_activities() {
    // Given: Traces where a,b occur in varying order between start and end
    let log = make_log_from_traces(&[&["start", "a", "b", "end"], &["start", "b", "a", "end"]]);

    let fp = Footprint::from_log(&log);
    // a and b should be parallel (both orderings observed)
    assert_eq!(
        fp.relation("a", "b"),
        Relation::Parallel,
        "a||b should be parallel when both orderings observed"
    );
}

#[test]
fn test_footprint_reverse_causality() {
    // Given: b always precedes a
    let log = make_repeated_log(3, &["b", "a"]);
    let fp = Footprint::from_log(&log);
    assert_eq!(
        fp.relation("a", "b"),
        Relation::Reverse,
        "a<-b when b always precedes a"
    );
}

#[test]
fn test_mine_sequential_traces() {
    // Given: 10 traces with pattern a -> b -> c
    let log = make_repeated_log(10, &["a", "b", "c"]);

    // When: Apply alpha miner
    let mut miner = AlphaMiner::new();
    let net = miner.mine(&log);

    // Then: Petri net has transitions for a, b, c
    let activities: Vec<_> = net
        .transitions
        .iter()
        .map(|t| t.activity.as_str())
        .collect();

    assert!(
        activities.contains(&"a"),
        "Petri net should have transition for 'a'"
    );
    assert!(
        activities.contains(&"b"),
        "Petri net should have transition for 'b'"
    );
    assert!(
        activities.contains(&"c"),
        "Petri net should have transition for 'c'"
    );
}

#[test]
fn test_sequential_arcs_present() {
    let log = make_repeated_log(10, &["a", "b", "c"]);
    let mut miner = AlphaMiner::new();
    let net = miner.mine(&log);

    // Verify arcs connect transitions in sequence
    assert!(
        !net.arcs.is_empty(),
        "Petri net should have arcs connecting transitions"
    );
}

#[test]
fn test_traces_with_parallel_activities() {
    // Given: Traces where after start, a and b occur in varying order
    let log = make_log_from_traces(&[
        &["start", "a", "b", "end"],
        &["start", "a", "b", "end"],
        &["start", "b", "a", "end"],
        &["start", "b", "a", "end"],
        &["start", "a", "b", "end"],
    ]);

    // When: Apply alpha miner
    let mut miner = AlphaMiner::new();
    let net = miner.mine(&log);

    // Then: Verify Petri net structure
    let activities: Vec<_> = net
        .transitions
        .iter()
        .map(|t| t.activity.as_str())
        .collect();

    assert!(
        activities.contains(&"start"),
        "Should have transition for 'start'"
    );
    assert!(activities.contains(&"a"), "Should have transition for 'a'");
    assert!(activities.contains(&"b"), "Should have transition for 'b'");
    assert!(
        activities.contains(&"end"),
        "Should have transition for 'end'"
    );
}

#[test]
fn test_and_split_and_join_detection() {
    // For parallel patterns, the Petri net should show AND-split/join
    let log = make_log_from_traces(&[
        &["start", "a", "b", "end"],
        &["start", "b", "a", "end"],
        &["start", "a", "b", "end"],
        &["start", "b", "a", "end"],
        &["start", "a", "b", "end"],
    ]);

    let mut miner = AlphaMiner::new();
    let net = miner.mine(&log);

    // There should be places for AND-split/join points
    assert!(
        !net.places.is_empty(),
        "Petri net should have places for AND-split/join"
    );
}

#[test]
fn test_detect_mutex_between_end_and_blocked() {
    // Given:
    // - 8 traces: start -> end
    // - 2 traces: start -> blocked -> resumed -> end
    let mut traces: Vec<Vec<&str>> = vec![vec!["start", "end"]; 8];
    traces.extend(vec![vec!["start", "blocked", "resumed", "end"]; 2]);
    let trace_refs: Vec<&[&str]> = traces.iter().map(|t| t.as_slice()).collect();
    let log = make_log_from_traces(&trace_refs);

    // When: Mine and detect conflicts
    let mut miner = AlphaMiner::new();
    let net = miner.mine(&log);
    let conflicts = detect_conflicts(&log, &net);

    // Then: Should detect mutex relationship
    assert!(
        conflicts.iter().any(|c| {
            c.activities.contains(&"end".to_string())
                || c.activities.contains(&"blocked".to_string())
        }) || conflicts.is_empty(),
        "Conflict detection completed"
    );
}

#[test]
fn test_conflict_type_classification() {
    let mut traces: Vec<Vec<&str>> = vec![vec!["start", "end"]; 8];
    traces.extend(vec![vec!["start", "blocked", "resumed", "end"]; 2]);
    let trace_refs: Vec<&[&str]> = traces.iter().map(|t| t.as_slice()).collect();
    let log = make_log_from_traces(&trace_refs);

    let mut miner = AlphaMiner::new();
    let net = miner.mine(&log);
    let conflicts = detect_conflicts(&log, &net);

    // Check conflict types
    for c in &conflicts {
        assert!(
            c.conflict_type == ConflictType::Choice || c.conflict_type == ConflictType::Mutex,
            "Conflict type should be 'choice' or 'mutex'"
        );
    }
}

#[test]
fn test_event_log_activities() {
    let log = make_repeated_log(3, &["a", "b", "c"]);
    let activities = log.activities();

    assert!(activities.contains(&"a".to_string()));
    assert!(activities.contains(&"b".to_string()));
    assert!(activities.contains(&"c".to_string()));
    assert_eq!(activities.len(), 3);
}

#[test]
fn test_event_log_total_events() {
    let log = make_repeated_log(3, &["a", "b", "c"]);
    assert_eq!(log.total_events(), 9); // 3 traces * 3 events
}

#[test]
fn test_case_activities() {
    let case = make_sequential_trace("test", &["start", "middle", "end"]);
    let activities = case.activities();

    assert_eq!(activities, vec!["start", "middle", "end"]);
}

#[test]
fn test_footprint_causal_pairs() {
    let log = make_repeated_log(5, &["a", "b", "c"]);
    let fp = Footprint::from_log(&log);
    let causal = fp.causal_pairs();

    // Should have a->b and b->c
    assert!(causal.contains(&("a".to_string(), "b".to_string())));
    assert!(causal.contains(&("b".to_string(), "c".to_string())));
}

#[test]
fn test_footprint_is_causal() {
    let log = make_repeated_log(5, &["a", "b"]);
    let fp = Footprint::from_log(&log);

    assert!(fp.is_causal("a", "b"));
    assert!(!fp.is_causal("b", "a"));
}

#[test]
fn test_footprint_is_parallel() {
    let log = make_log_from_traces(&[&["a", "b"], &["b", "a"]]);
    let fp = Footprint::from_log(&log);

    assert!(fp.is_parallel("a", "b"));
    assert!(fp.is_parallel("b", "a"));
}

#[test]
fn test_petri_net_find_transition() {
    let log = make_repeated_log(5, &["a", "b", "c"]);
    let mut miner = AlphaMiner::new();
    let net = miner.mine(&log);

    assert!(net.find_transition("a").is_some());
    assert!(net.find_transition("b").is_some());
    assert!(net.find_transition("c").is_some());
    assert!(net.find_transition("nonexistent").is_none());
}

#[test]
fn test_petri_net_activities() {
    let log = make_repeated_log(5, &["x", "y", "z"]);
    let mut miner = AlphaMiner::new();
    let net = miner.mine(&log);

    let activities = net.activities();
    assert!(activities.contains(&"x"));
    assert!(activities.contains(&"y"));
    assert!(activities.contains(&"z"));
}

#[test]
fn test_conflict_creation() {
    let conflict = Conflict::new(vec!["a".to_string(), "b".to_string()], ConflictType::Mutex)
        .with_evidence("source", "test");

    assert_eq!(conflict.activities, vec!["a", "b"]);
    assert_eq!(conflict.conflict_type, ConflictType::Mutex);
    assert_eq!(conflict.evidence.get("source"), Some(&"test".to_string()));
}

#[test]
fn test_calculate_support() {
    let log = make_repeated_log(5, &["a", "b"]);
    let support = calculate_support(&log, "a", "b");
    assert_eq!(support, 5); // 5 traces, each with a->b
}

#[test]
fn test_empty_log_handling() {
    let log = EventLog::new(vec![]);

    let fp = Footprint::from_log(&log);
    assert!(fp.activities.is_empty());

    let mut miner = AlphaMiner::new();
    let net = miner.mine(&log);
    // Should handle empty log gracefully
    assert!(net.transitions.is_empty() || !net.transitions.is_empty());
}

#[test]
fn test_single_activity_trace() {
    let log = make_repeated_log(3, &["only"]);

    let fp = Footprint::from_log(&log);
    assert_eq!(fp.activities.len(), 1);
    assert!(fp.activities.contains(&"only".to_string()));
}

#[test]
fn test_relation_display() {
    assert_eq!(Relation::Causality.to_text(), "->");
    assert_eq!(Relation::Reverse.to_text(), "<-");
    assert_eq!(Relation::Parallel.to_text(), "||");
    assert_eq!(Relation::Unrelated.to_text(), "#");
}

#[test]
fn test_event_log_with_metadata() {
    let log = EventLog::new(vec![]);
    let mut meta = HashMap::new();
    meta.insert("source".to_string(), "test".to_string());
    let log_with_meta = log.with_metadata(meta);
    assert_eq!(
        log_with_meta.metadata.get("source"),
        Some(&"test".to_string())
    );
}

#[test]
fn test_footprint_is_unrelated() {
    // Create log where a and c are never directly adjacent
    let log = make_repeated_log(3, &["a", "b", "c"]);
    let fp = Footprint::from_log(&log);

    // a and c are not directly adjacent, so unrelated
    assert!(fp.is_unrelated("a", "c"));
    // a and b are directly adjacent
    assert!(!fp.is_unrelated("a", "b"));
}

#[test]
fn test_footprint_parallel_pairs() {
    let log = make_log_from_traces(&[&["a", "b"], &["b", "a"]]);
    let fp = Footprint::from_log(&log);
    let parallel = fp.parallel_pairs();

    // a and b should be parallel (both orderings observed)
    assert!(
        parallel.contains(&("a".to_string(), "b".to_string()))
            || parallel.contains(&("b".to_string(), "a".to_string()))
    );
}

#[test]
fn test_petri_net_builder_methods() {
    let mut net = PetriNet::new();

    let place = Place::new("p1", "test place");
    net.add_place(place);
    assert_eq!(net.places.len(), 1);
    assert_eq!(net.places[0].id, "p1");
    assert_eq!(net.places[0].label, "test place");

    let trans = Transition::new("t1", "activity");
    net.add_transition(trans);
    assert_eq!(net.transitions.len(), 1);
    assert_eq!(net.transitions[0].id, "t1");
    assert_eq!(net.transitions[0].activity, "activity");
    assert!(net.transitions[0].bindings.is_empty());

    let arc = Arc::new(
        ArcNode::Place("p1".to_string()),
        ArcNode::Transition("t1".to_string()),
    );
    net.add_arc(arc);
    assert_eq!(net.arcs.len(), 1);
}

#[test]
fn test_alpha_miner_default() {
    let miner: AlphaMiner = Default::default();
    // Default miner should have counters at 0
    let log = EventLog::new(vec![]);
    let mut miner = miner;
    let net = miner.mine(&log);
    // Just verify it works
    assert!(net.places.len() >= 2); // start and end places
}

#[test]
fn test_arc_node_variants() {
    let place_node = ArcNode::Place("p1".to_string());
    let trans_node = ArcNode::Transition("t1".to_string());

    // Test pattern matching
    match place_node {
        ArcNode::Place(id) => assert_eq!(id, "p1"),
        _ => panic!("Expected Place variant"),
    }
    match trans_node {
        ArcNode::Transition(id) => assert_eq!(id, "t1"),
        _ => panic!("Expected Transition variant"),
    }
}

#[test]
fn test_case_timestamp_sorting() {
    // Events given out of order should be sorted by timestamp
    let events = vec![
        Event::new("2026-01-17T12:00:00Z", "third", HashMap::new()),
        Event::new("2026-01-17T10:00:00Z", "first", HashMap::new()),
        Event::new("2026-01-17T11:00:00Z", "second", HashMap::new()),
    ];
    let case = Case::new("test", events);
    let activities = case.activities();

    assert_eq!(activities, vec!["first", "second", "third"]);
}

#[test]
fn test_conflict_type_choice() {
    let conflict = Conflict::new(vec!["a".to_string(), "b".to_string()], ConflictType::Choice);
    assert_eq!(conflict.conflict_type, ConflictType::Choice);
}

#[test]
fn test_detect_conflicts_with_xor_split() {
    // Create a log with clear XOR choice: after 'start', either 'a' or 'b' but not both
    let log = make_log_from_traces(&[
        &["start", "a", "end"],
        &["start", "a", "end"],
        &["start", "b", "end"],
        &["start", "b", "end"],
    ]);

    let mut miner = AlphaMiner::new();
    let net = miner.mine(&log);
    let conflicts = detect_conflicts(&log, &net);

    // Should detect some conflict between a and b (they never co-occur)
    let has_ab_conflict = conflicts.iter().any(|c| {
        c.activities.contains(&"a".to_string()) && c.activities.contains(&"b".to_string())
    });
    // This may or may not be detected depending on the algorithm
    // Just verify the function runs without panic
    let _ = has_ab_conflict;
}

#[test]
fn test_footprint_relation_nonexistent() {
    let log = make_repeated_log(3, &["a", "b"]);
    let fp = Footprint::from_log(&log);

    // Querying relation for non-existent activity returns Unrelated
    let rel = fp.relation("a", "nonexistent");
    assert_eq!(rel, Relation::Unrelated);
}

#[test]
#[should_panic(expected = "Expected Place variant")]
fn test_assert_msg_arc_node_place_expected() {
    let trans_node = ArcNode::Transition("t1".to_string());
    match trans_node {
        ArcNode::Place(id) => assert_eq!(id, "p1"),
        _ => panic!("Expected Place variant"),
    }
}

#[test]
#[should_panic(expected = "Expected Transition variant")]
fn test_assert_msg_arc_node_transition_expected() {
    let place_node = ArcNode::Place("p1".to_string());
    match place_node {
        ArcNode::Transition(id) => assert_eq!(id, "t1"),
        _ => panic!("Expected Transition variant"),
    }
}

#[test]
fn test_calculate_support_three_activities() {
    let log = make_repeated_log(5, &["submit", "review", "approve"]);
    assert_eq!(calculate_support(&log, "submit", "review"), 5);
    assert_eq!(calculate_support(&log, "review", "approve"), 5);
    assert_eq!(calculate_support(&log, "submit", "approve"), 0);
}

#[test]
#[should_panic(expected = "a->b should be causality")]
fn test_assert_msg_footprint_causality() {
    // Create a log where a and b are parallel, not causal
    let log = make_log_from_traces(&[&["a", "b"], &["b", "a"]]);

    let fp = Footprint::from_log(&log);
    assert_eq!(
        fp.relation("a", "b"),
        Relation::Causality,
        "a->b should be causality"
    );
}

#[test]
#[should_panic(expected = "a||b should be parallel")]
fn test_assert_msg_footprint_parallel() {
    // Create a log where a always precedes b (causality, not parallel)
    let log = make_repeated_log(5, &["a", "b"]);

    let fp = Footprint::from_log(&log);
    assert_eq!(
        fp.relation("a", "b"),
        Relation::Parallel,
        "a||b should be parallel when both orderings observed"
    );
}

#[test]
#[should_panic(expected = "a<-b when b always precedes a")]
fn test_assert_msg_footprint_reverse() {
    // Create a log where a always precedes b (not reverse)
    let log = make_repeated_log(3, &["a", "b"]);
    let fp = Footprint::from_log(&log);
    assert_eq!(
        fp.relation("a", "b"),
        Relation::Reverse,
        "a<-b when b always precedes a"
    );
}

#[test]
fn transitions_out_of_an_activity_are_counted() {
    let log = make_log_from_traces(&[&["a", "b"], &["a", "c"], &["a"]]);
    assert_eq!(count_transitions_from(&log, "a"), 2);
    assert_eq!(calculate_support(&log, "a", "b"), 1);
    assert_eq!(count_transitions_from(&log, "z"), 0);
}

#[test]
fn sequential_net_has_numbered_nodes_and_pair_places() {
    let log = make_repeated_log(3, &["a", "b", "c"]);
    let mut miner = AlphaMiner::new();
    let net = miner.mine(&log);
    let ids: Vec<&str> = net.transitions.iter().map(|t| t.id.as_str()).collect();
    assert_eq!(ids, vec!["t1", "t2", "t3"]);
    let places: Vec<(&str, &str)> = net.places.iter().map(|p| (p.id.as_str(), p.label.as_str())).collect();
    assert_eq!(places, vec![("p1", "start"), ("p2", "end"), ("p3", "p(a,b)"), ("p4", "p(b,c)")]);
    assert_eq!(net.arcs.len(), 6);
    let second = miner.mine(&log);
    assert_eq!(second.transitions[0].id, "t4");
    assert_eq!(second.places[0].id, "p5");
}

#[test]
fn exclusive_branches_form_one_choice() {
    let log = make_log_from_traces(&[&["start", "a", "end"], &["start", "b", "end"]]);
    let mut miner = AlphaMiner::new();
    let net = miner.mine(&log);
    let labels: Vec<&str> = net.places.iter().map(|p| p.label.as_str()).collect();
    assert_eq!(labels, vec!["start", "end", "p(start,a,b)", "p(a,b,end)"]);
    let conflicts = detect_conflicts(&log, &net);
    assert_eq!(conflicts.len(), 1);
    assert_eq!(conflicts[0].conflict_type, ConflictType::Choice);
    assert_eq!(conflicts[0].activities, vec!["a", "b"]);
    assert_eq!(conflicts[0].evidence.get("source"), Some(&"petri-net-structure".to_string()));
}

#[test]
fn never_together_without_choice_is_mutex() {
    let log = make_log_from_traces(&[&["s", "x", "e"], &["s", "y", "z", "e"]]);
    let mut miner = AlphaMiner::new();
    let net = miner.mine(&log);
    let conflicts = detect_conflicts(&log, &net);
    assert_eq!(conflicts.len(), 2);
    assert_eq!(conflicts[0].conflict_type, ConflictType::Choice);
    assert_eq!(conflicts[0].activities, vec!["x", "y"]);
    assert_eq!(conflicts[1].conflict_type, ConflictType::Mutex);
    assert_eq!(conflicts[1].activities, vec!["x", "z"]);
    assert_eq!(conflicts[1].evidence.get("source"), Some(&"trace-analysis".to_string()));
}

#[test]
fn built_traces_keep_their_order_and_stamps() {
    let case = make_sequential_trace("c", &["one", "two"]);
    assert_eq!(case.id, "c");
    assert_eq!(case.events[0].timestamp, "2026-01-17T10:00:00Z");
    assert_eq!(case.events[1].timestamp, "2026-01-17T11:00:00Z");
    let log = make_repeated_log(2, &["one"]);
    assert_eq!(log.cases[1].id, "case-1");
}
