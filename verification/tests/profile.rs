use ic_laya_core::profile::ProfileRecorder;

#[test]
fn phases_sum_to_the_measured_instructions() {
    let mut r = ProfileRecorder::new(1_000);
    r.record("embedding", 1_250);
    r.record("encoder", 9_250);
    r.record("dot_decode", 9_300);
    let names: Vec<&str> = r.phases.iter().map(|p| p.name.as_str()).collect();
    assert_eq!(names, vec!["embedding", "encoder", "dot_decode"]);
    let costs: Vec<u64> = r.phases.iter().map(|p| p.instructions).collect();
    assert_eq!(costs, vec![250, 8_000, 50]);
    let reply = r.finish([7; 32], 12);
    assert_eq!(reply.measured_instructions, 8_300);
    assert_eq!(reply.phases.iter().map(|p| p.instructions).sum::<u64>(), reply.measured_instructions);
    assert_eq!((reply.model, reply.input_tokens), ([7; 32], 12));
}

#[test]
fn a_counter_that_runs_backwards_is_charged_nothing() {
    let mut r = ProfileRecorder::new(500);
    r.record("a", 400);
    assert_eq!(r.phases[0].instructions, 0);
    assert_eq!(r.measured(), 0);
    let empty = ProfileRecorder::new(3);
    assert_eq!(empty.measured(), 0);
    assert!(empty.phases.is_empty());
}
