use annotation_pipeline::annotation::Annotation;
use annotation_pipeline::pipeline::ItemPlan;
use annotation_pipeline::pipeline::PipelineState;
use annotation_pipeline::pipeline::run_pipeline;

fn good(id: &str, anns: Vec<Annotation>) -> ItemPlan {
    ItemPlan::Good { id: id.to_string(), annotations: anns }
}

fn task_fails(id: &str, detail: &str) -> ItemPlan {
    ItemPlan::TaskFails { id: id.to_string(), detail: detail.to_string() }
}

fn source_fails(detail: &str) -> ItemPlan {
    ItemPlan::SourceFails { detail: detail.to_string() }
}

fn file_content<'a>(r: &'a PipelineState, name: &str) -> Option<&'a str> {
    r.persisted
        .iter()
        .find(|f| f.name == name)
        .map(|f| f.content.as_str())
}

#[test]
fn two_shots_two_workers() {
    // Two items, two workers: one label file per identifier, each holding
    // the single rendered annotation line.
    let ann = Annotation::new(0, 500000, 500000, 200000, 300000);
    let plans = vec![good("shot_001", vec![ann]), good("shot_002", vec![ann])];
    let r = run_pipeline(plans, 2, 100);
    assert_eq!(r.signals_seen, 2);
    assert_eq!(r.persisted.len(), 2);
    assert_eq!(
        file_content(&r, "shot_001.txt"),
        Some("0 0.500000 0.500000 0.200000 0.300000\n")
    );
    assert_eq!(
        file_content(&r, "shot_002.txt"),
        Some("0 0.500000 0.500000 0.200000 0.300000\n")
    );
}

#[test]
fn empty_input_terminates() {
    // Every worker signals completion without producing any outcome.
    let r = run_pipeline(Vec::new(), 4, 100);
    assert_eq!(r.signals_seen, 4);
    assert!(r.persisted.is_empty());
    assert!(r.failures.is_empty());
    assert!(r.bus.is_empty());
}

#[test]
fn all_failing_task_still_terminates() {
    // Failures never block termination, and nothing is persisted.
    let plans = vec![
        task_fails("a.png", "inference failed"),
        task_fails("b.png", "inference failed"),
        task_fails("c.png", "inference failed"),
    ];
    let r = run_pipeline(plans, 2, 100);
    assert_eq!(r.signals_seen, 2);
    assert!(r.persisted.is_empty());
    assert_eq!(r.failures.len(), 3);
}

#[test]
fn source_error_reported_and_run_continues() {
    let ann = Annotation::new(1, 250000, 750000, 100000, 50000);
    let plans = vec![
        source_fails("unreadable item"),
        good("ok.png", vec![ann]),
    ];
    let r = run_pipeline(plans, 1, 100);
    assert_eq!(r.signals_seen, 1);
    assert_eq!(r.failures, vec!["unreadable item".to_string()]);
    assert_eq!(
        file_content(&r, "ok.txt"),
        Some("1 0.250000 0.750000 0.100000 0.050000\n")
    );
}

#[test]
fn capacity_one_backpressure_completes() {
    // The smallest legal bus still drains completely: backpressure suspends
    // senders instead of dropping messages.
    let ann = Annotation::new(2, 100000, 200000, 300000, 400000);
    let plans: Vec<ItemPlan> = (0..25)
        .map(|i| good(&format!("item_{}", i), vec![ann]))
        .collect();
    let r = run_pipeline(plans, 3, 1);
    assert_eq!(r.signals_seen, 3);
    assert_eq!(r.persisted.len(), 25);
    assert!(r.failures.is_empty());
    for i in 0..25 {
        assert!(file_content(&r, &format!("item_{}.txt", i)).is_some());
    }
}

#[test]
fn one_outcome_per_item() {
    // Exactly one outcome exists per item that entered the pipeline.
    let ann = Annotation::new(0, 1, 2, 3, 4);
    let plans = vec![
        good("x.png", vec![ann]),
        task_fails("y.png", "bad"),
        good("z.png", Vec::new()),
        source_fails("corrupt"),
    ];
    let r = run_pipeline(plans, 2, 4);
    assert_eq!(r.signals_seen, 2);
    assert_eq!(r.persisted.len() + r.failures.len(), 4);
    assert_eq!(r.persisted.len(), 2);
    // An empty annotation list persists an empty file.
    assert_eq!(file_content(&r, "z.txt"), Some(""));
}

#[test]
fn manual_interleaving_respects_capacity() {
    // Drives the steps in a hand-picked order rather than the driver's: the
    // bus (capacity 1) never holds more than one message, and the run still
    // ends after exactly one signal per worker.
    let ann = Annotation::new(0, 500000, 500000, 200000, 300000);
    let plans = vec![good("first", vec![ann]), good("second", vec![ann])];
    let mut st = PipelineState::new(plans, 2, 1);

    st.worker_fetch(0); // claims "first"
    st.worker_fetch(1); // claims "second"
    st.worker_send(0); // bus now full: worker 1 must wait
    assert_eq!(st.bus.len(), 1);
    st.aggregator_step(); // persists "first"
    st.worker_send(1);
    assert_eq!(st.bus.len(), 1);
    st.worker_fetch(0); // exhausted: holds its completion signal
    st.aggregator_step(); // persists "second"
    st.worker_send(0);
    st.worker_fetch(1); // exhausted as well
    st.aggregator_step(); // first signal
    st.worker_send(1);
    st.aggregator_step(); // second signal: done
    assert!(st.is_done());
    assert_eq!(st.signals_seen, 2);
    assert!(st.bus.is_empty());
    assert_eq!(st.persisted.len(), 2);
    assert_eq!(file_content(&st, "first.txt"), Some("0 0.500000 0.500000 0.200000 0.300000\n"));
    assert_eq!(file_content(&st, "second.txt"), Some("0 0.500000 0.500000 0.200000 0.300000\n"));
}

#[test]
fn many_workers_few_items() {
    // More workers than items: every worker still signals exactly once.
    let plans = vec![good("only.png", Vec::new())];
    let r = run_pipeline(plans, 8, 2);
    assert_eq!(r.signals_seen, 8);
    assert_eq!(r.persisted.len(), 1);
}
