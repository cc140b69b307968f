use vtebench::bench::Benchmark;
use vtebench::run::pass;
use vtebench::run::Action;
use vtebench::run::Event;
use vtebench::run::Run;
use vtebench::run::SinkOp;

fn bench() -> Benchmark {
    Benchmark::new("sched".into(), None, Some(b"abc".to_vec()), 6).unwrap()
}

#[test]
fn pass_resets_then_times_only_the_body() {
    let expected = vec![
        SinkOp::Reset,
        SinkOp::Flush,
        SinkOp::Setup,
        SinkOp::StartClock,
        SinkOp::Body,
        SinkOp::Flush,
        SinkOp::StopClock,
    ];
    assert_eq!(pass(), expected);
    assert_eq!(bench().run_sample(), expected);
    assert_eq!(Action::Pass.ops(), expected);
}

#[test]
fn finish_resets_once_more() {
    assert_eq!(Action::Finish.ops(), vec![SinkOp::Reset, SinkOp::Flush]);
    assert_eq!(Action::CheckDeadline.ops(), Vec::new());
    assert_eq!(Action::ArmDeadline { secs: 3 }.ops(), Vec::new());
}

#[test]
fn warmup_then_samples_up_to_the_maximum() {
    let (run, action) = bench().run(2, 10, Some(2));
    assert_eq!(action, Action::Pass);
    let (run, action) = run.step(Event::PassDone { millis: 111 });
    assert_eq!(action, Action::Pass);
    let (run, action) = run.step(Event::PassDone { millis: 222 });
    assert_eq!(action, Action::ArmDeadline { secs: 10 });
    let (run, action) = run.step(Event::Armed);
    assert_eq!(action, Action::CheckDeadline);
    let (run, action) = run.step(Event::Deadline { expired: false });
    assert_eq!(action, Action::Pass);
    let (run, action) = run.step(Event::PassDone { millis: 5 });
    assert_eq!(action, Action::CheckDeadline);
    let (run, action) = run.step(Event::Deadline { expired: false });
    assert_eq!(action, Action::Pass);
    let (run, action) = run.step(Event::PassDone { millis: 7 });
    assert_eq!(action, Action::Finish);
    assert!(run.is_done());
    let results = run.finish();
    assert_eq!(results.samples(), &[5, 7]);
    assert_eq!(results.name(), "sched");
    assert_eq!(results.bench_size(), 6);
}

#[test]
fn deadline_ends_the_run_between_passes() {
    let (run, action) = Run::new("d".into(), 9, 0, 1, None);
    assert_eq!(action, Action::ArmDeadline { secs: 1 });
    let (run, action) = run.step(Event::Armed);
    assert_eq!(action, Action::CheckDeadline);
    let (run, action) = run.step(Event::Deadline { expired: false });
    assert_eq!(action, Action::Pass);
    let (run, action) = run.step(Event::PassDone { millis: 1500 });
    assert_eq!(action, Action::CheckDeadline);
    let (run, action) = run.step(Event::Deadline { expired: true });
    assert_eq!(action, Action::Finish);
    assert_eq!(run.finish().samples(), &[1500]);
}

#[test]
fn no_timed_pass_leaves_the_sentinel() {
    let (run, _) = Run::new("none".into(), 1, 0, 0, Some(0));
    let (run, action) = run.step(Event::Armed);
    assert_eq!(action, Action::Finish);
    let results = run.finish();
    assert_eq!(results.samples(), &[0]);
    assert_eq!(results.sample_count(), 1);

    let (run, _) = Run::new("late".into(), 1, 0, 0, None);
    let (run, _) = run.step(Event::Armed);
    let (run, action) = run.step(Event::Deadline { expired: true });
    assert_eq!(action, Action::Finish);
    assert_eq!(run.finish().samples(), &[0]);
}

#[test]
fn stray_events_change_nothing() {
    let (run, action) = Run::new("s".into(), 1, 1, 4, Some(1));
    assert_eq!(action, Action::Pass);
    let (run, action) = run.step(Event::Armed);
    assert_eq!(action, Action::Pass);
    let (run, action) = run.step(Event::Deadline { expired: true });
    assert_eq!(action, Action::Pass);
    assert_eq!(run.action(), Action::Pass);
    let (run, action) = run.step(Event::PassDone { millis: 1 });
    assert_eq!(action, Action::ArmDeadline { secs: 4 });
    let (run, action) = run.step(Event::PassDone { millis: 1 });
    assert_eq!(action, Action::ArmDeadline { secs: 4 });
    let (run, _) = run.step(Event::Armed);
    let (run, _) = run.step(Event::Deadline { expired: false });
    let (run, action) = run.step(Event::PassDone { millis: 9 });
    assert_eq!(action, Action::Finish);
    let (run, action) = run.step(Event::PassDone { millis: 10 });
    assert_eq!(action, Action::Finish);
    assert_eq!(run.finish().samples(), &[9]);
}
