use setting_saver::lifecycle::lifecycle_step;
use setting_saver::lifecycle::Event;
use setting_saver::lifecycle::Phase;

#[test]
fn startup_enters_serving() {
    let (phase, enqueue) = lifecycle_step(Phase::Starting, Event::Started);
    assert_eq!(phase, Phase::Serving);
    assert!(!enqueue);
}

#[test]
fn first_signal_drains_and_enqueues_exit() {
    let (phase, enqueue) = lifecycle_step(Phase::Serving, Event::TermSignal);
    assert_eq!(phase, Phase::Draining);
    assert!(enqueue);
}

#[test]
fn second_signal_is_ignored() {
    let (phase, _) = lifecycle_step(Phase::Serving, Event::TermSignal);
    let (phase, enqueue) = lifecycle_step(phase, Event::TermSignal);
    assert_eq!(phase, Phase::Draining);
    assert!(!enqueue);
}

#[test]
fn exit_done_stops() {
    let (phase, enqueue) = lifecycle_step(Phase::Draining, Event::ExitDone);
    assert_eq!(phase, Phase::Stopped);
    assert!(!enqueue);
}

#[test]
fn signal_after_stop_is_ignored() {
    let (phase, enqueue) = lifecycle_step(Phase::Stopped, Event::TermSignal);
    assert_eq!(phase, Phase::Stopped);
    assert!(!enqueue);
}
