use dining_sim::dining::ConfigError;
use dining_sim::report::Message;
use dining_sim::supervisor::run_dinner;

/// Liveness under test: five workers with three meals each terminate and
/// report exactly 5 x 3 = 15 eating events (and as many fresh ideas).
#[test]
fn five_workers_three_meals_report_fifteen_meals() {
    let log = run_dinner(5, 3).unwrap();
    let eaten = log
        .iter()
        .filter(|m| matches!(m, Message::Eating { .. }))
        .count();
    let ideas = log
        .iter()
        .filter(|m| matches!(m, Message::NewIdea { .. }))
        .count();
    assert_eq!(eaten, 15);
    assert_eq!(ideas, 15);
    assert_eq!(log.len(), 30);
    // every worker ate exactly three times
    for w in 0..5usize {
        let mine = log
            .iter()
            .filter(|m| **m == Message::Eating { who: w })
            .count();
        assert_eq!(mine, 3);
    }
}

/// Channel termination: the drained stream is exactly what was sent — one
/// eat report and one idea per meal, in schedule order, nothing lost and
/// nothing duplicated — and the receive loop did return.
#[test]
fn dinner_log_is_exact_for_a_small_table() {
    let log = run_dinner(2, 1).unwrap();
    assert_eq!(
        log,
        vec![
            Message::Eating { who: 0 },
            Message::NewIdea { who: 0 },
            Message::Eating { who: 1 },
            Message::NewIdea { who: 1 },
        ]
    );
}

#[test]
fn dinner_with_no_meals_reports_nothing() {
    let log = run_dinner(3, 0).unwrap();
    assert!(log.is_empty());
}

#[test]
fn dinner_needs_at_least_two_workers() {
    assert_eq!(run_dinner(0, 3).err(), Some(ConfigError::TooFewWorkers));
    assert_eq!(run_dinner(1, 3).err(), Some(ConfigError::TooFewWorkers));
}
