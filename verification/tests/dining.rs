use dining_sim::dining::ConfigError;
use dining_sim::dining::Phase;
use dining_sim::dining::Philosopher;
use dining_sim::dining::Table;
use dining_sim::report::Message;
use dining_sim::report::ReportChannel;

/// Ring adjacency: for N=5, worker i holds fork i on its left and fork
/// (i+1) % 5 on its right, so fork i is shared by workers i and (i+4) % 5
/// only.
#[test]
fn ring_adjacency_for_five_workers() {
    let t = Table::new(5, 3).unwrap();
    assert_eq!(t.num_workers(), 5);
    for i in 0..5usize {
        assert_eq!(t.left_fork_of(i), i);
        assert_eq!(t.right_fork_of(i), (i + 1) % 5);
        // fork i is the right fork of worker (i + 4) % 5 and of nobody else
        assert_eq!(t.right_fork_of((i + 4) % 5), i);
        for w in 0..5usize {
            let adjacent = t.left_fork_of(w) == i || t.right_fork_of(w) == i;
            assert_eq!(adjacent, w == i || w == (i + 4) % 5);
        }
    }
}

#[test]
fn too_few_workers_is_a_config_error() {
    assert_eq!(Table::new(0, 3).err(), Some(ConfigError::TooFewWorkers));
    assert_eq!(Table::new(1, 3).err(), Some(ConfigError::TooFewWorkers));
    assert!(Table::new(2, 3).is_ok());
}

/// Partial-acquisition rollback: a worker that got only its left fork gives
/// it back before its next attempt, and another worker then acquires it.
#[test]
fn rollback_frees_the_fork_for_the_neighbor() {
    let mut t = Table::new(2, 1).unwrap();
    t.step(0); // worker 0 takes fork 0
    assert_eq!(t.holder_of(0), Some(0));
    assert_eq!(t.phase_of(0), Phase::HasLeft);
    t.step(1); // worker 1 takes fork 1
    assert_eq!(t.holder_of(1), Some(1));
    t.step(0); // worker 0 misses fork 1 and rolls back fork 0
    assert_eq!(t.holder_of(0), None);
    assert_eq!(t.phase_of(0), Phase::Hungry);
    assert_eq!(t.pending_reports(), 1);
    assert_eq!(t.report_at(0), Message::MissingRight { who: 0 });
    t.step(1); // worker 1 now acquires the rolled-back fork 0 and eats
    assert_eq!(t.holder_of(0), Some(1));
    assert_eq!(t.phase_of(1), Phase::Eating);
    assert_eq!(t.report_at(1), Message::Eating { who: 1 });
}

/// Mutual exclusion under a scrambled schedule: no fork ever has two
/// claimants, holders are always adjacent workers, and an eating worker
/// holds exactly its two forks.
#[test]
fn mutual_exclusion_under_stress() {
    let n = 3usize;
    let mut t = Table::new(n, 5).unwrap();
    let mut seed: u64 = 0x9E3779B97F4A7C15;
    for _ in 0..2000 {
        seed = seed.wrapping_mul(6364136223846793005).wrapping_add(1442695040888963407);
        let w = ((seed >> 33) as usize) % n;
        t.step(w);
        for f in 0..n {
            match t.holder_of(f) {
                None => {}
                Some(h) => {
                    // only the two adjacent workers may hold fork f
                    assert!(h == f || h == (f + n - 1) % n);
                    // the holder's phase claims the fork, and nobody else's does
                    for w2 in 0..n {
                        let claims_left = w2 == f
                            && (t.phase_of(w2) == Phase::HasLeft
                                || t.phase_of(w2) == Phase::Eating);
                        let claims_right = (w2 + 1) % n == f && t.phase_of(w2) == Phase::Eating;
                        if claims_left || claims_right {
                            assert_eq!(h, w2);
                        }
                    }
                }
            }
        }
        for w2 in 0..n {
            if t.phase_of(w2) == Phase::Eating {
                assert_eq!(t.holder_of(w2), Some(w2));
                assert_eq!(t.holder_of((w2 + 1) % n), Some(w2));
            }
        }
    }
}

/// The minimal two-worker cycle never deadlocks: under strict alternation
/// both workers finish their meals within a generous step budget, every
/// step returning immediately.
#[test]
fn two_worker_cycle_completes_without_blocking() {
    let meals = 3usize;
    let mut t = Table::new(2, meals).unwrap();
    let mut steps = 0usize;
    while (t.phase_of(0) != Phase::Done || t.phase_of(1) != Phase::Done) && steps < 2000 {
        t.step(steps % 2);
        steps += 1;
    }
    assert_eq!(t.phase_of(0), Phase::Done);
    assert_eq!(t.phase_of(1), Phase::Done);
    assert_eq!(t.meals_of(0), meals);
    assert_eq!(t.meals_of(1), meals);
    assert!(steps < 2000, "a worker failed to make progress within the budget");
    // both workers ate all their meals: exactly 2 * meals eating events
    assert_eq!(t.sender_count(), 0);
    let log = t.drain_reports();
    let eaten = log
        .iter()
        .filter(|m| matches!(m, Message::Eating { .. }))
        .count();
    assert_eq!(eaten, 2 * meals);
}

/// A send after the observer has gone fails, and the worker winds down
/// gracefully: it releases everything it held and drops its sender.
#[test]
fn observer_gone_ends_a_worker_gracefully() {
    let mut t = Table::new(2, 2).unwrap();
    t.close_channel();
    assert_eq!(t.sender_count(), 2);
    t.step(0); // takes fork 0
    t.step(0); // takes fork 1, fails to report, gives both back, exits
    assert_eq!(t.phase_of(0), Phase::Done);
    assert_eq!(t.holder_of(0), None);
    assert_eq!(t.holder_of(1), None);
    assert_eq!(t.sender_count(), 1);
    assert_eq!(t.pending_reports(), 0);
}

#[test]
fn think_names_its_worker() {
    let p = Philosopher {
        id: 7,
        left: 7,
        right: 8,
        phase: Phase::Thinking,
        meals: 0,
        target: 1,
    };
    assert_eq!(p.think(), Message::NewIdea { who: 7 });
}

/// The channel delivers every message exactly once, in order, and reports
/// end-of-stream only once all senders are gone.
#[test]
fn channel_keeps_order_and_signals_end_of_stream() {
    let mut c = ReportChannel::new(2);
    assert!(c.send(Message::NewIdea { who: 0 }));
    assert!(c.send(Message::Eating { who: 1 }));
    c.drop_sender();
    assert!(c.send(Message::NewIdea { who: 1 }));
    c.drop_sender();
    assert_eq!(c.recv(), Some(Message::NewIdea { who: 0 }));
    assert_eq!(c.recv(), Some(Message::Eating { who: 1 }));
    assert_eq!(c.recv(), Some(Message::NewIdea { who: 1 }));
    assert_eq!(c.recv(), None);
    assert_eq!(c.recv(), None);
}

#[test]
fn channel_send_fails_once_receiver_is_gone() {
    let mut c = ReportChannel::new(1);
    assert!(c.receiver_alive());
    assert!(c.send(Message::NewIdea { who: 0 }));
    c.close_receiver();
    assert!(!c.receiver_alive());
    assert!(!c.send(Message::NewIdea { who: 0 }));
    assert_eq!(c.pending(), 1);
}
