//! The supervisor: builds the ring, drives every worker to its meal target,
//! then drains the report channel to end-of-stream.
//!
//! The schedule here lets each worker finish one whole meal per turn, round
//! after round.  It is one possible interleaving of the concurrent system —
//! everything the table guarantees (mutual exclusion, rollback, the
//! invariant) holds under every other schedule too, but this one terminates
//! deterministically, so the full report stream can be pinned down exactly.

use vstd::prelude::*;

use crate::dining::ConfigError;
use crate::dining::Phase;
use crate::dining::Table;
use crate::dining::lemma_all_done_senders_zero;
use crate::dining::right_of;
use crate::dining::step_spec;
use crate::dining::with_phase;
use crate::report::Message;

verus! {

/// The two reports one completed meal of worker `w` produces, in order: the
/// worker starts eating, then announces the idea the meal gave it.
pub open spec fn meal_log(w: int) -> Seq<Message> {
    seq![Message::Eating { who: w as usize }, Message::NewIdea { who: w as usize }]
}

/// The reports of one round in which workers `0 .. w` finish a meal each.
pub open spec fn round_log(w: int) -> Seq<Message>
    decreases w,
{
    if w <= 0 {
        Seq::empty()
    } else {
        round_log(w - 1) + meal_log(w - 1)
    }
}

/// The full report stream of `k` rounds at a table of `n` workers under the
/// supervisor's meal-by-meal schedule.
pub open spec fn dinner_log(n: int, k: int) -> Seq<Message>
    decreases k,
{
    if k <= 0 {
        Seq::empty()
    } else {
        dinner_log(n, k - 1) + round_log(n)
    }
}

/// How many eating events a report stream holds.
pub open spec fn count_eating(s: Seq<Message>) -> nat
    decreases s.len(),
{
    if s.len() == 0 {
        0
    } else {
        count_eating(s.drop_last()) + (if s.last() is Eating {
            1nat
        } else {
            0nat
        })
    }
}

proof fn lemma_count_eating_concat(a: Seq<Message>, b: Seq<Message>)
    ensures
        count_eating(a + b) == count_eating(a) + count_eating(b),
    decreases b.len(),
{
    if b.len() == 0 {
        assert(a + b =~= a);
    } else {
        lemma_count_eating_concat(a, b.drop_last());
        assert((a + b).drop_last() =~= a + b.drop_last());
    }
}

proof fn lemma_round_log_eating(w: int)
    requires
        w >= 0,
    ensures
        count_eating(round_log(w)) == w,
    decreases w,
{
    if w > 0 {
        lemma_round_log_eating(w - 1);
        lemma_count_eating_concat(round_log(w - 1), meal_log(w - 1));
        let e = Message::Eating { who: (w - 1) as usize };
        let m = meal_log(w - 1);
        assert(m.last() is NewIdea);
        assert(m.drop_last() =~= seq![e]);
        assert(seq![e].last() == e);
        assert(seq![e].drop_last() =~= Seq::<Message>::empty());
        assert(count_eating(Seq::<Message>::empty()) == 0);
        assert(count_eating(seq![e]) == 1);
        assert(count_eating(m.drop_last()) == 1);
        assert(count_eating(m) == 1);
    }
}

/// Bounded liveness of the supervisor's schedule: a full dinner of `k` meals
/// for each of `n` workers reports exactly `n * k` eating events — no meal is
/// lost and none is double-counted.
pub proof fn lemma_dinner_log_eating(n: int, k: int)
    requires
        n >= 0,
        k >= 0,
    ensures
        count_eating(dinner_log(n, k)) == n * k,
    decreases k,
{
    if k > 0 {
        lemma_dinner_log_eating(n, k - 1);
        lemma_count_eating_concat(dinner_log(n, k - 1), round_log(n));
        lemma_round_log_eating(n);
        assert(dinner_log(n, k) == dinner_log(n, k - 1) + round_log(n));
        assert(n * (k - 1) + n == n * k) by (nonlinear_arith);
    } else {
        assert(n * k == 0) by (nonlinear_arith)
            requires
                k == 0,
        ;
    }
}

/// Builds a ring of `n` workers bound for `meals` meals each, runs them to
/// completion one meal at a time in round-robin order, then drains the
/// channel to end-of-stream.
///
/// The result is exactly `dinner_log(n, meals)`: every message sent is
/// received once, in order, nothing is lost and nothing is duplicated, and
/// the receive loop does return once all senders are gone.  By
/// [`lemma_dinner_log_eating`], the stream holds exactly `n * meals` eating
/// events.
pub fn run_dinner(n: usize, meals: usize) -> (r: Result<Vec<Message>, ConfigError>)
    ensures
        (r is Ok) <==> n >= 2,
        r matches Ok(log) ==> log@ == dinner_log(n as int, meals as int),
        r matches Err(e) ==> e == ConfigError::TooFewWorkers,
{
    let mut table = match Table::new(n, meals) {
        Ok(t) => t,
        Err(e) => {
            return Err(e);
        },
    };
    let mut round: usize = 0;
    while round < meals
        invariant
            2 <= n,
            round <= meals,
            table@.wf(),
            table@.phils.len() == n,
            table@.chan.receiver_alive,
            forall|i: int| 0 <= i < n ==> (#[trigger] table@.phils[i]).target == meals,
            forall|i: int| 0 <= i < n ==> (#[trigger] table@.phils[i]).meals == round,
            forall|i: int|
                0 <= i < n ==> (#[trigger] table@.phils[i]).phase == (if round == meals {
                    Phase::Done
                } else {
                    Phase::Hungry
                }),
            forall|f: int| 0 <= f < n ==> (#[trigger] table@.forks[f]).holder is None,
            table@.chan.queue == dinner_log(n as int, round as int),
        decreases meals - round,
    {
        let mut w: usize = 0;
        while w < n
            invariant
                2 <= n,
                w <= n,
                round < meals,
                table@.wf(),
                table@.phils.len() == n,
                table@.chan.receiver_alive,
                forall|i: int| 0 <= i < n ==> (#[trigger] table@.phils[i]).target == meals,
                forall|i: int|
                    0 <= i < w ==> (#[trigger] table@.phils[i]).meals == round + 1
                        && table@.phils[i].phase == (if round + 1 == meals {
                        Phase::Done
                    } else {
                        Phase::Hungry
                    }),
                forall|i: int|
                    w <= i < n ==> (#[trigger] table@.phils[i]).meals == round
                        && table@.phils[i].phase is Hungry,
                forall|f: int| 0 <= f < n ==> (#[trigger] table@.forks[f]).holder is None,
                table@.chan.queue == dinner_log(n as int, round as int) + round_log(w as int),
            decreases n - w,
        {
            let ghost s0 = table@;
            proof {
                assert(s0.phil_wf(w as int));
                assert(s0.forks[w as int].holder is None);
            }
            table.step(w);
            let ghost s1 = table@;
            proof {
                assert(s1 == step_spec(s0, w as int));
                assert(s1.phils == s0.phils.update(
                    w as int,
                    with_phase(s0.phils[w as int], Phase::HasLeft),
                ));
                assert(right_of(w as int, n as int) != w as int);
                assert(s0.forks[right_of(w as int, n as int)].holder is None);
                assert(s1.forks[right_of(w as int, n as int)].holder is None);
                assert(s1.phils[w as int].phase is HasLeft);
                assert(s1.phils.len() == n);
            }
            table.step(w);
            let ghost s2 = table@;
            proof {
                assert(s2 == step_spec(s1, w as int));
                assert(s2.phils[w as int].phase is Eating);
                assert(s2.phils.len() == n);
            }
            table.step(w);
            let ghost s3 = table@;
            proof {
                assert(s3 == step_spec(s2, w as int));
                assert(s3.phils[w as int].phase is Thinking);
                assert(s3.phils[w as int].meals == round + 1);
                assert(s3.phils[w as int].target == meals);
                assert(s3.phils.len() == n);
            }
            table.step(w);
            proof {
                assert(table@ == step_spec(s3, w as int));
                let t = table@;
                assert(t.phils[w as int].meals == round + 1);
                assert(t.phils[w as int].phase == (if round + 1 == meals {
                    Phase::Done
                } else {
                    Phase::Hungry
                }));
                // every other worker's record is untouched by the four steps
                assert(forall|i: int|
                    0 <= i < n && i != w ==> #[trigger] t.phils[i] == s0.phils[i]);
                // all forks are free again
                assert forall|f: int| 0 <= f < n implies (#[trigger] t.forks[f]).holder
                    is None by {
                    if f != w as int && f != right_of(w as int, n as int) {
                        assert(t.forks[f] == s0.forks[f]);
                    }
                }
                // the queue grew by exactly this worker's meal reports
                assert(t.chan.queue == s0.chan.queue.push(
                    Message::Eating { who: w },
                ).push(Message::NewIdea { who: w }));
                assert(round_log(w + 1 as int) == round_log(w as int) + meal_log(w as int));
                assert(t.chan.queue =~= dinner_log(n as int, round as int) + round_log(
                    w as int + 1,
                ));
            }
            w += 1;
        }
        proof {
            assert(dinner_log(n as int, round as int + 1) == dinner_log(n as int, round as int)
                + round_log(n as int));
            assert(table@.chan.queue =~= dinner_log(n as int, round as int + 1));
        }
        round += 1;
    }
    proof {
        if meals > 0 {
            assert(forall|i: int|
                0 <= i < n ==> (#[trigger] table@.phils[i]).phase is Done);
        }
        assert(forall|i: int| 0 <= i < table@.n() ==> (#[trigger] table@.phils[i]).phase is Done);
        lemma_all_done_senders_zero(table@);
    }
    let log = table.drain_reports();
    Ok(log)
}

} // verus!
