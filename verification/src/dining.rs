//! A ring of workers contending for shared exclusive resources.
//!
//! N workers sit around a table with N forks; worker `w` needs fork `w` (its
//! left) and fork `right_of(w)` (its right) at the same time before it can
//! eat.  Acquisition is always non-blocking: a worker that holds only one
//! fork gives it back before retrying, which trades the classic blocking
//! circular-wait deadlock for, at worst, a livelock.  No fairness is
//! guaranteed — nothing bounds how long one worker may retry.
//!
//! Of the two reasonable retry policies — re-announce an idea before every
//! retry, or back off silently until both forks are won — this library
//! deliberately implements the second, backoff-until-success: a failed
//! attempt reports at most the missing fork and retries, and the idea is
//! announced exactly once per completed meal.  Each worker eats a fixed
//! number of meals, reports on a shared channel, and then drops its sender
//! handle, which makes a bounded run terminate deterministically.
//!
//! The concurrent system is modelled as an interleaved transition system:
//! [`Table`] holds the whole shared state, and [`Table::step`] runs one
//! micro-step of one worker.  Which worker steps next is the scheduler's
//! choice — the supervisor, a test, or a thread interleaving — so everything
//! proved of `step` holds under every schedule.

use vstd::prelude::*;

use crate::report::ChannelView;
use crate::report::Message;
use crate::report::ReportChannel;

verus! {

/// Where a worker stands in its acquire/eat/report cycle.
#[derive(Clone, Copy, PartialEq, Eq, Structural, Debug)]
pub enum Phase {
    /// Between meals: about to announce the idea the last meal produced.
    Thinking,
    /// Wants to eat and holds nothing; will try its left fork next.
    Hungry,
    /// The left fork was taken; will still probe the right fork, then back off.
    LeftFailed,
    /// Holds its left fork only; will try its right fork next.
    HasLeft,
    /// Holds both forks.
    Eating,
    /// Finished all meals (or saw the observer go away) and dropped its sender.
    Done,
}

/// An exclusive-lock unit with no payload.  `holder` is the index of the
/// worker holding it, if any; `try_acquire` and `release` are the only moves.
#[derive(Clone, Copy, PartialEq, Eq, Structural, Debug)]
pub struct Fork {
    pub holder: Option<usize>,
}

impl Fork {
    pub fn new() -> (f: Fork)
        ensures
            f.holder is None,
    {
        Fork { holder: None }
    }

    /// Non-blocking acquisition: succeeds exactly when the fork is unheld,
    /// and never changes a fork somebody else holds — two holders at once
    /// are impossible.
    pub fn try_acquire(&mut self, w: usize) -> (got: bool)
        ensures
            got == (old(self).holder is None),
            got ==> final(self).holder == Some(w),
            !got ==> final(self).holder == old(self).holder,
    {
        match self.holder {
            None => {
                self.holder = Some(w);
                true
            }
            Some(_) => false,
        }
    }

    /// Gives the fork back.
    pub fn release(&mut self)
        ensures
            final(self).holder is None,
    {
        self.holder = None;
    }
}

/// One participant: its identity, the indices of its two adjacent forks, and
/// its loop state.
#[derive(Clone, Copy, PartialEq, Eq, Structural, Debug)]
pub struct Philosopher {
    pub id: usize,
    pub left: usize,
    pub right: usize,
    pub phase: Phase,
    /// Meals finished so far.
    pub meals: usize,
    /// Meals this worker will eat before it exits.
    pub target: usize,
}

impl Philosopher {
    /// Produces the status line for a fresh idea; the caller puts it on the
    /// channel.
    pub fn think(&self) -> (m: Message)
        ensures
            m == (Message::NewIdea { who: self.id }),
    {
        Message::NewIdea { who: self.id }
    }
}

/// The index of the fork to the right of worker `w` at a table of `n`.
/// Fork `w` itself is the worker's left fork, so fork `f` is shared by
/// exactly the workers `f` and `left_neighbor(f, n)`.
pub open spec fn right_of(w: int, n: int) -> int {
    if w + 1 == n {
        0
    } else {
        w + 1
    }
}

/// The worker to whom fork `f` is the right fork.
pub open spec fn left_neighbor(f: int, n: int) -> int {
    if f == 0 {
        n - 1
    } else {
        f - 1
    }
}

/// The same worker with another phase.
pub open spec fn with_phase(p: Philosopher, ph: Phase) -> Philosopher {
    Philosopher { phase: ph, ..p }
}

/// How many workers have not yet dropped their sender handle.
pub open spec fn count_active(s: Seq<Philosopher>) -> nat
    decreases s.len(),
{
    if s.len() == 0 {
        0
    } else {
        count_active(s.drop_last()) + (if s.last().phase is Done {
            0nat
        } else {
            1nat
        })
    }
}

proof fn lemma_count_active_pos(s: Seq<Philosopher>, i: int)
    requires
        0 <= i < s.len(),
        !(s[i].phase is Done),
    ensures
        count_active(s) >= 1,
    decreases s.len(),
{
    if i < s.len() - 1 {
        lemma_count_active_pos(s.drop_last(), i);
    }
}

proof fn lemma_count_active_update(s: Seq<Philosopher>, i: int, p: Philosopher)
    requires
        0 <= i < s.len(),
    ensures
        count_active(s.update(i, p)) == count_active(s) - (if s[i].phase is Done {
            0int
        } else {
            1int
        }) + (if p.phase is Done {
            0int
        } else {
            1int
        }),
    decreases s.len(),
{
    let t = s.update(i, p);
    if i == s.len() - 1 {
        assert(t.drop_last() =~= s.drop_last());
    } else {
        lemma_count_active_update(s.drop_last(), i, p);
        assert(t.drop_last() =~= s.drop_last().update(i, p));
    }
}

proof fn lemma_count_active_all_done(s: Seq<Philosopher>)
    requires
        forall|i: int| 0 <= i < s.len() ==> #[trigger] s[i].phase is Done,
    ensures
        count_active(s) == 0,
    decreases s.len(),
{
    if s.len() > 0 {
        assert(forall|i: int| 0 <= i < s.drop_last().len() ==> #[trigger] s.drop_last()[i].phase
            is Done);
        lemma_count_active_all_done(s.drop_last());
    }
}

proof fn lemma_count_active_none_done(s: Seq<Philosopher>)
    requires
        forall|i: int| 0 <= i < s.len() ==> !(#[trigger] s[i].phase is Done),
    ensures
        count_active(s) == s.len(),
    decreases s.len(),
{
    if s.len() > 0 {
        assert(forall|i: int| 0 <= i < s.drop_last().len() ==> !(#[trigger] s.drop_last()[i].phase
            is Done));
        lemma_count_active_none_done(s.drop_last());
    }
}

/// The abstract state of the whole table: fork holders, worker records, and
/// the channel.
#[verifier::ext_equal]
pub struct TableView {
    pub forks: Seq<Fork>,
    pub phils: Seq<Philosopher>,
    pub chan: ChannelView,
}

impl TableView {
    pub open spec fn n(self) -> int {
        self.phils.len() as int
    }

    /// The record of worker `i` is internally consistent and sits at the
    /// right place in the ring.
    pub open spec fn phil_wf(self, i: int) -> bool {
        let p = self.phils[i];
        &&& p.id == i
        &&& p.left == i
        &&& p.right == right_of(i, self.n())
        &&& p.meals <= p.target
        &&& (p.phase is Hungry || p.phase is LeftFailed || p.phase is HasLeft || p.phase
            is Eating) ==> p.meals < p.target
    }

    /// Worker `w`'s phase says it holds fork `f`.
    pub open spec fn holds_fork(self, w: int, f: int) -> bool {
        &&& 0 <= w < self.n()
        &&& ((f == w && (self.phils[w].phase is HasLeft || self.phils[w].phase is Eating)) || (f
            == right_of(w, self.n()) && self.phils[w].phase is Eating))
    }

    /// The fork holders and the worker phases tell the same story.
    pub open spec fn forks_consistent(self) -> bool {
        &&& (forall|w: int|
            0 <= w < self.n() && ((#[trigger] self.phils[w]).phase is HasLeft || self.phils[w].phase
                is Eating) ==> self.forks[w].holder == Some(w as usize))
        &&& (forall|w: int|
            0 <= w < self.n() && (#[trigger] self.phils[w]).phase is Eating ==> self.forks[right_of(
                w,
                self.n(),
            )].holder == Some(w as usize))
        &&& (forall|f: int|
            0 <= f < self.n() && (#[trigger] self.forks[f]).holder is Some ==> self.holds_fork(
                self.forks[f].holder->0 as int,
                f,
            ))
    }

    /// The table's invariant: a ring of `n >= 2` forks and workers, with
    /// phases, fork holders, and live sender handles all in agreement.
    pub open spec fn wf(self) -> bool {
        &&& self.forks.len() == self.phils.len()
        &&& self.n() >= 2
        &&& forall|i: int| 0 <= i < self.n() ==> #[trigger] self.phil_wf(i)
        &&& self.forks_consistent()
        &&& self.chan.senders == count_active(self.phils)
    }
}

/// Mutual exclusion: the invariant allows at most one holder per fork, at
/// any instant and under any schedule.
pub proof fn lemma_mutual_exclusion(v: TableView, f: int, w1: int, w2: int)
    requires
        v.wf(),
        0 <= f < v.n(),
        v.holds_fork(w1, f),
        v.holds_fork(w2, f),
    ensures
        w1 == w2,
{
    assert(0 <= w1 < v.n() && 0 <= w2 < v.n());
    assert(v.phil_wf(w1) && v.phil_wf(w2));
    assert(v.phils[w1].id == w1 && v.phils[w2].id == w2);
    assert(v.forks[f].holder == Some(v.phils[w1].id));
    assert(v.forks[f].holder == Some(v.phils[w2].id));
}

/// Ring adjacency: fork `f` is adjacent to exactly the workers `f` and
/// `left_neighbor(f, n)` — no other worker ever names it.
pub proof fn lemma_ring_adjacency(v: TableView, f: int)
    requires
        v.wf(),
        0 <= f < v.n(),
    ensures
        forall|w: int|
            0 <= w < v.n() ==> (((#[trigger] v.phils[w]).left == f || v.phils[w].right == f) <==> (w
                == f || w == left_neighbor(f, v.n()))),
{
    assert forall|w: int| 0 <= w < v.n() implies (((#[trigger] v.phils[w]).left == f
        || v.phils[w].right == f) <==> (w == f || w == left_neighbor(f, v.n()))) by {
        assert(v.phil_wf(w));
        assert(v.phil_wf(f));
        if f == 0 {
            assert(v.phil_wf(v.n() - 1));
        } else {
            assert(v.phil_wf(f - 1));
        }
    }
}

/// One micro-step of worker `w`, as a function of the whole table state.
///
/// The machine is deterministic per worker: each phase has exactly one move,
/// whose outcome depends only on the fork states and the channel.  A failed
/// probe is itself a completed step — nothing here ever blocks.
pub open spec fn step_spec(v: TableView, w: int) -> TableView {
    let p = v.phils[w];
    let n = v.n();
    let r = right_of(w, n);
    match p.phase {
        Phase::Hungry => if v.forks[w].holder is None {
            TableView {
                forks: v.forks.update(w, Fork { holder: Some(p.id) }),
                phils: v.phils.update(w, with_phase(p, Phase::HasLeft)),
                ..v
            }
        } else {
            TableView { phils: v.phils.update(w, with_phase(p, Phase::LeftFailed)), ..v }
        },
        Phase::LeftFailed => if v.forks[r].holder is None {
            // the right fork alone is briefly taken and put straight back
            if v.chan.receiver_alive {
                TableView {
                    phils: v.phils.update(w, with_phase(p, Phase::Hungry)),
                    chan: ChannelView {
                        queue: v.chan.queue.push(Message::MissingLeft { who: p.id }),
                        ..v.chan
                    },
                    ..v
                }
            } else {
                TableView {
                    phils: v.phils.update(w, with_phase(p, Phase::Done)),
                    chan: ChannelView { senders: (v.chan.senders - 1) as nat, ..v.chan },
                    ..v
                }
            }
        } else {
            TableView { phils: v.phils.update(w, with_phase(p, Phase::Hungry)), ..v }
        },
        Phase::HasLeft => if v.forks[r].holder is None {
            if v.chan.receiver_alive {
                TableView {
                    forks: v.forks.update(r, Fork { holder: Some(p.id) }),
                    phils: v.phils.update(w, with_phase(p, Phase::Eating)),
                    chan: ChannelView {
                        queue: v.chan.queue.push(Message::Eating { who: p.id }),
                        ..v.chan
                    },
                }
            } else {
                // the observer is gone: give everything back and stop
                TableView {
                    forks: v.forks.update(w, Fork { holder: None }).update(
                        r,
                        Fork { holder: None },
                    ),
                    phils: v.phils.update(w, with_phase(p, Phase::Done)),
                    chan: ChannelView { senders: (v.chan.senders - 1) as nat, ..v.chan },
                }
            }
        } else {
            if v.chan.receiver_alive {
                TableView {
                    forks: v.forks.update(w, Fork { holder: None }),
                    phils: v.phils.update(w, with_phase(p, Phase::Hungry)),
                    chan: ChannelView {
                        queue: v.chan.queue.push(Message::MissingRight { who: p.id }),
                        ..v.chan
                    },
                }
            } else {
                TableView {
                    forks: v.forks.update(w, Fork { holder: None }),
                    phils: v.phils.update(w, with_phase(p, Phase::Done)),
                    chan: ChannelView { senders: (v.chan.senders - 1) as nat, ..v.chan },
                }
            }
        },
        Phase::Eating => TableView {
            forks: v.forks.update(w, Fork { holder: None }).update(r, Fork { holder: None }),
            phils: v.phils.update(
                w,
                Philosopher { phase: Phase::Thinking, meals: (p.meals + 1) as usize, ..p },
            ),
            ..v
        },
        Phase::Thinking => if v.chan.receiver_alive {
            if p.meals >= p.target {
                TableView {
                    phils: v.phils.update(w, with_phase(p, Phase::Done)),
                    chan: ChannelView {
                        queue: v.chan.queue.push(Message::NewIdea { who: p.id }),
                        senders: (v.chan.senders - 1) as nat,
                        ..v.chan
                    },
                    ..v
                }
            } else {
                TableView {
                    phils: v.phils.update(w, with_phase(p, Phase::Hungry)),
                    chan: ChannelView {
                        queue: v.chan.queue.push(Message::NewIdea { who: p.id }),
                        ..v.chan
                    },
                    ..v
                }
            }
        } else {
            TableView {
                phils: v.phils.update(w, with_phase(p, Phase::Done)),
                chan: ChannelView { senders: (v.chan.senders - 1) as nat, ..v.chan },
                ..v
            }
        },
        Phase::Done => v,
    }
}

/// A step that changes one worker's phase, touches no fork, and keeps the
/// sender count consistent preserves the invariant.
proof fn lemma_wf_no_fork_change(v: TableView, w: int, ph: Phase, c: ChannelView)
    requires
        v.wf(),
        0 <= w < v.n(),
        !(v.phils[w].phase is HasLeft),
        !(v.phils[w].phase is Eating),
        !(ph is HasLeft),
        !(ph is Eating),
        (ph is Hungry || ph is LeftFailed) ==> v.phils[w].meals < v.phils[w].target,
        c.senders == count_active(v.phils.update(w, with_phase(v.phils[w], ph))),
    ensures
        (TableView { phils: v.phils.update(w, with_phase(v.phils[w], ph)), chan: c, ..v }).wf(),
{
    let t = TableView { phils: v.phils.update(w, with_phase(v.phils[w], ph)), chan: c, ..v };
    assert(v.phil_wf(w));
    assert forall|i: int| 0 <= i < t.n() implies #[trigger] t.phil_wf(i) by {
        assert(v.phil_wf(i));
    }
    assert forall|f: int| 0 <= f < t.n() && (#[trigger] t.forks[f]).holder is Some implies
        t.holds_fork(t.forks[f].holder->0 as int, f) by {
        let h = t.forks[f].holder->0 as int;
        assert(v.holds_fork(h, f));
        assert(h != w);
    }
    assert(t.wf());
}

/// A step in which worker `w` gives back its left fork (and holds nothing
/// afterwards) preserves the invariant.
proof fn lemma_wf_release_left(v: TableView, w: int, ph: Phase, c: ChannelView)
    requires
        v.wf(),
        0 <= w < v.n(),
        v.phils[w].phase is HasLeft,
        ph is Hungry || ph is Done,
        c.senders == count_active(v.phils.update(w, with_phase(v.phils[w], ph))),
    ensures
        (TableView {
            forks: v.forks.update(w, Fork { holder: None }),
            phils: v.phils.update(w, with_phase(v.phils[w], ph)),
            chan: c,
        }).wf(),
{
    let t = TableView {
        forks: v.forks.update(w, Fork { holder: None }),
        phils: v.phils.update(w, with_phase(v.phils[w], ph)),
        chan: c,
    };
    assert(v.phil_wf(w));
    assert forall|i: int| 0 <= i < t.n() implies #[trigger] t.phil_wf(i) by {
        assert(v.phil_wf(i));
    }
    assert forall|w2: int|
        0 <= w2 < t.n() && (#[trigger] t.phils[w2]).phase is Eating implies t.forks[right_of(
        w2,
        t.n(),
    )].holder == Some(w2 as usize) by {
        assert(v.phil_wf(w2));
        if right_of(w2, v.n()) == w {
            assert(v.forks[w].holder == Some(w2 as usize));
            assert(v.forks[w].holder == Some(v.phils[w].id));
            assert(false);
        }
    }
    assert forall|f: int| 0 <= f < t.n() && (#[trigger] t.forks[f]).holder is Some implies
        t.holds_fork(t.forks[f].holder->0 as int, f) by {
        let h = t.forks[f].holder->0 as int;
        assert(f != w);
        assert(v.holds_fork(h, f));
        assert(h != w);
    }
    assert(t.wf());
}

/// A step in which worker `w` gives back both adjacent forks preserves the
/// invariant.
proof fn lemma_wf_release_both(v: TableView, w: int, q: Philosopher, c: ChannelView)
    requires
        v.wf(),
        0 <= w < v.n(),
        v.phils[w].phase is HasLeft || v.phils[w].phase is Eating,
        v.forks[right_of(w, v.n())].holder is None || v.forks[right_of(w, v.n())].holder == Some(
            v.phils[w].id,
        ),
        q.id == v.phils[w].id,
        q.left == v.phils[w].left,
        q.right == v.phils[w].right,
        q.target == v.phils[w].target,
        q.meals <= q.target,
        q.phase is Thinking || q.phase is Done,
        c.senders == count_active(v.phils.update(w, q)),
    ensures
        (TableView {
            forks: v.forks.update(w, Fork { holder: None }).update(
                right_of(w, v.n()),
                Fork { holder: None },
            ),
            phils: v.phils.update(w, q),
            chan: c,
        }).wf(),
{
    let n = v.n();
    let r = right_of(w, n);
    let t = TableView {
        forks: v.forks.update(w, Fork { holder: None }).update(r, Fork { holder: None }),
        phils: v.phils.update(w, q),
        chan: c,
    };
    assert(v.phil_wf(w));
    assert(r != w);
    assert forall|i: int| 0 <= i < t.n() implies #[trigger] t.phil_wf(i) by {
        assert(v.phil_wf(i));
    }
    assert forall|w2: int|
        0 <= w2 < t.n() && ((#[trigger] t.phils[w2]).phase is HasLeft || t.phils[w2].phase
            is Eating) implies t.forks[w2].holder == Some(w2 as usize) by {
        assert(v.phil_wf(w2));
        assert(w2 != w);
        if w2 == r {
            assert(v.forks[r].holder == Some(w2 as usize));
            assert(false);
        }
    }
    assert forall|w2: int|
        0 <= w2 < t.n() && (#[trigger] t.phils[w2]).phase is Eating implies t.forks[right_of(
        w2,
        t.n(),
    )].holder == Some(w2 as usize) by {
        assert(v.phil_wf(w2));
        assert(w2 != w);
        if right_of(w2, n) == w {
            assert(v.forks[w].holder == Some(w2 as usize));
            assert(v.forks[w].holder == Some(v.phils[w].id));
            assert(false);
        }
        if right_of(w2, n) == r {
            assert(v.forks[r].holder == Some(w2 as usize));
            assert(false);
        }
    }
    assert forall|f: int| 0 <= f < t.n() && (#[trigger] t.forks[f]).holder is Some implies
        t.holds_fork(t.forks[f].holder->0 as int, f) by {
        let h = t.forks[f].holder->0 as int;
        assert(f != w && f != r);
        assert(v.holds_fork(h, f));
        assert(h != w);
    }
    assert(t.wf());
}

/// A step in which worker `w` takes its free left fork preserves the
/// invariant.
proof fn lemma_wf_take_left(v: TableView, w: int)
    requires
        v.wf(),
        0 <= w < v.n(),
        v.phils[w].phase is Hungry,
        v.forks[w].holder is None,
    ensures
        (TableView {
            forks: v.forks.update(w, Fork { holder: Some(v.phils[w].id) }),
            phils: v.phils.update(w, with_phase(v.phils[w], Phase::HasLeft)),
            ..v
        }).wf(),
{
    let t = TableView {
        forks: v.forks.update(w, Fork { holder: Some(v.phils[w].id) }),
        phils: v.phils.update(w, with_phase(v.phils[w], Phase::HasLeft)),
        ..v
    };
    assert(v.phil_wf(w));
    assert forall|i: int| 0 <= i < t.n() implies #[trigger] t.phil_wf(i) by {
        assert(v.phil_wf(i));
    }
    lemma_count_active_update(v.phils, w, with_phase(v.phils[w], Phase::HasLeft));
    assert forall|w2: int|
        0 <= w2 < t.n() && (#[trigger] t.phils[w2]).phase is Eating implies t.forks[right_of(
        w2,
        t.n(),
    )].holder == Some(w2 as usize) by {
        assert(v.phil_wf(w2));
        assert(w2 != w);
        if right_of(w2, v.n()) == w {
            assert(v.forks[w].holder == Some(w2 as usize));
            assert(false);
        }
    }
    assert forall|f: int| 0 <= f < t.n() && (#[trigger] t.forks[f]).holder is Some implies
        t.holds_fork(t.forks[f].holder->0 as int, f) by {
        if f == w {
            assert(t.phil_wf(w));
            assert(t.forks[f].holder == Some(v.phils[w].id));
            assert(t.holds_fork(w, f));
        } else {
            let h = t.forks[f].holder->0 as int;
            assert(v.holds_fork(h, f));
            assert(h != w);
        }
    }
    assert(t.wf());
}

/// A step in which worker `w`, already holding its left fork, takes its free
/// right fork and starts eating preserves the invariant.
proof fn lemma_wf_take_right(v: TableView, w: int, c: ChannelView)
    requires
        v.wf(),
        0 <= w < v.n(),
        v.phils[w].phase is HasLeft,
        v.forks[right_of(w, v.n())].holder is None,
        c.senders == v.chan.senders,
    ensures
        (TableView {
            forks: v.forks.update(right_of(w, v.n()), Fork { holder: Some(v.phils[w].id) }),
            phils: v.phils.update(w, with_phase(v.phils[w], Phase::Eating)),
            chan: c,
        }).wf(),
{
    let n = v.n();
    let r = right_of(w, n);
    let t = TableView {
        forks: v.forks.update(r, Fork { holder: Some(v.phils[w].id) }),
        phils: v.phils.update(w, with_phase(v.phils[w], Phase::Eating)),
        chan: c,
    };
    assert(v.phil_wf(w));
    assert(r != w);
    assert forall|i: int| 0 <= i < t.n() implies #[trigger] t.phil_wf(i) by {
        assert(v.phil_wf(i));
    }
    lemma_count_active_update(v.phils, w, with_phase(v.phils[w], Phase::Eating));
    assert forall|w2: int|
        0 <= w2 < t.n() && ((#[trigger] t.phils[w2]).phase is HasLeft || t.phils[w2].phase
            is Eating) implies t.forks[w2].holder == Some(w2 as usize) by {
        assert(v.phil_wf(w2));
        if w2 == r {
            assert(v.forks[r].holder == Some(w2 as usize));
            assert(false);
        }
    }
    assert forall|w2: int|
        0 <= w2 < t.n() && (#[trigger] t.phils[w2]).phase is Eating implies t.forks[right_of(
        w2,
        t.n(),
    )].holder == Some(w2 as usize) by {
        assert(v.phil_wf(w2));
        if w2 != w {
            if right_of(w2, n) == r {
                assert(v.forks[r].holder == Some(w2 as usize));
                assert(false);
            }
        }
    }
    assert forall|f: int| 0 <= f < t.n() && (#[trigger] t.forks[f]).holder is Some implies
        t.holds_fork(t.forks[f].holder->0 as int, f) by {
        if f == r {
            assert(t.phil_wf(w));
            assert(t.holds_fork(w, f));
        } else {
            let h = t.forks[f].holder->0 as int;
            assert(v.holds_fork(h, f));
            if h == w {
                assert(f == w);
                assert(t.holds_fork(w, f));
            }
        }
    }
    assert(t.wf());
}

/// Every step of every worker preserves the table invariant, under every
/// schedule.
pub proof fn lemma_step_preserves_wf(v: TableView, w: int)
    requires
        v.wf(),
        0 <= w < v.n(),
    ensures
        step_spec(v, w).wf(),
{
    let p = v.phils[w];
    let n = v.n();
    let r = right_of(w, n);
    assert(v.phil_wf(w));
    assert(r != w);
    lemma_count_active_update(v.phils, w, with_phase(p, Phase::LeftFailed));
    lemma_count_active_update(v.phils, w, with_phase(p, Phase::Hungry));
    lemma_count_active_update(v.phils, w, with_phase(p, Phase::Done));
    lemma_count_active_update(
        v.phils,
        w,
        Philosopher { phase: Phase::Thinking, meals: (p.meals + 1) as usize, ..p },
    );
    if !(p.phase is Done) {
        lemma_count_active_pos(v.phils, w);
    }
    match p.phase {
        Phase::Hungry => {
            if v.forks[w].holder is None {
                lemma_wf_take_left(v, w);
            } else {
                lemma_wf_no_fork_change(v, w, Phase::LeftFailed, v.chan);
            }
        },
        Phase::LeftFailed => {
            if v.forks[r].holder is None {
                if v.chan.receiver_alive {
                    lemma_wf_no_fork_change(
                        v,
                        w,
                        Phase::Hungry,
                        ChannelView {
                            queue: v.chan.queue.push(Message::MissingLeft { who: p.id }),
                            ..v.chan
                        },
                    );
                } else {
                    lemma_wf_no_fork_change(
                        v,
                        w,
                        Phase::Done,
                        ChannelView { senders: (v.chan.senders - 1) as nat, ..v.chan },
                    );
                }
            } else {
                lemma_wf_no_fork_change(v, w, Phase::Hungry, v.chan);
            }
        },
        Phase::HasLeft => {
            if v.forks[r].holder is None {
                if v.chan.receiver_alive {
                    lemma_wf_take_right(
                        v,
                        w,
                        ChannelView {
                            queue: v.chan.queue.push(Message::Eating { who: p.id }),
                            ..v.chan
                        },
                    );
                } else {
                    lemma_wf_release_both(
                        v,
                        w,
                        with_phase(p, Phase::Done),
                        ChannelView { senders: (v.chan.senders - 1) as nat, ..v.chan },
                    );
                }
            } else {
                if v.chan.receiver_alive {
                    lemma_wf_release_left(
                        v,
                        w,
                        Phase::Hungry,
                        ChannelView {
                            queue: v.chan.queue.push(Message::MissingRight { who: p.id }),
                            ..v.chan
                        },
                    );
                } else {
                    lemma_wf_release_left(
                        v,
                        w,
                        Phase::Done,
                        ChannelView { senders: (v.chan.senders - 1) as nat, ..v.chan },
                    );
                }
            }
        },
        Phase::Eating => {
            lemma_wf_release_both(
                v,
                w,
                Philosopher { phase: Phase::Thinking, meals: (p.meals + 1) as usize, ..p },
                v.chan,
            );
        },
        Phase::Thinking => {
            if v.chan.receiver_alive {
                if p.meals >= p.target {
                    lemma_wf_no_fork_change(
                        v,
                        w,
                        Phase::Done,
                        ChannelView {
                            queue: v.chan.queue.push(Message::NewIdea { who: p.id }),
                            senders: (v.chan.senders - 1) as nat,
                            ..v.chan
                        },
                    );
                } else {
                    lemma_wf_no_fork_change(
                        v,
                        w,
                        Phase::Hungry,
                        ChannelView {
                            queue: v.chan.queue.push(Message::NewIdea { who: p.id }),
                            ..v.chan
                        },
                    );
                }
            } else {
                lemma_wf_no_fork_change(
                    v,
                    w,
                    Phase::Done,
                    ChannelView { senders: (v.chan.senders - 1) as nat, ..v.chan },
                );
            }
        },
        Phase::Done => {},
    }
}

/// Partial-acquisition rollback: a worker holding only its left fork, whose
/// right fork is taken, gives the left fork back within its very next step.
/// The fork is unheld before the worker's next attempt, so another worker can
/// acquire it.
pub proof fn lemma_partial_rollback(v: TableView, w: int)
    requires
        v.wf(),
        0 <= w < v.n(),
        v.phils[w].phase is HasLeft,
        v.forks[right_of(w, v.n())].holder is Some,
    ensures
        step_spec(v, w).forks[w].holder is None,
        step_spec(v, w).phils[w].phase is Hungry || step_spec(v, w).phils[w].phase is Done,
        forall|f: int| !(#[trigger] step_spec(v, w).holds_fork(w, f)),
{
}

/// A hungry worker whose left fork is free acquires it in one step: a fork
/// given back by a rollback is observably taken by the next worker that
/// tries.
pub proof fn lemma_free_fork_acquired(v: TableView, w: int)
    requires
        v.wf(),
        0 <= w < v.n(),
        v.phils[w].phase is Hungry,
        v.forks[w].holder is None,
    ensures
        step_spec(v, w).forks[w].holder == Some(v.phils[w].id),
        step_spec(v, w).phils[w].phase is HasLeft,
{
}

/// No blocking circular wait: a worker holding one fork resolves in its next
/// step — it either starts eating or ends the step holding nothing at all.
/// Since every phase always has an enabled step, no worker ever waits while
/// holding a resource, and a deadlock cannot form; at worst the ring
/// livelocks through rollback-and-retry.
pub proof fn lemma_partial_hold_resolves(v: TableView, w: int)
    requires
        v.wf(),
        0 <= w < v.n(),
        v.phils[w].phase is HasLeft,
    ensures
        step_spec(v, w).phils[w].phase is Eating || (forall|f: int|
            !(#[trigger] step_spec(v, w).holds_fork(w, f))),
{
}

/// Channel termination: once every worker is done, no sender handle is left,
/// so a receive on the empty queue reports end-of-stream.
pub proof fn lemma_all_done_senders_zero(v: TableView)
    requires
        v.wf(),
        forall|i: int| 0 <= i < v.n() ==> (#[trigger] v.phils[i]).phase is Done,
    ensures
        v.chan.senders == 0,
{
    assert(forall|i: int| 0 <= i < v.phils.len() ==> #[trigger] v.phils[i].phase is Done);
    lemma_count_active_all_done(v.phils);
}

/// A configuration the supervisor refuses at startup, before anything runs.
#[derive(Clone, Copy, PartialEq, Eq, Structural, Debug)]
pub enum ConfigError {
    /// A ring needs at least two workers and two resources.
    TooFewWorkers,
}

/// The worker record the supervisor seats at place `i` of a ring of `n`.
pub open spec fn init_phil(i: int, n: int, target: int) -> Philosopher {
    Philosopher {
        id: i as usize,
        left: i as usize,
        right: right_of(i, n) as usize,
        phase: if target == 0 {
            Phase::Done
        } else {
            Phase::Hungry
        },
        meals: 0,
        target: target as usize,
    }
}

/// The freshly built table: all forks free, every worker hungry (or already
/// done, if it has no meals to eat), one sender handle per active worker.
pub open spec fn init_view(n: int, target: int) -> TableView {
    TableView {
        forks: Seq::new(n as nat, |f: int| Fork { holder: None }),
        phils: Seq::new(n as nat, |i: int| init_phil(i, n, target)),
        chan: ChannelView {
            queue: Seq::empty(),
            senders: if target == 0 {
                0nat
            } else {
                n as nat
            },
            receiver_alive: true,
        },
    }
}

/// The whole shared state of the simulation, stepped one worker at a time.
pub struct Table {
    forks: Vec<Fork>,
    phils: Vec<Philosopher>,
    chan: ReportChannel,
}

impl View for Table {
    type V = TableView;

    closed spec fn view(&self) -> TableView {
        TableView { forks: self.forks@, phils: self.phils@, chan: self.chan@ }
    }
}

impl Table {
    /// Seats `n` workers around `n` forks, each worker bound for `target`
    /// meals.  Fewer than two workers cannot form a ring: that is a startup
    /// configuration error, rejected before anything is spawned.
    pub fn new(n: usize, target: usize) -> (r: Result<Table, ConfigError>)
        ensures
            (r is Ok) <==> n >= 2,
            r matches Ok(t) ==> t@ == init_view(n as int, target as int) && t@.wf(),
            r matches Err(e) ==> e == ConfigError::TooFewWorkers,
    {
        if n < 2 {
            return Err(ConfigError::TooFewWorkers);
        }
        let mut forks: Vec<Fork> = Vec::new();
        let mut i: usize = 0;
        while i < n
            invariant
                i <= n,
                forks@.len() == i,
                forall|f: int| 0 <= f < i ==> (#[trigger] forks@[f]).holder is None,
            decreases n - i,
        {
            forks.push(Fork::new());
            i += 1;
        }
        let mut phils: Vec<Philosopher> = Vec::new();
        let mut j: usize = 0;
        while j < n
            invariant
                j <= n,
                2 <= n,
                phils@.len() == j,
                forall|k: int|
                    0 <= k < j ==> #[trigger] phils@[k] == init_phil(
                        k,
                        n as int,
                        target as int,
                    ),
            decreases n - j,
        {
            let right = if j + 1 == n {
                0
            } else {
                j + 1
            };
            let phase = if target == 0 {
                Phase::Done
            } else {
                Phase::Hungry
            };
            phils.push(Philosopher { id: j, left: j, right, phase, meals: 0, target });
            j += 1;
        }
        let senders = if target == 0 {
            0
        } else {
            n
        };
        let chan = ReportChannel::new(senders);
        let t = Table { forks, phils, chan };
        proof {
            let tv = t@;
            let iv = init_view(n as int, target as int);
            assert(tv.forks =~= iv.forks);
            assert(tv.phils =~= iv.phils);
            assert(tv.chan =~~= iv.chan);
            assert(tv =~~= iv);
            if target == 0 {
                assert(forall|i: int|
                    0 <= i < tv.phils.len() ==> #[trigger] tv.phils[i].phase is Done);
                lemma_count_active_all_done(tv.phils);
            } else {
                assert(forall|i: int|
                    0 <= i < tv.phils.len() ==> !(#[trigger] tv.phils[i].phase is Done));
                lemma_count_active_none_done(tv.phils);
            }
            assert forall|i: int| 0 <= i < tv.n() implies #[trigger] tv.phil_wf(i) by {
                assert(tv.phils[i] == init_phil(i, n as int, target as int));
            }
            assert(tv.wf());
        }
        Ok(t)
    }

    /// How many workers sit at the table.
    pub fn num_workers(&self) -> (r: usize)
        ensures
            r == self@.n(),
    {
        self.phils.len()
    }

    /// Worker `w`'s current phase.
    pub fn phase_of(&self, w: usize) -> (r: Phase)
        requires
            w < self@.phils.len(),
        ensures
            r == self@.phils[w as int].phase,
    {
        self.phils[w].phase
    }

    /// How many meals worker `w` has finished.
    pub fn meals_of(&self, w: usize) -> (r: usize)
        requires
            w < self@.phils.len(),
        ensures
            r == self@.phils[w as int].meals,
    {
        self.phils[w].meals
    }

    /// The index of worker `w`'s left fork.
    pub fn left_fork_of(&self, w: usize) -> (r: usize)
        requires
            w < self@.phils.len(),
        ensures
            r == self@.phils[w as int].left,
    {
        self.phils[w].left
    }

    /// The index of worker `w`'s right fork.
    pub fn right_fork_of(&self, w: usize) -> (r: usize)
        requires
            w < self@.phils.len(),
        ensures
            r == self@.phils[w as int].right,
    {
        self.phils[w].right
    }

    /// Who holds fork `f`, if anyone.
    pub fn holder_of(&self, f: usize) -> (r: Option<usize>)
        requires
            f < self@.forks.len(),
        ensures
            r == self@.forks[f as int].holder,
    {
        self.forks[f].holder
    }

    /// How many report messages are pending.
    pub fn pending_reports(&self) -> (r: usize)
        ensures
            r == self@.chan.queue.len(),
    {
        self.chan.pending()
    }

    /// The pending report at position `i` (oldest first).
    pub fn report_at(&self, i: usize) -> (m: Message)
        requires
            i < self@.chan.queue.len(),
        ensures
            m == self@.chan.queue[i as int],
    {
        self.chan.peek(i)
    }

    /// How many sender handles are still live.
    pub fn sender_count(&self) -> (r: usize)
        ensures
            r == self@.chan.senders,
    {
        self.chan.sender_count()
    }

    /// The observer goes away: every send from now on fails, and each worker
    /// winds down gracefully the next time it reports.
    pub fn close_channel(&mut self)
        ensures
            final(self)@ == (TableView {
                chan: ChannelView { receiver_alive: false, ..old(self)@.chan },
                ..old(self)@
            }),
            old(self)@.wf() ==> final(self)@.wf(),
    {
        self.chan.close_receiver();
        proof {
            assert(self@ =~~= (TableView {
                chan: ChannelView { receiver_alive: false, ..old(self)@.chan },
                ..old(self)@
            }));
            if old(self)@.wf() {
                assert forall|i: int| 0 <= i < self@.n() implies #[trigger] self@.phil_wf(i) by {
                    assert(old(self)@.phil_wf(i));
                }
                assert forall|f: int|
                    0 <= f < self@.n() && (#[trigger] self@.forks[f]).holder is Some implies
                    self@.holds_fork(self@.forks[f].holder->0 as int, f) by {
                    assert(old(self)@.holds_fork(self@.forks[f].holder->0 as int, f));
                }
                assert(self@.wf());
            }
        }
    }

    /// Receives until end-of-stream: every pending message exactly once, in
    /// order, nothing lost and nothing duplicated.  Callable only once every
    /// sender handle is gone — before that, the real receive would block.
    pub fn drain_reports(&mut self) -> (r: Vec<Message>)
        requires
            old(self)@.chan.senders == 0,
        ensures
            r@ == old(self)@.chan.queue,
            final(self)@.chan.queue.len() == 0,
            final(self)@.forks == old(self)@.forks,
            final(self)@.phils == old(self)@.phils,
            final(self)@.chan.senders == 0,
    {
        self.chan.drain()
    }

    /// Runs one micro-step of worker `w`.  The caller is the scheduler: any
    /// interleaving of calls is a possible concurrent execution, and the
    /// invariant survives all of them.
    pub fn step(&mut self, w: usize)
        requires
            old(self)@.wf(),
            w < old(self)@.phils.len(),
        ensures
            final(self)@ == step_spec(old(self)@, w as int),
            final(self)@.wf(),
    {
        proof {
            lemma_step_preserves_wf(old(self)@, w as int);
        }
        let ghost pre = self@;
        let p = self.phils[w];
        let n = self.phils.len();
        proof {
            assert(pre.phil_wf(w as int));
        }
        let r = if w + 1 == n {
            0
        } else {
            w + 1
        };
        match p.phase {
            Phase::Hungry => {
                let mut f = self.forks[w];
                let got = f.try_acquire(p.id);
                if got {
                    self.forks[w] = f;
                    self.phils[w] = Philosopher { phase: Phase::HasLeft, ..p };
                } else {
                    self.phils[w] = Philosopher { phase: Phase::LeftFailed, ..p };
                }
                proof {
                    assert(self@ =~~= step_spec(pre, w as int));
                }
            },
            Phase::LeftFailed => {
                let mut f = self.forks[r];
                let got = f.try_acquire(p.id);
                if got {
                    f.release();
                    self.forks[r] = f;
                    let delivered = self.chan.send(Message::MissingLeft { who: p.id });
                    if delivered {
                        self.phils[w] = Philosopher { phase: Phase::Hungry, ..p };
                    } else {
                        proof {
                            lemma_count_active_pos(pre.phils, w as int);
                        }
                        self.chan.drop_sender();
                        self.phils[w] = Philosopher { phase: Phase::Done, ..p };
                    }
                } else {
                    self.phils[w] = Philosopher { phase: Phase::Hungry, ..p };
                }
                proof {
                    assert(self@.forks =~= pre.forks);
                    assert(self@ =~~= step_spec(pre, w as int));
                }
            },
            Phase::HasLeft => {
                let mut f = self.forks[r];
                let got = f.try_acquire(p.id);
                if got {
                    self.forks[r] = f;
                    let delivered = self.chan.send(Message::Eating { who: p.id });
                    if delivered {
                        self.phils[w] = Philosopher { phase: Phase::Eating, ..p };
                    } else {
                        let mut lf = self.forks[w];
                        lf.release();
                        self.forks[w] = lf;
                        let mut rf = self.forks[r];
                        rf.release();
                        self.forks[r] = rf;
                        proof {
                            lemma_count_active_pos(pre.phils, w as int);
                        }
                        self.chan.drop_sender();
                        self.phils[w] = Philosopher { phase: Phase::Done, ..p };
                        proof {
                            assert(self@.forks =~= step_spec(pre, w as int).forks);
                        }
                    }
                } else {
                    let mut lf = self.forks[w];
                    lf.release();
                    self.forks[w] = lf;
                    let delivered = self.chan.send(Message::MissingRight { who: p.id });
                    if delivered {
                        self.phils[w] = Philosopher { phase: Phase::Hungry, ..p };
                    } else {
                        proof {
                            lemma_count_active_pos(pre.phils, w as int);
                        }
                        self.chan.drop_sender();
                        self.phils[w] = Philosopher { phase: Phase::Done, ..p };
                    }
                }
                proof {
                    assert(self@ =~~= step_spec(pre, w as int));
                }
            },
            Phase::Eating => {
                let mut lf = self.forks[w];
                lf.release();
                self.forks[w] = lf;
                let mut rf = self.forks[r];
                rf.release();
                self.forks[r] = rf;
                self.phils[w] = Philosopher { phase: Phase::Thinking, meals: p.meals + 1, ..p };
                proof {
                    assert(self@ =~~= step_spec(pre, w as int));
                }
            },
            Phase::Thinking => {
                let m = p.think();
                let delivered = self.chan.send(m);
                if delivered {
                    if p.meals >= p.target {
                        proof {
                            lemma_count_active_pos(pre.phils, w as int);
                        }
                        self.chan.drop_sender();
                        self.phils[w] = Philosopher { phase: Phase::Done, ..p };
                    } else {
                        self.phils[w] = Philosopher { phase: Phase::Hungry, ..p };
                    }
                } else {
                    proof {
                        lemma_count_active_pos(pre.phils, w as int);
                    }
                    self.chan.drop_sender();
                    self.phils[w] = Philosopher { phase: Phase::Done, ..p };
                }
                proof {
                    assert(self@ =~~= step_spec(pre, w as int));
                }
            },
            Phase::Done => {
                proof {
                    assert(self@ =~~= step_spec(pre, w as int));
                }
            },
        }
    }
}

} // verus!
