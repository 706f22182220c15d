//! Client-side prediction with rewind-replay reconciliation. Generic over
//! the state `S` and the command `C`; the caller supplies the step function
//! (the same one the server runs — determinism is the whole trick) and the
//! verdict on whether a prediction was close enough.
//!
//! Per tick: on each applied snapshot `reconcile`, after sending input
//! `predict`; rendering reads `state` for the local avatar. `predict_tick`
//! is the whole tick.

use std::collections::VecDeque;

use vstd::prelude::*;

use crate::id::Id;
use crate::pool::{Entry, Pool};

verus! {

/// One predicted input: its sequence, the command, the state after it.
#[derive(Clone, Copy)]
pub struct Step<S, C> {
    pub seq: u32,
    pub cmd: C,
    pub state: S,
}

/// How many unconfirmed inputs the ring keeps by default: about four seconds
/// at sixty a second.
pub const PREDICT_CAP: usize = 240;

/// How many leading entries the server has consumed.
pub open spec fn consumed<S, C>(ring: Seq<Step<S, C>>, echo: u32) -> nat
    decreases ring.len(),
{
    if ring.len() == 0 || ring[0].seq > echo {
        0
    } else {
        1 + consumed(ring.drop_first(), echo)
    }
}

/// The newest consumed prediction made at exactly this sequence.
pub open spec fn predicted_at<S, C>(ring: Seq<Step<S, C>>, echo: u32, n: nat) -> Option<S>
    decreases n,
{
    if n == 0 {
        None
    } else if ring[n - 1].seq == echo {
        Some(ring[n - 1].state)
    } else {
        predicted_at(ring, echo, (n - 1) as nat)
    }
}

/// The state before entry `i` of a replay from `start`.
pub open spec fn state_before<S, C>(start: S, ring: Seq<Step<S, C>>, i: int) -> S {
    if i <= 0 {
        start
    } else {
        ring[i - 1].state
    }
}

/// `after` replays `before`'s commands from `start`: same sequences, same
/// commands, each state a step on from the one before.
pub open spec fn replays<S, C, F: Fn(S, C) -> S>(
    step: F,
    start: S,
    before: Seq<Step<S, C>>,
    after: Seq<Step<S, C>>,
) -> bool {
    &&& after.len() == before.len()
    &&& forall|i: int|
        0 <= i < after.len() ==> {
            &&& (#[trigger] after[i]).seq == before[i].seq
            &&& after[i].cmd == before[i].cmd
            &&& step.ensures((state_before(start, after, i), after[i].cmd), after[i].state)
        }
}

/// A predictor as contracts see it.
#[verifier::ext_equal]
pub struct PredView<S, C> {
    /// The predicted state.
    pub current: Option<S>,
    /// The unconfirmed inputs, oldest first.
    pub unacked: Seq<Step<S, C>>,
    /// How many of them are kept.
    pub limit: nat,
    /// Reconciliations that found divergence.
    pub misses: u32,
}

/// A predictor that waits for authority.
pub open spec fn waiting<S, C>(limit: nat) -> PredView<S, C> {
    PredView { current: None, unacked: Seq::empty(), limit, misses: 0 }
}

/// Whether reconciling has a prediction to hold against authority: only then
/// can it find one off.
pub open spec fn compares<S, C>(p: PredView<S, C>, echo: u32) -> bool {
    p.current is Some && predicted_at(p.unacked, echo, consumed(p.unacked, echo)) is Some
}

/// What reconciling with authority may lead to; `corrected` says whether the
/// prediction was found off.
pub open spec fn reconciled<S, C, F: Fn(S, C) -> S, G: Fn(&S, &S) -> bool>(
    p: PredView<S, C>,
    auth: S,
    echo: u32,
    step: F,
    close: G,
    q: PredView<S, C>,
    corrected: bool,
) -> bool {
    let n = consumed(p.unacked, echo);
    let rest = p.unacked.skip(n as int);
    let was = predicted_at(p.unacked, echo, n);
    if p.current is None {
        // The first snapshot seeds the prediction.
        &&& !corrected
        &&& q == PredView { current: Some(auth), unacked: Seq::empty(), ..p }
    } else if was is None {
        // Nothing predicted at the echo; a long stall adopts authority.
        &&& !corrected
        &&& q == PredView {
            current: if rest.len() == 0 && echo > 0 {
                Some(auth)
            } else {
                p.current
            },
            unacked: rest,
            ..p
        }
    } else {
        &&& close.ensures((&was->0, &auth), !corrected)
        &&& !corrected ==> q == PredView { unacked: rest, ..p }
        &&& corrected ==> {
            &&& replays(step, auth, rest, q.unacked)
            &&& q == PredView {
                current: Some(state_before(auth, q.unacked, rest.len() as int)),
                unacked: q.unacked,
                misses: (p.misses + 1) as u32,
                ..p
            }
        }
    }
}

/// What predicting an input may lead to.
pub open spec fn predicted<S, C, F: Fn(S, C) -> S>(
    p: PredView<S, C>,
    seq: u32,
    cmd: C,
    step: F,
    q: PredView<S, C>,
) -> bool {
    match p.current {
        None => q == p,
        Some(s) => {
            &&& q.current is Some
            &&& step.ensures((s, cmd), q.current->0)
            &&& ({
                let all = p.unacked.push(Step { seq, cmd, state: q.current->0 });
                q == PredView {
                    current: q.current,
                    unacked: if all.len() > p.limit {
                        all.drop_first()
                    } else {
                        all
                    },
                    ..p
                }
            })
        },
    }
}

/// Prediction ring for one locally controlled entity.
pub struct Predictor<S, C> {
    state: Option<S>,
    ring: VecDeque<Step<S, C>>,
    cap: usize,
    corrections: u32,
}

impl<S, C> View for Predictor<S, C> {
    type V = PredView<S, C>;

    closed spec fn view(&self) -> PredView<S, C> {
        PredView {
            current: self.state,
            unacked: self.ring@,
            limit: self.cap as nat,
            misses: self.corrections,
        }
    }
}

impl<S: Copy, C: Copy> Predictor<S, C> {
    /// A predictor that waits for authority.
    pub fn new() -> (r: Self)
        ensures
            r@ == waiting::<S, C>(PREDICT_CAP as nat),
    {
        Predictor::with_cap(PREDICT_CAP)
    }

    /// A predictor keeping at most `cap` unconfirmed inputs.
    pub fn with_cap(cap: usize) -> (r: Self)
        ensures
            r@ == waiting::<S, C>(cap as nat),
    {
        Predictor { state: None, ring: VecDeque::new(), cap, corrections: 0 }
    }

    /// Current predicted state — what rendering should show for the local
    /// avatar. Nothing until the first snapshot seeds it.
    pub fn state(&self) -> (r: Option<S>)
        ensures
            r == self@.current,
    {
        self.state
    }

    /// Reconciliations that found divergence and replayed. A steadily
    /// climbing count means the client step doesn't match the server's.
    pub fn corrections(&self) -> (r: u32)
        ensures
            r == self@.misses,
    {
        self.corrections
    }

    /// Drop everything and reseed from authority.
    pub fn reset(&mut self, auth: S)
        ensures
            final(self)@ == (PredView {
                current: Some(auth),
                unacked: Seq::empty(),
                ..old(self)@
            }),
    {
        self.state = Some(auth);
        self.ring = VecDeque::new();
    }

    /// A snapshot carrying `auth` arrived with the server's echo of the last
    /// input it applied. Compares what was predicted at that input against
    /// authority; unless `close` finds them close enough, rewinds to
    /// authority and replays the unconfirmed commands through `step`.
    /// Returns whether a correction happened.
    pub fn reconcile<F: Fn(S, C) -> S, G: Fn(&S, &S) -> bool>(
        &mut self,
        auth: S,
        echo_seq: u32,
        step: &F,
        close: &G,
    ) -> (r: bool)
        requires
            forall|s: S, c: C| #[trigger] step.requires((s, c)),
            forall|a: &S, b: &S| #[trigger] close.requires((a, b)),
            compares(old(self)@, echo_seq) ==> old(self)@.misses < u32::MAX,
        ensures
            reconciled(old(self)@, auth, echo_seq, *step, *close, final(self)@, r),
            final(self)@.misses <= old(self)@.misses + 1,
    {
        if self.state.is_none() {
            self.reset(auth);
            return false;
        }
        let ghost p0 = self@;
        let ghost ring = self.ring@;
        let ghost n = consumed(ring, echo_seq);
        let mut was: Option<S> = None;
        let ghost mut k: nat = 0;
        proof {
            assert(ring.skip(0) =~= ring);
        }
        while self.ring.len() > 0 && self.ring[0].seq <= echo_seq
            invariant
                self.state == old(self).state,
                self.cap == old(self).cap,
                self.corrections == old(self).corrections,
                k <= ring.len(),
                self.ring@ == ring.skip(k as int),
                n == k + consumed(ring.skip(k as int), echo_seq),
                was == predicted_at(ring, echo_seq, k),
            decreases self.ring@.len(),
        {
            proof {
                assert(ring.skip(k as int).drop_first() =~= ring.skip(k as int + 1));
                assert(self.ring@[0] == ring[k as int]);
            }
            if self.ring[0].seq == echo_seq {
                was = Some(self.ring[0].state);
            }
            let _ = self.ring.pop_front();
            proof {
                assert(self.ring@ =~= ring.skip(k as int + 1));
                k = k + 1;
            }
        }
        assert(k == n);
        match was {
            Some(then) => {
                if close(&then, &auth) {
                    return false;
                }
                self.replay(auth, step);
                self.corrections = self.corrections + 1;
                true
            },
            None => {
                if self.ring.len() == 0 && echo_seq > 0 {
                    // Long stall: adopt authority.
                    self.state = Some(auth);
                }
                false
            },
        }
    }

    /// Rewind to authority and replay the unconfirmed inputs.
    fn replay<F: Fn(S, C) -> S>(&mut self, auth: S, step: &F)
        requires
            forall|s: S, c: C| #[trigger] step.requires((s, c)),
        ensures
            final(self).cap == old(self).cap,
            final(self).corrections == old(self).corrections,
            replays(*step, auth, old(self).ring@, final(self).ring@),
            final(self).state == Some(
                state_before(auth, final(self).ring@, old(self).ring@.len() as int),
            ),
    {
        let ghost before = self.ring@;
        let mut left: VecDeque<Step<S, C>> = VecDeque::new();
        std::mem::swap(&mut left, &mut self.ring);
        let mut state: S = auth;
        let ghost mut k: int = 0;
        assert(before.skip(0) =~= before);
        while left.len() > 0
            invariant
                forall|s: S, c: C| #[trigger] step.requires((s, c)),
                self.cap == old(self).cap,
                self.corrections == old(self).corrections,
                0 <= k <= before.len(),
                left@ == before.skip(k),
                self.ring@.len() == k,
                replays(*step, auth, before.take(k), self.ring@),
                state == state_before(auth, self.ring@, k),
            decreases left@.len(),
        {
            let e: Step<S, C> = left.pop_front().unwrap();
            let ghost was = self.ring@;
            let ghost prior = state;
            state = step(state, e.cmd);
            self.ring.push_back(Step { seq: e.seq, cmd: e.cmd, state });
            proof {
                assert(e == before[k]);
                assert(left@ =~= before.skip(k + 1));
                let now = self.ring@;
                assert forall|i: int| 0 <= i < now.len() implies {
                    &&& (#[trigger] now[i]).seq == before.take(k + 1)[i].seq
                    &&& now[i].cmd == before.take(k + 1)[i].cmd
                    &&& step.ensures((state_before(auth, now, i), now[i].cmd), now[i].state)
                } by {
                    if i < k {
                        assert(now[i] == was[i]);
                        assert(was[i].seq == before.take(k)[i].seq);
                        assert(state_before(auth, now, i) == state_before(auth, was, i));
                    } else {
                        assert(state_before(auth, now, i) == prior);
                    }
                }
                k = k + 1;
            }
        }
        assert(before.take(k) =~= before);
        self.state = Some(state);
    }

    /// Input `cmd` was just sent as `seq`: predict its result instantly and
    /// record it for future replay.
    pub fn predict<F: Fn(S, C) -> S>(&mut self, seq: u32, cmd: C, step: &F)
        requires
            forall|s: S, c: C| #[trigger] step.requires((s, c)),
        ensures
            predicted(old(self)@, seq, cmd, *step, final(self)@),
            final(self)@.misses == old(self)@.misses,
    {
        match self.state {
            Some(s) => {
                let state: S = step(s, cmd);
                self.state = Some(state);
                self.ring.push_back(Step { seq, cmd, state });
                if self.ring.len() > self.cap {
                    let ghost all = self.ring@;
                    let _ = self.ring.pop_front();
                    assert(self.ring@ =~= all.drop_first());
                }
            },
            None => {},
        }
    }
}

impl<S: Copy, C: Copy> Default for Predictor<S, C> {
    fn default() -> (r: Self)
        ensures
            r@ == waiting::<S, C>(PREDICT_CAP as nat),
    {
        Predictor::new()
    }
}

/// Authority that agrees with the prediction corrects nothing: the state
/// stays, and only confirmed inputs leave the ring.
pub proof fn clean_echo_changes_no_state<S, C, F: Fn(S, C) -> S, G: Fn(&S, &S) -> bool>(
    p: PredView<S, C>,
    auth: S,
    echo: u32,
    step: F,
    close: G,
    q: PredView<S, C>,
    corrected: bool,
)
    requires
        reconciled(p, auth, echo, step, close, q, corrected),
        p.current is Some,
        predicted_at(p.unacked, echo, consumed(p.unacked, echo)) is Some,
        forall|verdict: bool|
            close.ensures(
                (&predicted_at(p.unacked, echo, consumed(p.unacked, echo))->0, &auth),
                verdict,
            ) ==> verdict,
    ensures
        !corrected,
        q.current == p.current,
        q.misses == p.misses,
{
}

/// After a correction the prediction is authority plus the unconfirmed
/// inputs: each recorded state follows from the one before through `step`.
pub proof fn correction_replays_from_authority<S, C, F: Fn(S, C) -> S, G: Fn(&S, &S) -> bool>(
    p: PredView<S, C>,
    auth: S,
    echo: u32,
    step: F,
    close: G,
    q: PredView<S, C>,
)
    requires
        reconciled(p, auth, echo, step, close, q, true),
    ensures
        replays(step, auth, p.unacked.skip(consumed(p.unacked, echo) as int), q.unacked),
        q.current == Some(state_before(auth, q.unacked, q.unacked.len() as int)),
{
}

/// A reset forgets every input: whatever was recorded and counted, the next
/// reconciliation, whatever its echo, has nothing to compare, corrects
/// nothing and counts nothing; the state is the reset's, or that
/// reconciliation's authority where the server already applied an input.
pub proof fn a_reset_forgets_every_input<S, C, F: Fn(S, C) -> S, G: Fn(&S, &S) -> bool>(
    p: PredView<S, C>,
    auth: S,
    next: S,
    echo: u32,
    step: F,
    close: G,
    q: PredView<S, C>,
    corrected: bool,
)
    requires
        reconciled(
            PredView { current: Some(auth), unacked: Seq::empty(), ..p },
            next,
            echo,
            step,
            close,
            q,
            corrected,
        ),
    ensures
        !compares(PredView { current: Some(auth), unacked: Seq::empty(), ..p }, echo),
        !corrected,
        q == (PredView {
            current: Some(
                if echo > 0 {
                    next
                } else {
                    auth
                },
            ),
            unacked: Seq::empty(),
            ..p
        }),
{
    assert(Seq::<Step<S, C>>::empty().skip(0) =~= Seq::<Step<S, C>>::empty());
}

/// Recorded inputs rise in sequence.
pub open spec fn rising<S, C>(ring: Seq<Step<S, C>>) -> bool {
    forall|i: int, j: int| 0 <= i < j < ring.len() ==> (#[trigger] ring[i]).seq < (
    #[trigger] ring[j]).seq
}

/// The consumed entries are the leading ones at or below the echo.
proof fn consumed_splits<S, C>(ring: Seq<Step<S, C>>, echo: u32)
    requires
        rising(ring),
    ensures
        consumed(ring, echo) <= ring.len(),
        forall|i: int|
            0 <= i < ring.len() ==> ((#[trigger] ring[i]).seq <= echo <==> i < consumed(
                ring,
                echo,
            )),
    decreases ring.len(),
{
    if ring.len() > 0 {
        let tail = ring.drop_first();
        if ring[0].seq <= echo {
            assert forall|i: int, j: int| 0 <= i < j < tail.len() implies (#[trigger] tail[i]).seq
                < (#[trigger] tail[j]).seq by {
                assert(tail[i] == ring[i + 1] && tail[j] == ring[j + 1]);
            }
            consumed_splits(tail, echo);
            assert forall|i: int| 0 <= i < ring.len() implies ((#[trigger] ring[i]).seq <= echo
                <==> i < consumed(ring, echo)) by {
                if i > 0 {
                    assert(tail[i - 1] == ring[i]);
                }
            }
        } else {
            assert forall|i: int| 0 <= i < ring.len() implies (#[trigger] ring[i]).seq > echo by {
                assert(i == 0 || ring[0].seq < ring[i].seq);
            }
        }
    }
}

/// The prediction at a sequence is the recorded one.
proof fn predicted_at_finds<S, C>(ring: Seq<Step<S, C>>, echo: u32, n: nat)
    requires
        rising(ring),
        n <= ring.len(),
    ensures
        forall|i: int|
            0 <= i < n && (#[trigger] ring[i]).seq == echo ==> predicted_at(ring, echo, n) == Some(
                ring[i].state,
            ),
        predicted_at(ring, echo, n) is Some ==> exists|i: int|
            0 <= i < n && (#[trigger] ring[i]).seq == echo,
    decreases n,
{
    if n > 0 {
        predicted_at_finds(ring, echo, (n - 1) as nat);
        assert forall|i: int| 0 <= i < n && (#[trigger] ring[i]).seq == echo implies predicted_at(
            ring,
            echo,
            n,
        ) == Some(ring[i].state) by {
            if i < n - 1 {
                assert(ring[i].seq < ring[n - 1].seq);
            }
        }
        if ring[n - 1].seq == echo {
            assert(ring[n - 1].seq == echo);
        }
    }
}

/// An input leaves the record only by being echoed: after reconciling a
/// seeded predictor, agreeing or not, the sequences and commands still
/// recorded are exactly those past the echo, in order; where nothing was
/// corrected, their states too.
pub proof fn only_echoed_inputs_leave_the_record<
    S,
    C,
    F: Fn(S, C) -> S,
    G: Fn(&S, &S) -> bool,
>(
    p: PredView<S, C>,
    auth: S,
    echo: u32,
    step: F,
    close: G,
    q: PredView<S, C>,
    corrected: bool,
)
    requires
        reconciled(p, auth, echo, step, close, q, corrected),
        p.current is Some,
        rising(p.unacked),
    ensures
        ({
            let gone = p.unacked.len() - q.unacked.len();
            &&& 0 <= gone
            &&& forall|i: int|
                0 <= i < p.unacked.len() ==> ((#[trigger] p.unacked[i]).seq <= echo <==> i < gone)
            &&& forall|k: int|
                0 <= k < q.unacked.len() ==> (#[trigger] q.unacked[k]).seq == p.unacked[gone
                    + k].seq && q.unacked[k].cmd == p.unacked[gone + k].cmd && (!corrected
                    ==> q.unacked[k].state == p.unacked[gone + k].state)
            &&& rising(q.unacked)
            &&& q.limit == p.limit
        }),
{
    consumed_splits(p.unacked, echo);
    let n = consumed(p.unacked, echo) as int;
    let rest = p.unacked.skip(n);
    assert forall|k: int| 0 <= k < q.unacked.len() implies (#[trigger] q.unacked[k]).seq
        == p.unacked[n + k].seq && q.unacked[k].cmd == p.unacked[n + k].cmd by {
        assert(rest[k] == p.unacked[n + k]);
    }
    assert forall|i: int, j: int| 0 <= i < j < q.unacked.len() implies (#[trigger] q.unacked[i]).seq
        < (#[trigger] q.unacked[j]).seq by {
        assert(p.unacked[n + i].seq < p.unacked[n + j].seq);
    }
}

/// The verdict is on the prediction made at the echo and on no other: with
/// one recorded there, a correction comes exactly when it is found off; with
/// none, none comes.
pub proof fn the_echoed_prediction_is_judged<S, C, F: Fn(S, C) -> S, G: Fn(&S, &S) -> bool>(
    p: PredView<S, C>,
    auth: S,
    echo: u32,
    step: F,
    close: G,
    q: PredView<S, C>,
    corrected: bool,
)
    requires
        reconciled(p, auth, echo, step, close, q, corrected),
        p.current is Some,
        rising(p.unacked),
    ensures
        forall|i: int|
            0 <= i < p.unacked.len() && (#[trigger] p.unacked[i]).seq == echo ==> close.ensures(
                (&p.unacked[i].state, &auth),
                !corrected,
            ),
        corrected ==> exists|i: int|
            0 <= i < p.unacked.len() && (#[trigger] p.unacked[i]).seq == echo,
        compares(p, echo) <==> exists|i: int|
            0 <= i < p.unacked.len() && (#[trigger] p.unacked[i]).seq == echo,
{
    consumed_splits(p.unacked, echo);
    let n = consumed(p.unacked, echo);
    predicted_at_finds(p.unacked, echo, n);
    assert forall|i: int| 0 <= i < p.unacked.len() && (#[trigger] p.unacked[i]).seq == echo implies
        close.ensures((&p.unacked[i].state, &auth), !corrected) by {
        assert(i < n);
    }
}

/// What a reconciliation leaves as the state: the first snapshot's authority;
/// the prediction itself while it holds; after a correction, authority with
/// every input past the echo stepped through again, in order, and one more
/// correction counted; authority where every recorded input was echoed and
/// none at the echo itself.
pub proof fn a_reconciliation_settles_the_state<
    S,
    C,
    F: Fn(S, C) -> S,
    G: Fn(&S, &S) -> bool,
>(
    p: PredView<S, C>,
    auth: S,
    echo: u32,
    step: F,
    close: G,
    q: PredView<S, C>,
    corrected: bool,
)
    requires
        reconciled(p, auth, echo, step, close, q, corrected),
        rising(p.unacked),
    ensures
        p.current is None ==> !corrected && q.current == Some(auth) && q.unacked.len() == 0,
        !corrected ==> q.misses == p.misses,
        corrected && p.misses < u32::MAX ==> q.misses == p.misses + 1,
        p.current is Some && !corrected ==> q.current == if echo > 0 && forall|i: int|
            0 <= i < p.unacked.len() ==> (#[trigger] p.unacked[i]).seq < echo {
            Some(auth)
        } else {
            p.current
        },
        corrected ==> {
            &&& q.current == Some(
                if q.unacked.len() == 0 {
                    auth
                } else {
                    q.unacked.last().state
                },
            )
            &&& q.unacked.len() > 0 ==> step.ensures(
                (auth, q.unacked[0].cmd),
                q.unacked[0].state,
            )
            &&& forall|k: int|
                0 < k < q.unacked.len() ==> step.ensures(
                    (q.unacked[k - 1].state, (#[trigger] q.unacked[k]).cmd),
                    q.unacked[k].state,
                )
        },
{
    if p.current is Some {
        consumed_splits(p.unacked, echo);
        let n = consumed(p.unacked, echo);
        predicted_at_finds(p.unacked, echo, n);
        let rest = p.unacked.skip(n as int);
        if !corrected {
            if forall|i: int| 0 <= i < p.unacked.len() ==> (#[trigger] p.unacked[i]).seq < echo {
                assert(rest.len() == 0) by {
                    if n < p.unacked.len() {
                        assert(p.unacked[n as int].seq < echo);
                    }
                }
            } else {
                let i = choose|i: int|
                    0 <= i < p.unacked.len() && (#[trigger] p.unacked[i]).seq >= echo;
                if p.unacked[i].seq > echo {
                    assert(i >= n);
                } else {
                    assert(predicted_at(p.unacked, echo, n) is Some);
                }
            }
        } else {
            assert forall|k: int| 0 < k < q.unacked.len() implies step.ensures(
                (q.unacked[k - 1].state, (#[trigger] q.unacked[k]).cmd),
                q.unacked[k].state,
            ) by {
                assert(state_before(auth, q.unacked, k) == q.unacked[k - 1].state);
            }
            if q.unacked.len() > 0 {
                assert(state_before(auth, q.unacked, 0) == auth);
                assert(q.unacked[0].cmd == rest[0].cmd);
            }
        }
    }
}

/// A prediction steps the state by its command and is recorded last; an older
/// input makes room only when the record is full, the oldest first. Before
/// the first snapshot nothing happens.
pub proof fn a_prediction_is_recorded<S, C, F: Fn(S, C) -> S>(
    p: PredView<S, C>,
    seq: u32,
    cmd: C,
    step: F,
    q: PredView<S, C>,
)
    requires
        predicted(p, seq, cmd, step, q),
    ensures
        p.current is None ==> q == p,
        p.current is Some ==> {
            let dropped: int = if p.unacked.len() + 1 > p.limit {
                1
            } else {
                0
            };
            &&& q.current is Some
            &&& step.ensures((p.current->0, cmd), q.current->0)
            &&& q.unacked.len() == p.unacked.len() + 1 - dropped
            &&& forall|k: int|
                0 <= k < p.unacked.len() - dropped ==> #[trigger] q.unacked[k] == p.unacked[k
                    + dropped]
            &&& q.unacked.len() > 0 ==> q.unacked.last().seq == seq && q.unacked.last().cmd == cmd
                && q.unacked.last().state == q.current->0
            &&& q.misses == p.misses
            &&& q.limit == p.limit
        },
{
}

// --- one tick of prediction -------------------------------------------------

/// One input sent this tick.
#[derive(Clone, Copy)]
pub struct Sent<C> {
    pub seq: u32,
    pub cmd: C,
}

/// Whether one reconciliation leads from `p` to `q`, corrected or not.
pub open spec fn reconcile_step<S, C, F: Fn(S, C) -> S, G: Fn(&S, &S) -> bool>(
    p: PredView<S, C>,
    auth: S,
    echo: u32,
    step: F,
    close: G,
    q: PredView<S, C>,
) -> bool {
    exists|c: bool| #[trigger] reconciled(p, auth, echo, step, close, q, c)
}

/// A run of reconciliations with one authority, an echo each.
pub open spec fn reconcile_run<S, C, F: Fn(S, C) -> S, G: Fn(&S, &S) -> bool>(
    run: Seq<PredView<S, C>>,
    auth: S,
    echoes: Seq<u32>,
    step: F,
    close: G,
) -> bool {
    &&& run.len() == echoes.len() + 1
    &&& forall|i: int|
        0 <= i < echoes.len() ==> reconcile_step(
            run[i],
            auth,
            #[trigger] echoes[i],
            step,
            close,
            run[i + 1],
        )
}

/// A run of predictions, one per input sent.
pub open spec fn predict_run<S, C, F: Fn(S, C) -> S>(
    run: Seq<PredView<S, C>>,
    sent: Seq<Sent<C>>,
    step: F,
) -> bool {
    &&& run.len() == sent.len() + 1
    &&& forall|i: int|
        0 <= i < sent.len() ==> predicted(
            run[i],
            (#[trigger] sent[i]).seq,
            sent[i].cmd,
            step,
            run[i + 1],
        )
}

/// One tick of prediction for the avatar's row in this pool: reconcile with
/// every snapshot applied, then predict every input sent.
pub open spec fn ticked<S, C, F: Fn(S, C) -> S, G: Fn(&S, &S) -> bool>(
    p: PredView<S, C>,
    auth: S,
    echoes: Seq<u32>,
    sent: Seq<Sent<C>>,
    step: F,
    close: G,
    q: PredView<S, C>,
) -> bool {
    exists|a: Seq<PredView<S, C>>, b: Seq<PredView<S, C>>|
        {
            &&& #[trigger] reconcile_run(a, auth, echoes, step, close)
            &&& #[trigger] predict_run(b, sent, step)
            &&& a[0] == p
            &&& b[0] == a.last()
            &&& q == b.last()
        }
}

/// Whether one of these echoes is at or past a sequence.
pub open spec fn echoed_by(echoes: Seq<u32>, seq: u32) -> bool {
    exists|k: int| 0 <= k < echoes.len() && seq <= #[trigger] echoes[k]
}

/// Reconciling with a run of echoes leaves exactly the inputs past all of
/// them.
proof fn a_run_keeps_what_no_echo_named<S, C, F: Fn(S, C) -> S, G: Fn(&S, &S) -> bool>(
    run: Seq<PredView<S, C>>,
    auth: S,
    echoes: Seq<u32>,
    step: F,
    close: G,
)
    requires
        reconcile_run(run, auth, echoes, step, close),
        run[0].current is Some,
        rising(run[0].unacked),
    ensures
        ({
            let p = run[0];
            let q = run.last();
            let gone = p.unacked.len() - q.unacked.len();
            &&& q.current is Some
            &&& 0 <= gone
            &&& rising(q.unacked)
            &&& q.limit == p.limit
            &&& forall|i: int|
                0 <= i < p.unacked.len() ==> (i < gone <==> echoed_by(
                    echoes,
                    (#[trigger] p.unacked[i]).seq,
                ))
            &&& forall|k: int|
                0 <= k < q.unacked.len() ==> (#[trigger] q.unacked[k]).seq == p.unacked[gone
                    + k].seq && q.unacked[k].cmd == p.unacked[gone + k].cmd
        }),
    decreases echoes.len(),
{
    let p = run[0];
    let q = run.last();
    if echoes.len() > 0 {
        let init = echoes.drop_last();
        let early = run.drop_last();
        let n = init.len() as int;
        assert forall|i: int| 0 <= i < init.len() implies reconcile_step(
            early[i],
            auth,
            #[trigger] init[i],
            step,
            close,
            early[i + 1],
        ) by {
            assert(init[i] == echoes[i]);
            assert(early[i] == run[i] && early[i + 1] == run[i + 1]);
        }
        assert(early[0] == run[0]);
        a_run_keeps_what_no_echo_named(early, auth, init, step, close);
        let mid = early.last();
        let echo = echoes[n];
        assert(reconcile_step(run[n], auth, echoes[n], step, close, run[n + 1]));
        assert(mid == run[n] && q == run[n + 1]);
        let c = choose|c: bool| #[trigger] reconciled(mid, auth, echo, step, close, q, c);
        only_echoed_inputs_leave_the_record(mid, auth, echo, step, close, q, c);
        let g0 = p.unacked.len() - mid.unacked.len();
        let gone = p.unacked.len() - q.unacked.len();
        let g1 = mid.unacked.len() - q.unacked.len();
        assert forall|i: int| 0 <= i < p.unacked.len() implies (i < gone <==> echoed_by(
            echoes,
            (#[trigger] p.unacked[i]).seq,
        )) by {
            if i < g0 {
                let k = choose|k: int|
                    0 <= k < init.len() && p.unacked[i].seq <= #[trigger] init[k];
                assert(p.unacked[i].seq <= echoes[k]);
            } else {
                assert(mid.unacked[i - g0].seq == p.unacked[i].seq);
                assert(mid.unacked[i - g0].seq <= echo <==> i - g0 < g1);
                if p.unacked[i].seq <= echo {
                    assert(p.unacked[i].seq <= echoes[n]);
                }
                if echoed_by(echoes, p.unacked[i].seq) {
                    let k = choose|k: int|
                        0 <= k < echoes.len() && p.unacked[i].seq <= #[trigger] echoes[k];
                    if k < n {
                        assert(p.unacked[i].seq <= init[k]);
                    }
                }
            }
        }
        assert forall|k: int| 0 <= k < q.unacked.len() implies (#[trigger] q.unacked[k]).seq
            == p.unacked[gone + k].seq && q.unacked[k].cmd == p.unacked[gone + k].cmd by {
            assert(mid.unacked[g1 + k].seq == p.unacked[g0 + g1 + k].seq);
        }
    }
}

/// Predicting a run of inputs records each behind the ones before, while the
/// record has room.
proof fn a_run_records_every_input<S, C, F: Fn(S, C) -> S>(
    run: Seq<PredView<S, C>>,
    sent: Seq<Sent<C>>,
    step: F,
)
    requires
        predict_run(run, sent, step),
        run[0].current is Some,
        run[0].unacked.len() + sent.len() <= run[0].limit,
    ensures
        ({
            let p = run[0];
            let q = run.last();
            &&& q.current is Some
            &&& q.limit == p.limit
            &&& q.misses == p.misses
            &&& q.unacked.len() == p.unacked.len() + sent.len()
            &&& forall|k: int|
                0 <= k < p.unacked.len() ==> #[trigger] q.unacked[k] == p.unacked[k]
            &&& forall|k: int|
                0 <= k < sent.len() ==> q.unacked[p.unacked.len() + k].seq == (
                #[trigger] sent[k]).seq && q.unacked[p.unacked.len() + k].cmd == sent[k].cmd
            &&& sent.len() > 0 ==> q.current == Some(q.unacked.last().state)
            &&& sent.len() == 0 ==> q.current == p.current
        }),
    decreases sent.len(),
{
    let p = run[0];
    let q = run.last();
    if sent.len() > 0 {
        let init = sent.drop_last();
        let early = run.drop_last();
        let n = init.len() as int;
        assert forall|i: int| 0 <= i < init.len() implies predicted(
            early[i],
            (#[trigger] init[i]).seq,
            init[i].cmd,
            step,
            early[i + 1],
        ) by {
            assert(init[i] == sent[i]);
            assert(early[i] == run[i] && early[i + 1] == run[i + 1]);
        }
        assert(early[0] == run[0]);
        a_run_records_every_input(early, init, step);
        let mid = early.last();
        assert(predicted(run[n], sent[n].seq, sent[n].cmd, step, run[n + 1]));
        assert(mid == run[n] && q == run[n + 1]);
        a_prediction_is_recorded(mid, sent[n].seq, sent[n].cmd, step, q);
        assert forall|k: int| 0 <= k < p.unacked.len() implies #[trigger] q.unacked[k]
            == p.unacked[k] by {
            assert(q.unacked[k] == mid.unacked[k]);
        }
        assert forall|k: int| 0 <= k < sent.len() implies q.unacked[p.unacked.len() + k].seq == (
        #[trigger] sent[k]).seq && q.unacked[p.unacked.len() + k].cmd == sent[k].cmd by {
            if k < n {
                assert(init[k] == sent[k]);
                assert(q.unacked[p.unacked.len() + k] == mid.unacked[p.unacked.len() + k]);
            }
        }
    }
}

/// A whole tick of a seeded predictor with room in its record: exactly the
/// inputs no echo of the tick named stay recorded, the tick's sends follow
/// them in order, and the state is the last recorded one.
pub proof fn a_tick_keeps_the_unechoed_and_adds_the_sent<
    S,
    C,
    F: Fn(S, C) -> S,
    G: Fn(&S, &S) -> bool,
>(
    p: PredView<S, C>,
    auth: S,
    echoes: Seq<u32>,
    sent: Seq<Sent<C>>,
    step: F,
    close: G,
    q: PredView<S, C>,
)
    requires
        ticked(p, auth, echoes, sent, step, close, q),
        p.current is Some,
        rising(p.unacked),
        p.unacked.len() + sent.len() <= p.limit,
    ensures
        ({
            let left = q.unacked.len() - sent.len();
            let gone = p.unacked.len() - left;
            &&& q.current is Some
            &&& 0 <= left
            &&& 0 <= gone
            &&& forall|i: int|
                0 <= i < p.unacked.len() ==> (i < gone <==> echoed_by(
                    echoes,
                    (#[trigger] p.unacked[i]).seq,
                ))
            &&& forall|k: int|
                0 <= k < left ==> (#[trigger] q.unacked[k]).seq == p.unacked[gone + k].seq
                    && q.unacked[k].cmd == p.unacked[gone + k].cmd
            &&& forall|k: int|
                0 <= k < sent.len() ==> q.unacked[left + k].seq == (#[trigger] sent[k]).seq
                    && q.unacked[left + k].cmd == sent[k].cmd
            &&& sent.len() > 0 ==> q.current == Some(q.unacked.last().state)
        }),
{
    let (a, b) = choose|a: Seq<PredView<S, C>>, b: Seq<PredView<S, C>>|
        {
            &&& #[trigger] reconcile_run(a, auth, echoes, step, close)
            &&& #[trigger] predict_run(b, sent, step)
            &&& a[0] == p
            &&& b[0] == a.last()
            &&& q == b.last()
        };
    a_run_keeps_what_no_echo_named(a, auth, echoes, step, close);
    a_run_records_every_input(b, sent, step);
    let mid = a.last();
    let left = mid.unacked.len();
    assert forall|k: int| 0 <= k < left implies (#[trigger] q.unacked[k]).seq
        == p.unacked[p.unacked.len() - left + k].seq && q.unacked[k].cmd == p.unacked[p.unacked.len()
        - left + k].cmd by {
        assert(q.unacked[k] == mid.unacked[k]);
    }
}

/// One tick of client-side prediction for the local avatar `mine`. Without
/// an avatar nothing happens. While the avatar has no row in `auth` the
/// predictor idles — emptied, so it reseeds from authority the moment the
/// avatar is back. Otherwise it reconciles with every snapshot applied this
/// tick, predicts this tick's sends, and the predicted avatar — carried on
/// by `partial`, the in-flight fraction of the next step — goes into `draw`.
pub fn predict_tick<
    S: Copy,
    C: Copy,
    F: Fn(S, C) -> S,
    G: Fn(&S, &S) -> bool,
    H: Fn(S, C) -> S,
>(
    pred: &mut Predictor<S, C>,
    mine: Option<Id>,
    auth: &Pool<S>,
    draw: &mut Pool<S>,
    echoes: &Vec<u32>,
    sent: &Vec<Sent<C>>,
    current: C,
    step: &F,
    close: &G,
    partial: &H,
)
    requires
        auth.wf(),
        old(draw).wf(),
        old(pred)@.misses + echoes@.len() <= u32::MAX,
        forall|s: S, c: C| #[trigger] step.requires((s, c)),
        forall|s: S, c: C| #[trigger] partial.requires((s, c)),
        forall|a: &S, b: &S| #[trigger] close.requires((a, b)),
    ensures
        final(draw).wf(),
        final(draw).stamp() == old(draw).stamp(),
        match mine {
            None => final(pred)@ == old(pred)@ && final(draw)@ == old(draw)@,
            Some(id) => if !auth.has(id) {
                &&& final(pred)@ == if old(pred)@.current is Some {
                    waiting::<S, C>(PREDICT_CAP as nat)
                } else {
                    old(pred)@
                }
                &&& final(draw)@ == old(draw)@
            } else {
                &&& ticked(
                    old(pred)@,
                    auth@[id.slot_of()].value,
                    echoes@,
                    sent@,
                    *step,
                    *close,
                    final(pred)@,
                )
                &&& match final(pred)@.current {
                    None => final(draw)@ == old(draw)@,
                    Some(s) => exists|v: S| #[trigger]
                        partial.ensures((s, current), v) && final(draw)@ == old(draw)@.insert(
                            id.slot_of(),
                            Entry { id, value: v, tick: old(draw).stamp() },
                        ),
                }
            },
        },
{
    let id: Id = match mine {
        Some(id) => id,
        None => {
            return;
        },
    };
    let authority: S = match auth.get(id) {
        Some(v) => *v,
        None => {
            if pred.state().is_some() {
                *pred = Predictor::new();
            }
            return;
        },
    };
    let ghost mut a: Seq<PredView<S, C>> = seq![pred@];
    let mut i: usize = 0;
    while i < echoes.len()
        invariant
            forall|s: S, c: C| #[trigger] step.requires((s, c)),
            forall|x: &S, y: &S| #[trigger] close.requires((x, y)),
            i <= echoes@.len(),
            a.len() == i + 1,
            a[0] == old(pred)@,
            a.last() == pred@,
            pred@.misses <= old(pred)@.misses + i,
            old(pred)@.misses + echoes@.len() <= u32::MAX,
            reconcile_run(a, authority, echoes@.take(i as int), *step, *close),
        decreases echoes@.len() - i,
    {
        let ghost before = pred@;
        let ghost run = a;
        let corrected: bool = pred.reconcile(authority, echoes[i], step, close);
        proof {
            a = a.push(pred@);
            let seen = echoes@.take(i + 1);
            assert(reconciled(
                before,
                authority,
                echoes@[i as int],
                *step,
                *close,
                pred@,
                corrected,
            ));
            assert forall|k: int| 0 <= k < seen.len() implies reconcile_step(
                a[k],
                authority,
                #[trigger] seen[k],
                *step,
                *close,
                a[k + 1],
            ) by {
                if k < i {
                    assert(seen[k] == echoes@.take(i as int)[k]);
                    assert(a[k] == run[k] && a[k + 1] == run[k + 1]);
                }
            }
        }
        i += 1;
    }
    assert(echoes@.take(i as int) =~= echoes@);
    let ghost mut b: Seq<PredView<S, C>> = seq![pred@];
    let mut j: usize = 0;
    while j < sent.len()
        invariant
            forall|s: S, c: C| #[trigger] step.requires((s, c)),
            j <= sent@.len(),
            b.len() == j + 1,
            b[0] == a.last(),
            b.last() == pred@,
            predict_run(b, sent@.take(j as int), *step),
        decreases sent@.len() - j,
    {
        let ghost run = b;
        pred.predict(sent[j].seq, sent[j].cmd, step);
        proof {
            b = b.push(pred@);
            let seen = sent@.take(j + 1);
            assert forall|k: int| 0 <= k < seen.len() implies predicted(
                b[k],
                (#[trigger] seen[k]).seq,
                seen[k].cmd,
                *step,
                b[k + 1],
            ) by {
                if k < j {
                    assert(seen[k] == sent@.take(j as int)[k]);
                    assert(b[k] == run[k] && b[k + 1] == run[k + 1]);
                }
            }
        }
        j += 1;
    }
    assert(sent@.take(j as int) =~= sent@);
    proof {
        assert(reconcile_run(a, authority, echoes@, *step, *close));
        assert(predict_run(b, sent@, *step));
    }
    if let Some(s) = pred.state() {
        let v: S = partial(s, current);
        draw.add(id, v);
    }
}

/// Mirror `auth` into `draw`: new entities copy in, existing ones go through
/// `blend`, entities gone from `auth` drop out. The draw pool is what
/// rendering should read.
pub fn pool_mirror<T: Copy, F: Fn(Id, T, &T) -> T>(auth: &Pool<T>, draw: &mut Pool<T>, blend: F)
    requires
        auth.wf(),
        old(draw).wf(),
        forall|id: Id, d: T, a: &T| #[trigger] blend.requires((id, d, a)),
    ensures
        final(draw).wf(),
        final(draw).stamp() == old(draw).stamp(),
        final(draw).is_locked() == old(draw).is_locked(),
        forall|s: u32| #[trigger] final(draw)@.contains_key(s) <==> auth@.contains_key(s),
        forall|s: u32| #[trigger]
            final(draw)@.contains_key(s) ==> mirrored(
                blend,
                old(draw)@,
                auth@[s],
                final(draw)@[s],
                old(draw).stamp(),
            ),
{
    proof {
        auth.wf_columns_agree();
    }
    let ids: &[Id] = auth.ids();
    let values: &[T] = auth.values();
    let ghost before = draw@;
    let mut i: usize = 0;
    while i < ids.len()
        invariant
            auth.wf(),
            auth.columns_agree(),
            draw.wf(),
            before == old(draw)@,
            draw.stamp() == old(draw).stamp(),
            draw.is_locked() == old(draw).is_locked(),
            forall|id: Id, d: T, a: &T| #[trigger] blend.requires((id, d, a)),
            ids@ == auth.dense_ids(),
            values@ == auth.dense_values(),
            ids@.len() == values@.len(),
            i <= ids@.len(),
            forall|k: int|
                0 <= k < i ==> draw@.contains_key((#[trigger] ids@[k]).slot_of()) && mirrored(
                    blend,
                    before,
                    auth@[ids@[k].slot_of()],
                    draw@[ids@[k].slot_of()],
                    old(draw).stamp(),
                ),
            forall|s: u32|
                !slot_among(ids@, i as int, s) ==> (#[trigger] draw@.contains_key(s))
                    == before.contains_key(s) && draw@[s] == before[s],
        decreases ids@.len() - i,
    {
        let id: Id = ids[i];
        let a: T = values[i];
        let ghost mid = draw@;
        assert(forall|s: u32|
            !slot_among(ids@, i as int, s) ==> (#[trigger] mid.contains_key(s))
                == before.contains_key(s) && mid[s] == before[s]);
        proof {
            assert(auth@[id.slot_of()].id == id && auth@[id.slot_of()].value == a);
            assert forall|k: int| 0 <= k < i implies (#[trigger] ids@[k]).slot_of()
                != id.slot_of() by {
            }
            assert(!slot_among(ids@, i as int, id.slot_of()));
            let at = id.slot_of();
            assert(mid.contains_key(at) == before.contains_key(at));
            assert(mid[at] == before[at]);
        }
        let prior: Option<T> = match draw.get(id) {
            Some(d) => Some(*d),
            None => None,
        };
        let next: T = match prior {
            Some(d) => blend(id, d, &a),
            None => a,
        };
        draw.add(id, next);
        proof {
            assert forall|k: int| 0 <= k < i + 1 implies draw@.contains_key(
                (#[trigger] ids@[k]).slot_of(),
            ) && mirrored(
                blend,
                before,
                auth@[ids@[k].slot_of()],
                draw@[ids@[k].slot_of()],
                old(draw).stamp(),
            ) by {
                if k < i {
                    assert(ids@[k].slot_of() != id.slot_of());
                    assert(draw@[ids@[k].slot_of()] == mid[ids@[k].slot_of()]);
                }
            }
            assert forall|s: u32| !slot_among(ids@, i + 1, s) implies (
            #[trigger] draw@.contains_key(s)) == before.contains_key(s) && draw@[s]
                == before[s] by {
                assert(ids@[i as int].slot_of() != s);
                assert(!slot_among(ids@, i as int, s));
                assert(mid.contains_key(s) == before.contains_key(s));
            }
        }
        i += 1;
    }
    let ghost filled = draw@;
    proof {
        draw.wf_columns_agree();
    }
    let keep = |id: Id, v: &T| -> (r: bool)
        ensures
            r == auth.has(id),
        { auth.contains(id) };
    draw.retain(keep);
    proof {
        assert forall|s: u32| #[trigger] draw@.contains_key(s) <==> auth@.contains_key(s) by {
            if auth@.contains_key(s) {
                let id = auth@[s].id;
                let k = choose|k: int| 0 <= k < ids@.len() && ids@[k] == id;
                assert(auth.dense_ids().contains(id));
                assert(ids@[k].slot_of() == s);
                assert(filled.contains_key(s));
                assert(filled[s].id == id);
                assert(auth.has(filled[s].id));
            }
            if draw@.contains_key(s) {
                assert(filled.contains_key(s));
                assert(auth.has(filled[s].id));
            }
        }
        assert forall|s: u32| #[trigger] draw@.contains_key(s) implies mirrored(
            blend,
            before,
            auth@[s],
            draw@[s],
            old(draw).stamp(),
        ) by {
            assert(auth@.contains_key(s));
            let id = auth@[s].id;
            let k = choose|k: int| 0 <= k < ids@.len() && ids@[k] == id;
            assert(auth.dense_ids().contains(id));
            assert(ids@[k].slot_of() == s);
        }
    }
}

/// Whether one of the first `n` ids has this slot.
spec fn slot_among(ids: Seq<Id>, n: int, s: u32) -> bool {
    exists|k: int| 0 <= k < n && (#[trigger] ids[k]).slot_of() == s
}

/// A draw row of an authoritative row: blended from what was drawn for the
/// same entity, or copied in.
pub open spec fn mirrored<T, F: Fn(Id, T, &T) -> T>(
    blend: F,
    before: Map<u32, Entry<T>>,
    auth: Entry<T>,
    draw: Entry<T>,
    stamp: u32,
) -> bool {
    let s = auth.id.slot_of();
    &&& draw.id == auth.id
    &&& draw.tick == stamp
    &&& if before.contains_key(s) && before[s].id == auth.id {
        blend.ensures((auth.id, before[s].value, &auth.value), draw.value)
    } else {
        draw.value == auth.value
    }
}

/// A mirrored row is the authoritative entity's, written now: copied in where
/// that entity was not drawn before, blended from its own drawn value where
/// it was — never from another entity's that had the slot.
pub proof fn mirrored_rows_are_their_own<T, F: Fn(Id, T, &T) -> T>(
    blend: F,
    before: Map<u32, Entry<T>>,
    auth: Entry<T>,
    draw: Entry<T>,
    stamp: u32,
)
    requires
        mirrored(blend, before, auth, draw, stamp),
    ensures
        draw.id == auth.id,
        draw.tick == stamp,
        !before.contains_key(auth.id.slot_of()) ==> draw.value == auth.value,
        before.contains_key(auth.id.slot_of()) && before[auth.id.slot_of()].id != auth.id
            ==> draw.value == auth.value,
        before.contains_key(auth.id.slot_of()) && before[auth.id.slot_of()].id == auth.id
            ==> blend.ensures(
            (auth.id, before[auth.id.slot_of()].value, &auth.value),
            draw.value,
        ),
{
}

/// A new predictor waits for authority with nothing recorded or missed.
pub proof fn a_new_predictor_waits<S, C>(limit: nat)
    ensures
        waiting::<S, C>(limit).current is None,
        waiting::<S, C>(limit).unacked.len() == 0,
        waiting::<S, C>(limit).limit == limit,
        waiting::<S, C>(limit).misses == 0,
{
}

} // verus!
