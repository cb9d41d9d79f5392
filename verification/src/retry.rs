//! Opening a read transaction when all reader slots are taken.
//!
//! First a short while of attempts; then the slots of readers that are gone are
//! freed once; then attempts without end.
use vstd::arithmetic::power2::{lemma2_to64, lemma_pow2_unfold, pow2};
use vstd::prelude::*;

verus! {

/// How long the first phase goes on, in milliseconds.
pub const SHORT_PHASE_MS: u64 = 3000;

/// The first pause of a phase, in milliseconds.
pub const INITIAL_BACKOFF_MS: u64 = 10;

/// The longest pause, in milliseconds.
pub const MAX_BACKOFF_MS: u64 = 1000;

/// The phases of opening a read transaction.
#[derive(Debug, Clone, Copy, PartialEq, Eq, Structural)]
pub enum RetryPhase {
    /// For contention that passes by itself.
    Short,
    /// After stale readers were cleared; goes on until it succeeds.
    Endless,
}

/// How an attempt to open a read transaction went.
#[derive(Debug, Clone, Copy, PartialEq, Eq, Structural)]
pub enum OpenAttempt {
    Opened,
    ReadersFull,
    Failed,
}

/// What to do after an attempt.
#[derive(Debug, Clone, Copy, PartialEq, Eq, Structural)]
pub enum RetryAction {
    /// Hand out the transaction.
    Finish,
    /// Hand out the error of the attempt, or of the clearing.
    GiveUp,
    /// Try at once.
    Open,
    /// Sleep this long, then try again.
    Sleep { millis: u64 },
    /// Clear stale readers; the second phase starts once that is done.
    ClearStaleReaders,
}

/// Where opening a read transaction stands.
#[derive(Debug, Clone, Copy, PartialEq, Eq, Structural)]
pub struct ReadTxnRetry {
    pub phase: RetryPhase,
    pub backoff_ms: u64,
}

/// The smaller one.
pub open spec fn least(a: int, b: int) -> int {
    if a <= b {
        a
    } else {
        b
    }
}

impl ReadTxnRetry {
    /// The next pause is no shorter than the first and no longer than the
    /// longest.
    pub open spec fn wf(self) -> bool {
        INITIAL_BACKOFF_MS <= self.backoff_ms <= MAX_BACKOFF_MS
    }

    /// The first phase is over.
    pub open spec fn timed_out(self, elapsed_ms: u64) -> bool {
        self.phase == RetryPhase::Short && elapsed_ms >= SHORT_PHASE_MS
    }

    /// The pause after an attempt that found no free slot: the backoff, and in
    /// the first phase no longer than the phase goes on.
    pub open spec fn pause(self, elapsed_ms: u64) -> int {
        if self.phase == RetryPhase::Short {
            least(self.backoff_ms as int, SHORT_PHASE_MS - elapsed_ms)
        } else {
            self.backoff_ms as int
        }
    }

    /// Where it stands before the first attempt.
    pub fn new() -> (r: Self)
        ensures
            r == (ReadTxnRetry { phase: RetryPhase::Short, backoff_ms: INITIAL_BACKOFF_MS }),
            r.wf(),
    {
        ReadTxnRetry { phase: RetryPhase::Short, backoff_ms: INITIAL_BACKOFF_MS }
    }

    /// Where it stands after an attempt that ended `elapsed_ms` after the phase
    /// began.
    pub open spec fn state_after(self, attempt: OpenAttempt, elapsed_ms: u64) -> ReadTxnRetry {
        if attempt != OpenAttempt::ReadersFull {
            self
        } else if self.timed_out(elapsed_ms) {
            ReadTxnRetry { phase: RetryPhase::Endless, backoff_ms: INITIAL_BACKOFF_MS }
        } else {
            ReadTxnRetry {
                phase: self.phase,
                backoff_ms: least(2 * self.backoff_ms, MAX_BACKOFF_MS as int) as u64,
            }
        }
    }

    /// What is to be done after such an attempt.
    pub open spec fn action_after(self, attempt: OpenAttempt, elapsed_ms: u64) -> RetryAction {
        match attempt {
            OpenAttempt::Opened => RetryAction::Finish,
            OpenAttempt::Failed => RetryAction::GiveUp,
            OpenAttempt::ReadersFull => if self.timed_out(elapsed_ms) {
                RetryAction::ClearStaleReaders
            } else {
                RetryAction::Sleep { millis: self.pause(elapsed_ms) as u64 }
            },
        }
    }

    /// What to do after an attempt that ended `elapsed_ms` after the phase
    /// began.
    pub fn after(&mut self, attempt: OpenAttempt, elapsed_ms: u64) -> (r: RetryAction)
        requires
            old(self).wf(),
        ensures
            final(self).wf(),
            *final(self) == old(self).state_after(attempt, elapsed_ms),
            r == old(self).action_after(attempt, elapsed_ms),
            attempt == OpenAttempt::ReadersFull && (old(self).phase == RetryPhase::Endless
                || elapsed_ms < 3000) ==> final(self).phase == old(self).phase && (r matches
                RetryAction::Sleep { millis } && millis <= old(self).backoff_ms && (old(self).phase
                == RetryPhase::Short ==> elapsed_ms + millis <= 3000) && (millis == old(
                self,
            ).backoff_ms || (old(self).phase == RetryPhase::Short && elapsed_ms + millis
                == 3000))),
            attempt == OpenAttempt::ReadersFull && old(self).phase == RetryPhase::Short
                && elapsed_ms >= 3000 ==> r == RetryAction::ClearStaleReaders && final(self).phase
                == RetryPhase::Endless && final(self).backoff_ms == 10,
    {
        match attempt {
            OpenAttempt::Opened => RetryAction::Finish,
            OpenAttempt::Failed => RetryAction::GiveUp,
            OpenAttempt::ReadersFull => {
                let mut millis: u64 = self.backoff_ms;
                match self.phase {
                    RetryPhase::Short => {
                        if elapsed_ms >= SHORT_PHASE_MS {
                            self.phase = RetryPhase::Endless;
                            self.backoff_ms = INITIAL_BACKOFF_MS;
                            return RetryAction::ClearStaleReaders;
                        }
                        if SHORT_PHASE_MS - elapsed_ms < millis {
                            millis = SHORT_PHASE_MS - elapsed_ms;
                        }
                    },
                    RetryPhase::Endless => {},
                }
                if self.backoff_ms > MAX_BACKOFF_MS / 2 {
                    self.backoff_ms = MAX_BACKOFF_MS;
                } else {
                    self.backoff_ms = self.backoff_ms * 2;
                }
                RetryAction::Sleep { millis }
            },
        }
    }

    /// What to do once stale readers were cleared, or could not be: the failure
    /// is handed out, and no further attempt is made.
    pub fn after_clearing(&self, cleared: bool) -> (r: RetryAction)
        requires
            self.phase == RetryPhase::Endless,
        ensures
            r == clearing_action(cleared),
    {
        if cleared {
            RetryAction::Open
        } else {
            RetryAction::GiveUp
        }
    }
}

/// What is to be done once stale readers were cleared, or could not be.
pub open spec fn clearing_action(cleared: bool) -> RetryAction {
    if cleared {
        RetryAction::Open
    } else {
        RetryAction::GiveUp
    }
}

/// Full readers are never a reason to give up: a pause is taken that ends, or
/// stale readers are cleared; no pause is empty, none is longer than the longest,
/// and none in the first phase reaches beyond it.
pub proof fn law_pause_bounds(retry: ReadTxnRetry, elapsed_ms: u64)
    requires
        retry.wf(),
        !retry.timed_out(elapsed_ms),
    ensures
        0 < retry.pause(elapsed_ms) <= MAX_BACKOFF_MS,
        retry.phase == RetryPhase::Short ==> elapsed_ms + retry.pause(elapsed_ms) <= SHORT_PHASE_MS,
{
}

/// Once stale readers were cleared they are not cleared again: the second phase
/// has no end.
pub proof fn law_endless_phase(retry: ReadTxnRetry, elapsed_ms: u64)
    requires
        retry.phase == RetryPhase::Endless,
    ensures
        !retry.timed_out(elapsed_ms),
{
}

// --- A whole run ---------------------------------------------------------

/// What happens while a read transaction is being opened.
pub enum RetryEvent {
    /// An attempt ended, so long after its phase began.
    Attempt(OpenAttempt, u64),
    /// Stale readers were cleared, or could not be.
    Cleared(bool),
}

/// Where opening stands after these events.
pub open spec fn state_at(events: Seq<RetryEvent>) -> ReadTxnRetry
    decreases events.len(),
{
    if events.len() == 0 {
        ReadTxnRetry { phase: RetryPhase::Short, backoff_ms: INITIAL_BACKOFF_MS }
    } else {
        match events.last() {
            RetryEvent::Attempt(attempt, elapsed_ms) => state_at(events.drop_last()).state_after(
                attempt,
                elapsed_ms,
            ),
            RetryEvent::Cleared(_) => state_at(events.drop_last()),
        }
    }
}

/// What is to be done after these events.
pub open spec fn action_at(events: Seq<RetryEvent>) -> RetryAction {
    if events.len() == 0 {
        RetryAction::Open
    } else {
        match events.last() {
            RetryEvent::Attempt(attempt, elapsed_ms) => state_at(events.drop_last()).action_after(
                attempt,
                elapsed_ms,
            ),
            RetryEvent::Cleared(cleared) => clearing_action(cleared),
        }
    }
}

/// `event` is an outcome of carrying out `action`; after the last action none
/// comes.
pub open spec fn answers(action: RetryAction, event: RetryEvent) -> bool {
    match action {
        RetryAction::Open | RetryAction::Sleep { .. } => event is Attempt,
        RetryAction::ClearStaleReaders => event is Cleared,
        RetryAction::Finish | RetryAction::GiveUp => false,
    }
}

/// The events of a run: each is an outcome of what was to be done after those
/// before it.
pub open spec fn is_run(events: Seq<RetryEvent>) -> bool {
    forall|k: int|
        0 <= k < events.len() ==> answers(action_at(events.take(k)), #[trigger] events[k])
}

/// An attempt that found all slots taken.
pub open spec fn readers_full(event: RetryEvent) -> bool {
    event matches RetryEvent::Attempt(OpenAttempt::ReadersFull, _)
}

/// Such an attempt, at the end of the first phase.
pub open spec fn full_at_end(event: RetryEvent) -> bool {
    event matches RetryEvent::Attempt(OpenAttempt::ReadersFull, elapsed_ms) && elapsed_ms
        >= SHORT_PHASE_MS
}

/// Once in the second phase, opening stays there.
proof fn lemma_endless_stays(events: Seq<RetryEvent>, i: int, j: int)
    requires
        0 <= i <= j <= events.len(),
        state_at(events.take(i)).phase == RetryPhase::Endless,
    ensures
        state_at(events.take(j)).phase == RetryPhase::Endless,
    decreases j - i,
{
    if i < j {
        lemma_endless_stays(events, i, j - 1);
        assert(events.take(j).drop_last() =~= events.take(j - 1));
    }
}

/// Where clearing is to be done, the second phase is reached just then, and the
/// attempt before found all slots taken at the end of the first.
proof fn lemma_clearing(events: Seq<RetryEvent>, i: int)
    requires
        0 <= i <= events.len(),
        action_at(events.take(i)) == RetryAction::ClearStaleReaders,
    ensures
        i > 0,
        full_at_end(events[i - 1]),
        state_at(events.take(i - 1)).phase == RetryPhase::Short,
        state_at(events.take(i)).phase == RetryPhase::Endless,
{
    if i > 0 {
        assert(events.take(i).drop_last() =~= events.take(i - 1));
        assert(events.take(i).last() == events[i - 1]);
    }
}

/// Stale readers are cleared at most once while a transaction is opened.
pub proof fn law_cleared_at_most_once(events: Seq<RetryEvent>, i: int, j: int)
    requires
        is_run(events),
        0 <= i < j < events.len(),
        events[i] is Cleared,
    ensures
        !(events[j] is Cleared),
{
    assert(answers(action_at(events.take(i)), events[i]));
    lemma_clearing(events, i);
    if events[j] is Cleared {
        assert(answers(action_at(events.take(j)), events[j]));
        lemma_clearing(events, j);
        lemma_endless_stays(events, i, j - 1);
    }
}

/// Stale readers are cleared only after a first phase in which all attempts found
/// all slots taken, the last of them at its end and the others before it.
pub proof fn law_cleared_after_short_phase(events: Seq<RetryEvent>, i: int, k: int)
    requires
        is_run(events),
        0 <= k < i < events.len(),
        events[i] is Cleared,
    ensures
        readers_full(events[k]),
        full_at_end(events[k]) <==> k == i - 1,
{
    assert(answers(action_at(events.take(i)), events[i]));
    lemma_clearing(events, i);
    if k < i - 1 {
        assert(answers(action_at(events.take(k + 1)), events[k + 1]));
        assert(events.take(k + 1).drop_last() =~= events.take(k));
        assert(events.take(k + 1).last() == events[k]);
        if events[k] is Cleared {
            law_cleared_at_most_once(events, k, i);
        }
        if full_at_end(events[k]) {
            if state_at(events.take(k)).phase == RetryPhase::Endless {
                lemma_endless_stays(events, k, i - 1);
            } else {
                assert(state_at(events.take(k + 1)).phase == RetryPhase::Endless);
                lemma_endless_stays(events, k + 1, i - 1);
            }
        }
    }
}

/// At the end of a first phase in which all attempts found all slots taken, stale
/// readers are to be cleared.
pub proof fn law_short_phase_ends_in_clearing(events: Seq<RetryEvent>)
    requires
        events.len() > 0,
        full_at_end(events.last()),
        forall|k: int|
            0 <= k < events.len() - 1 ==> readers_full(#[trigger] events[k]) && !full_at_end(
                events[k],
            ),
    ensures
        action_at(events) == RetryAction::ClearStaleReaders,
{
    lemma_short_stays(events.drop_last());
}

/// The first phase goes on while no attempt reaches its end.
proof fn lemma_short_stays(events: Seq<RetryEvent>)
    requires
        forall|k: int|
            0 <= k < events.len() ==> readers_full(#[trigger] events[k]) && !full_at_end(events[k]),
    ensures
        state_at(events).phase == RetryPhase::Short,
    decreases events.len(),
{
    if events.len() > 0 {
        assert(events.last() == events[events.len() - 1]);
        assert forall|k: int| 0 <= k < events.len() - 1 implies readers_full(
            #[trigger] events.drop_last()[k],
        ) && !full_at_end(events.drop_last()[k]) by {
            assert(events.drop_last()[k] == events[k]);
        }
        lemma_short_stays(events.drop_last());
    }
}

/// A run ends with the transaction where an attempt opens it, and with a failure
/// where an attempt or the clearing fails; nothing is tried after that. However
/// long it takes, it goes on otherwise.
pub proof fn law_run_ends(events: Seq<RetryEvent>)
    requires
        is_run(events),
        events.len() > 0,
    ensures
        action_at(events) == RetryAction::Finish <==> events.last() matches RetryEvent::Attempt(
            OpenAttempt::Opened,
            _,
        ),
        action_at(events) == RetryAction::GiveUp <==> (events.last() matches RetryEvent::Attempt(
            OpenAttempt::Failed,
            _,
        )) || events.last() == RetryEvent::Cleared(false),
        forall|k: int|
            0 <= k < events.len() - 1 ==> readers_full(#[trigger] events[k]) || events[k]
                == RetryEvent::Cleared(true),
{
    assert forall|k: int| 0 <= k < events.len() - 1 implies readers_full(#[trigger] events[k])
        || events[k] == RetryEvent::Cleared(true) by {
        assert(answers(action_at(events.take(k + 1)), events[k + 1]));
        assert(events.take(k + 1).last() == events[k]);
    }
}

/// Attempts that all found all slots taken, each ended at its time after the phase
/// began.
pub open spec fn all_full(times: Seq<u64>) -> Seq<RetryEvent> {
    Seq::new(times.len(), |i: int| RetryEvent::Attempt(OpenAttempt::ReadersFull, times[i]))
}

/// Where the first phase stands after such attempts.
proof fn lemma_short_backoff(times: Seq<u64>)
    requires
        forall|i: int| 0 <= i < times.len() ==> #[trigger] times[i] < 3000,
    ensures
        state_at(all_full(times)).phase == RetryPhase::Short,
        state_at(all_full(times)).backoff_ms == least((10 * pow2(times.len())) as int, 1000),
    decreases times.len(),
{
    lemma2_to64();
    if times.len() > 0 {
        let init = times.drop_last();
        assert forall|i: int| 0 <= i < init.len() implies #[trigger] init[i] < 3000 by {
            assert(init[i] == times[i]);
        }
        lemma_short_backoff(init);
        lemma_pow2_unfold(times.len());
        assert(all_full(times).drop_last() =~= all_full(init));
        assert(times[times.len() - 1] < 3000);
    }
}

/// The pauses of the first phase, in milliseconds: after the attempt that is the
/// k-th, counted from 0, the smallest of 10 times 2 to the power of k, of 1000, and
/// of what is left of 3000, whenever the attempts before it ended.
pub proof fn law_short_phase_pauses(times: Seq<u64>)
    requires
        times.len() > 0,
        forall|i: int| 0 <= i < times.len() ==> #[trigger] times[i] < 3000,
    ensures
        action_at(all_full(times)) matches RetryAction::Sleep { millis } && {
            let grown = 10 * pow2((times.len() - 1) as nat);
            let left = 3000 - times.last();
            &&& millis <= grown
            &&& millis <= 1000
            &&& millis <= left
            &&& millis == grown || millis == 1000 || millis == left
        },
{
    let init = times.drop_last();
    assert forall|i: int| 0 <= i < init.len() implies #[trigger] init[i] < 3000 by {
        assert(init[i] == times[i]);
    }
    lemma_short_backoff(init);
    assert(all_full(times).drop_last() =~= all_full(init));
    assert(times[times.len() - 1] < 3000);
}

/// A first phase that `end_ms` found at its end, the clearing of stale readers, and
/// then attempts that all found all slots taken.
pub open spec fn past_clearing(short: Seq<u64>, end_ms: u64, times: Seq<u64>) -> Seq<RetryEvent> {
    all_full(short.push(end_ms)).push(RetryEvent::Cleared(true)) + all_full(times)
}

/// Where the second phase stands after such attempts.
proof fn lemma_endless_backoff(short: Seq<u64>, end_ms: u64, times: Seq<u64>)
    requires
        forall|i: int| 0 <= i < short.len() ==> #[trigger] short[i] < 3000,
        end_ms >= 3000,
    ensures
        state_at(past_clearing(short, end_ms, times)).phase == RetryPhase::Endless,
        state_at(past_clearing(short, end_ms, times)).backoff_ms == least(
            (10 * pow2(times.len())) as int,
            1000,
        ),
    decreases times.len(),
{
    lemma2_to64();
    let all = past_clearing(short, end_ms, times);
    if times.len() > 0 {
        lemma_endless_backoff(short, end_ms, times.drop_last());
        lemma_pow2_unfold(times.len());
        assert(all.drop_last() =~= past_clearing(short, end_ms, times.drop_last()));
        assert(all.last() == all_full(times).last());
    } else {
        lemma_short_backoff(short);
        let full = all_full(short.push(end_ms));
        assert(full.drop_last() =~= all_full(short));
        assert(all =~= full.push(RetryEvent::Cleared(true)));
        assert(all.drop_last() =~= full);
        assert(state_at(all) == state_at(full));
        assert(full.last() == RetryEvent::Attempt(OpenAttempt::ReadersFull, end_ms));
    }
}

/// An attempt that finds all slots taken when 3000 milliseconds are over is followed
/// by the clearing of stale readers, and that by an attempt at once. After the
/// attempt that is then the k-th, counted from 0, the pause in milliseconds is the
/// smaller one of 10 times 2 to the power of k and of 1000, however late it ended.
pub proof fn law_endless_phase_pauses(short: Seq<u64>, end_ms: u64, times: Seq<u64>)
    requires
        forall|i: int| 0 <= i < short.len() ==> #[trigger] short[i] < 3000,
        end_ms >= 3000,
    ensures
        action_at(all_full(short.push(end_ms))) == RetryAction::ClearStaleReaders,
        times.len() == 0 ==> action_at(past_clearing(short, end_ms, times)) == RetryAction::Open,
        times.len() > 0 ==> (action_at(past_clearing(short, end_ms, times)) matches
            RetryAction::Sleep { millis } && {
            let grown = 10 * pow2((times.len() - 1) as nat);
            &&& millis <= grown
            &&& millis <= 1000
            &&& millis == grown || millis == 1000
        }),
{
    let full = all_full(short.push(end_ms));
    lemma_short_backoff(short);
    assert(full.drop_last() =~= all_full(short));
    let all = past_clearing(short, end_ms, times);
    if times.len() > 0 {
        lemma_endless_backoff(short, end_ms, times.drop_last());
        assert(all.drop_last() =~= past_clearing(short, end_ms, times.drop_last()));
        assert(all.last() == all_full(times).last());
    } else {
        assert(all =~= full.push(RetryEvent::Cleared(true)));
    }
}

/// What is to be done depends on the last event alone where that is not an attempt
/// that found all slots taken: a transaction is handed out, a failure too, and a
/// clearing that went well is followed by an attempt at once.
pub proof fn law_last_event(events: Seq<RetryEvent>, elapsed_ms: u64)
    ensures
        action_at(events.push(RetryEvent::Attempt(OpenAttempt::Opened, elapsed_ms)))
            == RetryAction::Finish,
        action_at(events.push(RetryEvent::Attempt(OpenAttempt::Failed, elapsed_ms)))
            == RetryAction::GiveUp,
        action_at(events.push(RetryEvent::Cleared(true))) == RetryAction::Open,
        action_at(events.push(RetryEvent::Cleared(false))) == RetryAction::GiveUp,
{
}

} // verus!
