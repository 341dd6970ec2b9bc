//! The browser graph runner's scheduling decisions: blocks are run in rounds,
//! a block that reached its end is never run again, and a round tells the
//! runner to stop, to run again at once, or to wait for more input.
use vstd::prelude::*;

verus! {

/// What a block's work call reported.
pub enum BlockStatus {
    /// The block is finished.
    Eof,
    /// The block made progress and wants to run again.
    Again,
    /// The block waits on a stream; whether that stream is closed and
    /// whether the block itself reports its end.
    WaitForStream { stream_closed: bool, block_eof: bool },
    /// The block waits on a condition of its own.
    WaitForFunc,
    /// The block waits for input from outside the graph.
    Pending,
}

/// What the runner does after a round.
pub enum RoundOutcome {
    /// Every block is finished or idle: the graph is done.
    Done,
    /// A block waits for outside input: wait for a wake-up, then run again.
    WaitForInput,
    /// Run another round at once.
    RunAgain,
}

/// The flags gathered during one round.
pub struct Round {
    pub done: bool,
    pub need_more: bool,
}

/// The runner's state: which blocks have reached their end.
pub struct WasmGraph {
    eof: Vec<bool>,
}

impl View for WasmGraph {
    type V = Seq<bool>;

    closed spec fn view(&self) -> Seq<bool> {
        self.eof@
    }
}

/// The end flag of a block after it reported `status`.
pub open spec fn eof_after(was_eof: bool, status: BlockStatus) -> bool {
    match status {
        BlockStatus::Eof => true,
        BlockStatus::WaitForStream { stream_closed, block_eof } => was_eof || (block_eof
            && stream_closed),
        _ => was_eof,
    }
}

/// The round's flags after a block reported `status`.
pub open spec fn round_after(r: Round, status: BlockStatus) -> Round {
    match status {
        BlockStatus::Again => Round { done: false, ..r },
        BlockStatus::Pending => Round { done: false, need_more: true },
        _ => r,
    }
}

/// What a round with flags `r` tells the runner.
pub open spec fn outcome_of(r: Round) -> RoundOutcome {
    if r.done {
        RoundOutcome::Done
    } else if r.need_more {
        RoundOutcome::WaitForInput
    } else {
        RoundOutcome::RunAgain
    }
}

impl WasmGraph {
    /// A graph with no blocks.
    pub fn new() -> (g: Self)
        ensures
            g@ == Seq::<bool>::empty(),
    {
        WasmGraph { eof: Vec::new() }
    }

    /// Add a block, not finished.
    pub fn add(&mut self)
        ensures
            final(self)@ == old(self)@.push(false),
    {
        self.eof.push(false);
    }

    /// How many blocks the graph has.
    pub fn len(&self) -> (n: usize)
        ensures
            n == self@.len(),
    {
        self.eof.len()
    }

    /// Whether block `n` is to be run in this round: only blocks that have
    /// not reached their end are.
    pub fn runs(&self, n: usize) -> (r: bool)
        requires
            n < self@.len(),
        ensures
            r == !self@[n as int],
    {
        !self.eof[n]
    }

    /// The flags at the start of a round.
    pub fn start_round() -> (r: Round)
        ensures
            r == (Round { done: true, need_more: false }),
    {
        Round { done: true, need_more: false }
    }

    /// Record what block `n` reported in this round.
    pub fn record(&mut self, round: &mut Round, n: usize, status: BlockStatus)
        requires
            n < old(self)@.len(),
        ensures
            final(self)@ == old(self)@.update(n as int, eof_after(old(self)@[n as int], status)),
            *final(round) == round_after(*old(round), status),
    {
        match status {
            BlockStatus::Eof => {
                self.eof.set(n, true);
            },
            BlockStatus::Again => {
                round.done = false;
                assert(self.eof@ =~= old(self)@.update(n as int, old(self)@[n as int]));
            },
            BlockStatus::WaitForStream { stream_closed, block_eof } => {
                if block_eof && stream_closed {
                    self.eof.set(n, true);
                } else {
                    assert(self.eof@ =~= old(self)@.update(n as int, old(self)@[n as int]));
                }
            },
            BlockStatus::WaitForFunc => {
                assert(self.eof@ =~= old(self)@.update(n as int, old(self)@[n as int]));
            },
            BlockStatus::Pending => {
                round.need_more = true;
                round.done = false;
                assert(self.eof@ =~= old(self)@.update(n as int, old(self)@[n as int]));
            },
        }
    }

    /// What the runner does after the round.
    pub fn finish_round(round: &Round) -> (o: RoundOutcome)
        ensures
            o == outcome_of(*round),
    {
        if round.done {
            RoundOutcome::Done
        } else if round.need_more {
            RoundOutcome::WaitForInput
        } else {
            RoundOutcome::RunAgain
        }
    }
}

/// A finished block stays finished, whatever it reports.
pub proof fn lemma_eof_is_final(was_eof: bool, status: BlockStatus)
    ensures
        was_eof ==> eof_after(was_eof, status),
{
}

/// The flags of a round in which the blocks reported `statuses`, in order.
pub open spec fn round_of(statuses: Seq<BlockStatus>) -> Round
    decreases statuses.len(),
{
    if statuses.len() == 0 {
        Round { done: true, need_more: false }
    } else {
        round_after(round_of(statuses.drop_last()), statuses.last())
    }
}

/// A round ends the graph only when no block asked to run again or waited
/// for outside input; a block that waits for input makes the runner wait
/// rather than spin.
pub proof fn lemma_round_outcome(statuses: Seq<BlockStatus>)
    ensures
        round_of(statuses).done == (forall|i: int|
            0 <= i < statuses.len() ==> !(#[trigger] statuses[i] is Again) && !(
            statuses[i] is Pending)),
        round_of(statuses).need_more == (exists|i: int|
            0 <= i < statuses.len() && #[trigger] statuses[i] is Pending),
        (outcome_of(round_of(statuses)) == RoundOutcome::Done) == round_of(statuses).done,
        (outcome_of(round_of(statuses)) == RoundOutcome::WaitForInput) == (exists|i: int|
            0 <= i < statuses.len() && #[trigger] statuses[i] is Pending),
    decreases statuses.len(),
{
    if statuses.len() > 0 {
        let init = statuses.drop_last();
        lemma_round_outcome(init);
        assert forall|i: int| 0 <= i < init.len() implies init[i] == statuses[i] by {}
        if exists|i: int| 0 <= i < init.len() && #[trigger] init[i] is Pending {
            let i = choose|i: int| 0 <= i < init.len() && #[trigger] init[i] is Pending;
            assert(statuses[i] is Pending);
        }
        if statuses.last() is Pending {
            assert(statuses[statuses.len() - 1] is Pending);
        }
        if statuses.last() is Again {
            assert(statuses[statuses.len() - 1] is Again);
        }
        if exists|i: int| 0 <= i < statuses.len() && #[trigger] statuses[i] is Pending {
            let i = choose|i: int| 0 <= i < statuses.len() && #[trigger] statuses[i] is Pending;
            if i < init.len() {
                assert(init[i] is Pending);
            }
        }
    }
    let r = round_of(statuses);
    assert(r.need_more ==> !r.done) by {
        lemma_round_flags_consistent(statuses);
    }
}

proof fn lemma_round_flags_consistent(statuses: Seq<BlockStatus>)
    ensures
        round_of(statuses).need_more ==> !round_of(statuses).done,
    decreases statuses.len(),
{
    if statuses.len() > 0 {
        lemma_round_flags_consistent(statuses.drop_last());
    }
}

} // verus!
