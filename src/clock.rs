use vstd::prelude::*;

verus! {

/// A counter of local events.
pub type Timestamp = u64;

/// A transaction stamped with the clock value at which it happened.
#[derive(Clone)]
pub struct LamportTransaction {
    pub content: String,
    pub timestamp: Timestamp,
}

/// Raised when a transaction cannot be brought in step with the clock.
#[derive(Debug)]
pub struct SyncError {
    details: String,
}

impl SyncError {
    /// The error's message as text.
    pub closed spec fn message(&self) -> Seq<char> {
        self.details@
    }

    pub fn new(msg: &str) -> (r: SyncError)
        ensures
            r.message() == msg@,
    {
        SyncError { details: msg.to_owned() }
    }

    /// The error's message.
    pub fn description(&self) -> (r: &str)
        ensures
            r@ == self.message(),
    {
        self.details.as_str()
    }
}

/// One change to a clock: a local event, or a timestamp observed on a
/// received message.
pub enum ClockStep {
    Tick,
    Update(nat),
}

/// The clock's value after one step from `t`.
pub open spec fn step_value(t: nat, s: ClockStep) -> nat {
    match s {
        ClockStep::Tick => t + 1,
        ClockStep::Update(x) => if t >= x {
            t
        } else {
            x
        },
    }
}

/// The clock's value after the steps, in order, from `t0`.
pub open spec fn run_clock(t0: nat, steps: Seq<ClockStep>) -> nat
    decreases steps.len(),
{
    if steps.len() == 0 {
        t0
    } else {
        step_value(run_clock(t0, steps.drop_last()), steps.last())
    }
}

/// How many of the steps are ticks.
pub open spec fn tick_count(steps: Seq<ClockStep>) -> nat
    decreases steps.len(),
{
    if steps.len() == 0 {
        0
    } else {
        tick_count(steps.drop_last()) + if steps.last() is Tick {
            1nat
        } else {
            0nat
        }
    }
}

proof fn lemma_run_step(t0: nat, steps: Seq<ClockStep>, i: int)
    requires
        0 <= i < steps.len(),
    ensures
        run_clock(t0, steps.take(i + 1)) == step_value(run_clock(t0, steps.take(i)), steps[i]),
        tick_count(steps.take(i + 1)) == tick_count(steps.take(i)) + if steps[i] is Tick {
            1nat
        } else {
            0nat
        },
{
    assert(steps.take(i + 1).drop_last() =~= steps.take(i));
}

/// Over any sequence of ticks and updates the clock never goes back, every
/// tick raises it by exactly one, and it ends at least as many above its start
/// as there were ticks.
pub proof fn lemma_clock_monotone(t0: nat, steps: Seq<ClockStep>)
    ensures
        forall|i: int, j: int|
            0 <= i <= j <= steps.len() ==> run_clock(t0, steps.take(i)) <= run_clock(
                t0,
                steps.take(j),
            ),
        forall|i: int|
            0 <= i < steps.len() && steps[i] is Tick ==> run_clock(t0, steps.take(i + 1))
                == run_clock(t0, steps.take(i)) + 1,
        run_clock(t0, steps) >= t0 + tick_count(steps),
{
    assert forall|i: int, j: int| 0 <= i <= j <= steps.len() implies run_clock(
        t0,
        steps.take(i),
    ) <= run_clock(t0, steps.take(j)) by {
        lemma_run_grows(t0, steps, i, j);
    }
    assert forall|i: int| 0 <= i < steps.len() && steps[i] is Tick implies run_clock(
        t0,
        steps.take(i + 1),
    ) == run_clock(t0, steps.take(i)) + 1 by {
        lemma_run_step(t0, steps, i);
    }
    lemma_run_ticks(t0, steps, steps.len() as int);
    assert(steps.take(steps.len() as int) =~= steps);
}

proof fn lemma_run_grows(t0: nat, steps: Seq<ClockStep>, i: int, j: int)
    requires
        0 <= i <= j <= steps.len(),
    ensures
        run_clock(t0, steps.take(i)) <= run_clock(t0, steps.take(j)),
    decreases j - i,
{
    if i < j {
        lemma_run_grows(t0, steps, i, j - 1);
        lemma_run_step(t0, steps, j - 1);
    }
}

proof fn lemma_run_ticks(t0: nat, steps: Seq<ClockStep>, j: int)
    requires
        0 <= j <= steps.len(),
    ensures
        run_clock(t0, steps.take(j)) >= t0 + tick_count(steps.take(j)),
    decreases j,
{
    if j == 0 {
        assert(steps.take(0) =~= Seq::<ClockStep>::empty());
    } else {
        lemma_run_ticks(t0, steps, j - 1);
        lemma_run_step(t0, steps, j - 1);
    }
}

/// Lamport logical clock owned by one node.
#[derive(Clone, Copy)]
pub struct Lamport {
    timestamp: Timestamp,
}

impl Lamport {
    /// The clock's current value.
    pub closed spec fn view(&self) -> nat {
        self.timestamp as nat
    }

    /// A clock at zero.
    pub fn new() -> (r: Self)
        ensures
            r.view() == 0,
    {
        Self { timestamp: 0 }
    }

    /// Raises the clock to a timestamp observed on a received message.
    pub fn update(&mut self, transaction_timestamp: Timestamp)
        ensures
            final(self).view() >= old(self).view(),
            final(self).view() >= transaction_timestamp,
            final(self).view() == step_value(old(self).view(), ClockStep::Update(transaction_timestamp as nat)),
            final(self).view() == if old(self).view() >= transaction_timestamp {
                old(self).view()
            } else {
                transaction_timestamp as nat
            },
    {
        if transaction_timestamp > self.timestamp {
            self.timestamp = transaction_timestamp;
        }
    }

    /// Advances the clock by one local event.
    pub fn tick(&mut self)
        requires
            old(self).view() < u64::MAX,
        ensures
            final(self).view() > old(self).view(),
            final(self).view() == step_value(old(self).view(), ClockStep::Tick),
            final(self).view() == old(self).view() + 1,
    {
        self.timestamp = self.timestamp + 1;
    }

    /// Reads the clock without changing it.
    pub fn get_timestamp(&self) -> (r: Timestamp)
        ensures
            r as nat == self.view(),
    {
        self.timestamp
    }
}

} // verus!
