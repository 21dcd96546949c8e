//! The demo service behind every server: it answers `Hello world!`,
//! optionally after pausing the worker thread, and the fixed settings the
//! servers listen with.

use vstd::prelude::*;
use rand::Rng;

verus! {

/// The TCP port every server listens on.
pub const LISTEN_PORT: u16 = 3000;

/// How many connections a glommio executor serves at once.
pub const MAX_CONNECTIONS: usize = 1024;

/// How long the sleeping service pauses before it answers, in microseconds.
pub const SLEEP_MICROS: u64 = 100;

/// How long each pause of the randomly sleeping service lasts, in
/// microseconds.
pub const RANDOM_SLEEP_STEP_MICROS: u64 = 10;

/// The most pauses the randomly sleeping service makes for one request.
pub const MAX_RANDOM_SLEEP_STEPS: usize = 10;

/// Which flavour of the demo service a server runs.
#[derive(Clone, Copy, Debug)]
pub enum ServiceKind {
    /// Answers at once.
    Plain,
    /// Pauses `SLEEP_MICROS` before it answers.
    Sleep,
    /// Makes between 0 and `MAX_RANDOM_SLEEP_STEPS` pauses of
    /// `RANDOM_SLEEP_STEP_MICROS` each, awaiting between them.
    RandomSleep,
}

/// `rand::Rng::gen_range` over `low..=high` on the thread's generator:
/// some value in that range; which one is left to chance.
#[verifier::external_body]
fn random_in_range(low: usize, high: usize) -> (value: usize)
    requires
        low <= high,
    ensures
        low <= value <= high,
{
    rand::thread_rng().gen_range(low..=high)
}

/// The pauses, in microseconds, of a randomly sleeping request that drew
/// `steps` pauses.
pub fn random_sleep_delays(steps: usize) -> (delays: Vec<u64>)
    ensures
        delays@ == Seq::new(steps as nat, |i: int| RANDOM_SLEEP_STEP_MICROS),
{
    let mut delays: Vec<u64> = Vec::new();
    let mut i: usize = 0;
    while i < steps
        invariant
            i <= steps,
            delays@ == Seq::new(i as nat, |j: int| RANDOM_SLEEP_STEP_MICROS),
        decreases steps - i,
    {
        delays.push(RANDOM_SLEEP_STEP_MICROS);
        i = i + 1;
    }
    delays
}

/// The pauses, in microseconds and in order, that the service makes before
/// it answers one request.
pub fn service_delays(kind: &ServiceKind) -> (delays: Vec<u64>)
    ensures
        match kind {
            ServiceKind::Plain => delays@ == Seq::<u64>::empty(),
            ServiceKind::Sleep => delays@ == seq![SLEEP_MICROS],
            ServiceKind::RandomSleep => delays.len() <= MAX_RANDOM_SLEEP_STEPS && delays@ == Seq::new(
                delays.len() as nat,
                |i: int| RANDOM_SLEEP_STEP_MICROS,
            ),
        },
{
    let mut delays: Vec<u64> = Vec::new();
    match kind {
        ServiceKind::Plain => {},
        ServiceKind::Sleep => {
            delays.push(SLEEP_MICROS);
        },
        ServiceKind::RandomSleep => {
            delays = random_sleep_delays(random_in_range(0, MAX_RANDOM_SLEEP_STEPS));
        },
    }
    delays
}

/// The text every demo service answers with.
pub fn hello_text() -> (text: String)
    ensures
        text@ == "Hello world!"@,
{
    let mut text = String::new();
    text.append("Hello world!");
    text
}

} // verus!
