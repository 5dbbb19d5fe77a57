//! Recognition of WireGuard keepalives and the state machine that drops
//! them in bursts.

use vstd::prelude::*;
use std::time::{Duration, Instant};
use crate::randomiser::thread_random_in_range;

verus! {

/// `std::time::Instant`, carried through as an opaque value.
#[verifier::external_type_specification]
#[verifier::external_body]
pub struct ExInstant(Instant);

/// `Instant::now` reads the monotonic clock: nothing is claimed of it.
pub assume_specification[ Instant::now ]() -> Instant;

/// `Instant::elapsed` reads the monotonic clock: nothing is claimed of it.
pub assume_specification[ Instant::elapsed ](instant: &Instant) -> Duration;

/// `Duration::as_millis` gives the whole milliseconds of a duration
/// measured on the clock: nothing is claimed of it.
pub assume_specification[ Duration::as_millis ](duration: &Duration) -> u128;

/// Shortest delay, in milliseconds, before a keepalive may pass again.
pub const DELAY_MIN_MS: u64 = 3000;

/// Bound, in milliseconds, that a delay stays below.
pub const DELAY_MAX_MS: u64 = 10000;

/// Verdict of the dropper on one packet.
#[derive(Debug, PartialEq, Eq, Structural)]
pub enum PacketDecision {
    Allow,
    Drop,
}

/// A keepalive is a payload of 1 to 32 bytes whose first byte is the
/// transport-data tag `0x04`.
pub open spec fn is_keepalive_spec(packet: Seq<u8>) -> bool {
    1 <= packet.len() <= 32 && packet[0] == 0x04
}

/// The time at which a burst that starts at `now_ms` lets keepalives pass
/// again, held at the end of the clock's range.
pub open spec fn deadline(now_ms: u64, delay_ms: u64) -> u64 {
    if now_ms + delay_ms > u64::MAX {
        u64::MAX
    } else {
        (now_ms + delay_ms) as u64
    }
}

/// What the dropper remembers between packets.
pub struct DropperState {
    /// Keepalives still to drop in the running burst.
    pub drop_left: u8,
    /// Smallest burst length.
    pub min: u8,
    /// Largest burst length.
    pub max: u8,
    /// Earliest time, in milliseconds on the dropper's clock, at which a
    /// keepalive may pass again.
    pub pending_until: Option<u64>,
}

impl DropperState {
    /// The burst bounds are in order and at least one.
    pub open spec fn wf(self) -> bool {
        1 <= self.min <= self.max
    }

    /// No burst is running and none is cooling down.
    pub open spec fn idle(self) -> bool {
        self.drop_left == 0 && self.pending_until is None
    }

    /// Whether `delay_ms` and `burst` are draws that the dropper may make.
    pub open spec fn valid_draw(self, delay_ms: u64, burst: u8) -> bool {
        DELAY_MIN_MS <= delay_ms < DELAY_MAX_MS && self.min <= burst <= self.max
    }

    /// One step of the state machine: the next state and the verdict for a
    /// packet seen at `now_ms`. `delay_ms` and `burst` are read only when a
    /// keepalive starts a burst.
    pub open spec fn step(self, keepalive: bool, now_ms: u64, delay_ms: u64, burst: u8) -> (
        DropperState,
        PacketDecision,
    ) {
        if !keepalive {
            (DropperState { drop_left: 0, pending_until: None, ..self }, PacketDecision::Allow)
        } else if self.drop_left > 0 {
            (
                DropperState { drop_left: (self.drop_left - 1) as u8, ..self },
                PacketDecision::Drop,
            )
        } else if self.pending_until is None {
            (
                DropperState {
                    drop_left: burst,
                    pending_until: Some(deadline(now_ms, delay_ms)),
                    ..self
                },
                PacketDecision::Drop,
            )
        } else if now_ms >= self.pending_until->0 {
            (DropperState { pending_until: None, ..self }, PacketDecision::Allow)
        } else {
            (self, PacketDecision::Drop)
        }
    }
}

/// The arrival of one keepalive: the clock reading and the two draws that
/// the dropper would make if the keepalive started a burst.
pub struct KeepaliveArrival {
    pub now_ms: u64,
    pub delay_ms: u64,
    pub burst: u8,
}

/// The state after the first `count` keepalives of `arrivals`.
pub open spec fn after_keepalives(
    state: DropperState,
    arrivals: Seq<KeepaliveArrival>,
    count: nat,
) -> DropperState
    decreases count,
{
    if count == 0 {
        state
    } else {
        let arrival = arrivals[count - 1];
        after_keepalives(state, arrivals, (count - 1) as nat).step(
            true,
            arrival.now_ms,
            arrival.delay_ms,
            arrival.burst,
        ).0
    }
}

/// The verdict on keepalive number `index` (from zero) of `arrivals`.
pub open spec fn verdict_at(state: DropperState, arrivals: Seq<KeepaliveArrival>, index: nat)
    -> PacketDecision {
    let arrival = arrivals[index as int];
    after_keepalives(state, arrivals, index).step(
        true,
        arrival.now_ms,
        arrival.delay_ms,
        arrival.burst,
    ).1
}

/// Drops keepalives in bursts of random length, with a random pause
/// before the next keepalive may pass.
pub struct KeepaliveDropper {
    /// Keepalives still to drop in the running burst.
    pub drop_left: u8,
    /// Smallest burst length.
    pub min: u8,
    /// Largest burst length.
    pub max: u8,
    /// Earliest time, in milliseconds since `epoch`, at which a keepalive
    /// may pass again.
    pub pending_until: Option<u64>,
    /// The moment the dropper was made: the zero of its clock.
    pub epoch: Instant,
}

impl View for KeepaliveDropper {
    type V = DropperState;

    open spec fn view(&self) -> DropperState {
        DropperState {
            drop_left: self.drop_left,
            min: self.min,
            max: self.max,
            pending_until: self.pending_until,
        }
    }
}

/// The larger of two bytes.
fn larger(a: u8, b: u8) -> (m: u8)
    ensures
        m == if a >= b {
            a
        } else {
            b
        },
{
    if a >= b {
        a
    } else {
        b
    }
}

impl KeepaliveDropper {
    /// Makes an idle dropper. A lower bound of zero is raised to one, and
    /// an upper bound below the lower one is raised to it.
    pub fn new(min: u8, max: u8) -> (dropper: Self)
        ensures
            dropper@.wf(),
            dropper@.idle(),
            dropper.min == (if min >= 1 {
                min
            } else {
                1u8
            }),
            dropper.max == (if max >= dropper.min {
                max
            } else {
                dropper.min
            }),
    {
        let low = larger(min, 1);
        Self {
            drop_left: 0,
            min: low,
            max: larger(max, low),
            pending_until: None,
            epoch: Instant::now(),
        }
    }

    /// Milliseconds on the dropper's clock, held at `u64::MAX` should the
    /// clock ever run that far.
    pub fn now_ms(&self) -> u64 {
        let elapsed = self.epoch.elapsed();
        clock_millis(elapsed.as_millis())
    }

    /// One step of the state machine for a packet seen at `now_ms`.
    /// `delay_ms` and `burst` are what was drawn for the case that the
    /// packet starts a burst, and are not read otherwise.
    pub fn step(&mut self, keepalive: bool, now_ms: u64, delay_ms: u64, burst: u8) -> (decision:
        PacketDecision)
        ensures
            (final(self)@, decision) == old(self)@.step(keepalive, now_ms, delay_ms, burst),
            final(self).epoch == old(self).epoch,
            old(self)@.wf() ==> final(self)@.wf(),
            !keepalive ==> decision == PacketDecision::Allow && final(self)@.idle(),
    {
        if !keepalive {
            self.pending_until = None;
            self.reset();
            return PacketDecision::Allow;
        }
        if self.drop_left > 0 {
            self.drop_left -= 1;
            return PacketDecision::Drop;
        }
        match self.pending_until {
            None => {
                self.pending_until = Some(now_ms.saturating_add(delay_ms));
                self.drop_left = burst;
                PacketDecision::Drop
            },
            Some(when) => {
                if now_ms >= when {
                    self.pending_until = None;
                    PacketDecision::Allow
                } else {
                    PacketDecision::Drop
                }
            },
        }
    }

    /// Decides on one WireGuard payload: reads the clock, draws a delay
    /// and a burst length where a keepalive starts a burst, and takes one
    /// step of the state machine.
    pub fn filter_packet(&mut self, packet: &[u8]) -> (decision: PacketDecision)
        requires
            old(self)@.wf(),
        ensures
            final(self)@.wf(),
            final(self).epoch == old(self).epoch,
            ({
                let before = old(self)@;
                let after = final(self)@;
                exists|now_ms: u64, delay_ms: u64, burst: u8|
                    before.valid_draw(delay_ms, burst) && (after, decision)
                        == #[trigger] before.step(
                        is_keepalive_spec(packet@),
                        now_ms,
                        delay_ms,
                        burst,
                    )
            }),
            !is_keepalive_spec(packet@) ==> decision == PacketDecision::Allow
                && final(self)@.idle(),
    {
        let now_ms = self.now_ms();
        let keepalive = is_keepalive(packet);
        if keepalive && self.drop_left == 0 && self.pending_until.is_none() {
            let delay_ms = thread_random_in_range(DELAY_MIN_MS, DELAY_MAX_MS - 1);
            let burst = thread_random_in_range(self.min as u64, self.max as u64) as u8;
            self.step(keepalive, now_ms, delay_ms, burst)
        } else {
            let ghost before = self@;
            let decision = self.step(keepalive, now_ms, DELAY_MIN_MS, self.min);
            proof {
                assert(before.valid_draw(DELAY_MIN_MS, before.min));
            }
            decision
        }
    }

    /// Ends the running burst.
    pub fn reset(&mut self)
        ensures
            final(self)@ == (DropperState { drop_left: 0, ..old(self)@ }),
            final(self).epoch == old(self).epoch,
    {
        self.drop_left = 0;
    }
}

/// A count of milliseconds as a reading of the dropper's clock: the count
/// itself, held at `u64::MAX` where it is larger.
pub open spec fn clock_millis_spec(millis: u128) -> u64 {
    if millis > u64::MAX {
        u64::MAX
    } else {
        millis as u64
    }
}

/// Turns the milliseconds that have passed into a reading of the dropper's
/// clock, held at `u64::MAX` should the clock ever run that far.
pub fn clock_millis(millis: u128) -> (now_ms: u64)
    ensures
        now_ms == clock_millis_spec(millis),
{
    if millis > 0xffff_ffff_ffff_ffff {
        0xffff_ffff_ffff_ffff
    } else {
        millis as u64
    }
}

/// Tells whether a WireGuard payload is a keepalive.
pub fn is_keepalive(packet: &[u8]) -> (keepalive: bool)
    ensures
        keepalive == is_keepalive_spec(packet@),
{
    !(packet.len() == 0) && packet.len() <= 32 && packet[0] == 0x04
}

/// A burst, seen from the idle state with both bounds at `k`: the first
/// `k + 1` keepalives are dropped whatever the clock says, which leaves the
/// dropper cooling down with the deadline set by the first of them.
pub proof fn lemma_burst_drops(state: DropperState, arrivals: Seq<KeepaliveArrival>, k: u8)
    requires
        state.idle(),
        state.min == k,
        state.max == k,
        arrivals.len() >= k + 1,
        forall|i: int| 0 <= i < arrivals.len() ==> (#[trigger] arrivals[i]).burst == k,
    ensures
        forall|i: nat| i <= k ==> verdict_at(state, arrivals, i) == PacketDecision::Drop,
        after_keepalives(state, arrivals, (k + 1) as nat) == (DropperState {
            drop_left: 0,
            pending_until: Some(deadline(arrivals[0].now_ms, arrivals[0].delay_ms)),
            ..state
        }),
{
    let until = Some(deadline(arrivals[0].now_ms, arrivals[0].delay_ms));
    assert forall|n: nat| 1 <= n <= k + 1 implies after_keepalives(state, arrivals, n) == (
    DropperState { drop_left: (k + 1 - n) as u8, pending_until: until, ..state }) by {
        lemma_burst_state(state, arrivals, k, n);
    }
    assert forall|i: nat| i <= k implies verdict_at(state, arrivals, i)
        == PacketDecision::Drop by {
        if i > 0 {
            lemma_burst_state(state, arrivals, k, i);
        }
    }
    lemma_burst_state(state, arrivals, k, (k + 1) as nat);
}

/// The state in the middle of a burst: after `n` keepalives, `k + 1 - n`
/// are still to drop.
proof fn lemma_burst_state(state: DropperState, arrivals: Seq<KeepaliveArrival>, k: u8, n: nat)
    requires
        state.idle(),
        state.min == k,
        state.max == k,
        1 <= n <= k + 1,
        arrivals.len() >= k + 1,
        forall|i: int| 0 <= i < arrivals.len() ==> (#[trigger] arrivals[i]).burst == k,
    ensures
        after_keepalives(state, arrivals, n) == (DropperState {
            drop_left: (k + 1 - n) as u8,
            pending_until: Some(deadline(arrivals[0].now_ms, arrivals[0].delay_ms)),
            ..state
        }),
    decreases n,
{
    if n > 1 {
        lemma_burst_state(state, arrivals, k, (n - 1) as nat);
    } else {
        assert(after_keepalives(state, arrivals, 0) == state);
    }
}

/// After a burst, seen from the idle state with both bounds at `k`: while
/// every keepalive comes before the deadline, each is dropped; the first
/// one that comes at or after the deadline is allowed and leaves the
/// dropper idle. So exactly `k + 1` keepalives are dropped before one can
/// be allowed, and keepalive `k + 2` is allowed only once the deadline has
/// passed.
pub proof fn lemma_cooling_holds(
    state: DropperState,
    arrivals: Seq<KeepaliveArrival>,
    k: u8,
    index: nat,
)
    requires
        state.idle(),
        state.min == k,
        state.max == k,
        k + 1 <= index < arrivals.len(),
        forall|i: int| 0 <= i < arrivals.len() ==> (#[trigger] arrivals[i]).burst == k,
        forall|i: int|
            k + 1 <= i < index ==> (#[trigger] arrivals[i]).now_ms < deadline(
                arrivals[0].now_ms,
                arrivals[0].delay_ms,
            ),
    ensures
        verdict_at(state, arrivals, index) == (if arrivals[index as int].now_ms >= deadline(
            arrivals[0].now_ms,
            arrivals[0].delay_ms,
        ) {
            PacketDecision::Allow
        } else {
            PacketDecision::Drop
        }),
        arrivals[index as int].now_ms >= deadline(arrivals[0].now_ms, arrivals[0].delay_ms)
            ==> after_keepalives(state, arrivals, index + 1).idle(),
{
    lemma_cooling_state(state, arrivals, k, index);
}

/// The state while cooling down: no keepalive left to drop, the deadline
/// still pending.
proof fn lemma_cooling_state(
    state: DropperState,
    arrivals: Seq<KeepaliveArrival>,
    k: u8,
    n: nat,
)
    requires
        state.idle(),
        state.min == k,
        state.max == k,
        k + 1 <= n <= arrivals.len(),
        forall|i: int| 0 <= i < arrivals.len() ==> (#[trigger] arrivals[i]).burst == k,
        forall|i: int|
            k + 1 <= i < n ==> (#[trigger] arrivals[i]).now_ms < deadline(
                arrivals[0].now_ms,
                arrivals[0].delay_ms,
            ),
    ensures
        after_keepalives(state, arrivals, n) == (DropperState {
            drop_left: 0,
            pending_until: Some(deadline(arrivals[0].now_ms, arrivals[0].delay_ms)),
            ..state
        }),
    decreases n,
{
    if n == k + 1 {
        lemma_burst_state(state, arrivals, k, n);
    } else {
        lemma_cooling_state(state, arrivals, k, (n - 1) as nat);
        assert(arrivals[n - 1].now_ms < deadline(arrivals[0].now_ms, arrivals[0].delay_ms));
    }
}

/// What every step keeps: the burst bounds stay as they are, the count of
/// keepalives to drop goes down only by one and only with a `Drop`
/// verdict, and a packet that is no keepalive clears count and deadline.
pub proof fn lemma_step_invariants(
    state: DropperState,
    keepalive: bool,
    now_ms: u64,
    delay_ms: u64,
    burst: u8,
)
    ensures
        ({
            let (next, decision) = state.step(keepalive, now_ms, delay_ms, burst);
            &&& next.min == state.min && next.max == state.max
            &&& state.wf() ==> next.wf()
            &&& keepalive && next.drop_left < state.drop_left ==> decision == PacketDecision::Drop
                && next.drop_left == state.drop_left - 1
            &&& !keepalive ==> decision == PacketDecision::Allow && next.idle()
            &&& decision == PacketDecision::Allow && keepalive ==> state.drop_left == 0
                && state.pending_until is Some && now_ms >= state.pending_until->0
                && next.idle()
        }),
{
}

} // verus!
