//! The verdict on each queued packet: what a worker does between taking a
//! packet from its queue and handing it back.

use vstd::prelude::*;
use rand::rngs::SmallRng;
use crate::config::{Direction, FilterConfig};
use crate::filter::keepalive::KeepaliveDropper;
use crate::filter::obfuscator::{
    deobfuscate_prefix, deobfuscated, egress_outcome, egress_owed, obfuscate_wg_packet,
};
use crate::netutils::common::{copy_into, overwrite};

verus! {

/// Room that a worker's buffer has beyond the MTU, for ballast and nonce.
pub const HEADROOM: usize = 80;

/// Smallest burst length that a worker asks of its dropper; the dropper
/// raises it to one.
pub const BURST_MIN: u8 = 0;

/// Largest burst length of a worker's dropper.
pub const BURST_MAX: u8 = 9;

/// What is handed back to the queue for a packet.
#[derive(Debug, Clone, Copy, PartialEq, Eq, Structural)]
pub enum Verdict {
    /// The packet goes on, its payload replaced by this many bytes from the
    /// start of the worker's buffer.
    Accept(usize),
    /// The packet is discarded.
    Drop,
}

/// The result of a transform that stands behind a verdict.
pub open spec fn result_of(verdict: Verdict) -> Option<usize> {
    match verdict {
        Verdict::Accept(len) => Some(len),
        Verdict::Drop => None,
    }
}

/// What one worker owns: its rule, its packet buffer of MTU plus headroom,
/// its keepalive dropper, its random source and what it learned of the
/// machine's fast cipher path.
pub struct Worker {
    pub config: FilterConfig,
    pub buf: Vec<u8>,
    pub dropper: KeepaliveDropper,
    pub rng: SmallRng,
    pub fast_available: bool,
}

impl Worker {
    /// Whether the buffer has the size that belongs to the rule, and the
    /// dropper's bounds are in order.
    pub open spec fn wf(&self) -> bool {
        &&& self.buf@.len() == self.config.mtu + HEADROOM
        &&& self.dropper@.wf()
    }

    /// Sets up a worker for a rule, with an idle dropper and a zeroed
    /// buffer.
    pub fn new(config: FilterConfig, rng: SmallRng, fast_available: bool) -> (worker: Self)
        requires
            config.mtu + HEADROOM <= usize::MAX,
        ensures
            worker.wf(),
            worker.config == config,
            worker.fast_available == fast_available,
            worker.dropper@.idle(),
            worker.dropper.min == 1,
            worker.dropper.max == BURST_MAX,
            forall|i: int| 0 <= i < worker.buf@.len() ==> worker.buf@[i] == 0,
    {
        let size = config.mtu + HEADROOM;
        let mut buf: Vec<u8> = Vec::with_capacity(size);
        let mut filled: usize = 0;
        while filled < size
            invariant
                filled <= size,
                buf@.len() == filled,
                forall|i: int| 0 <= i < filled ==> buf@[i] == 0,
            decreases size - filled,
        {
            buf.push(0);
            filled += 1;
        }
        Worker {
            config,
            buf,
            dropper: KeepaliveDropper::new(BURST_MIN, BURST_MAX),
            rng,
            fast_available,
        }
    }

    /// Takes a payload from the queue into the buffer and decides on it.
    /// The bytes to send on after `Accept(n)` are the first `n` of the
    /// buffer.
    pub fn handle(&mut self, payload: &[u8]) -> (verdict: Verdict)
        requires
            old(self).wf(),
            payload@.len() <= old(self).buf@.len(),
        ensures
            final(self).wf(),
            final(self).config == old(self).config,
            final(self).fast_available == old(self).fast_available,
            final(self).dropper.epoch == old(self).dropper.epoch,
            verdict matches Verdict::Accept(len) ==> len <= final(self).buf@.len(),
            old(self).config.direction == Direction::Out ==> egress_outcome(
                overwrite(old(self).buf@, 0, payload@),
                payload@.len() as int,
                old(self).config,
                old(self).fast_available,
                old(self).dropper@,
                final(self).dropper@,
                final(self).buf@,
                result_of(verdict),
            ) && (egress_owed(
                overwrite(old(self).buf@, 0, payload@),
                payload@.len() as int,
                old(self).config.mtu as int,
            ) ==> verdict is Accept),
            old(self).config.direction == Direction::In ==> {
                let back = deobfuscated(
                    payload@,
                    old(self).config.key@,
                    old(self).config.mode,
                    old(self).fast_available,
                );
                &&& verdict == Verdict::Accept(back.1 as usize)
                &&& final(self).buf@.take(payload@.len() as int) == back.0
                &&& final(self).dropper@ == old(self).dropper@
            },
    {
        let len = payload.len();
        copy_into(self.buf.as_mut_slice(), 0, payload);
        proof {
            assert(self.buf@.take(len as int) =~= payload@);
        }
        let verdict = dispatch(
            self.buf.as_mut_slice(),
            len,
            &self.config,
            &mut self.dropper,
            &mut self.rng,
            self.fast_available,
        );
        proof {
            if self.config.direction == Direction::In {
                let back = deobfuscated(
                    payload@,
                    self.config.key@,
                    self.config.mode,
                    self.fast_available,
                );
                assert(self.buf@.take(len as int) =~= back.0);
            }
        }
        verdict
    }
}

/// Decides on the packet in the first `len` bytes of `buf`: a rule for
/// departing packets obfuscates it, or drops it where the keepalive dropper
/// or the buffer's size says so; a rule for arriving packets removes the
/// obfuscation and always accepts.
pub fn dispatch(
    buf: &mut [u8],
    len: usize,
    config: &FilterConfig,
    dropper: &mut KeepaliveDropper,
    rng: &mut SmallRng,
    fast_available: bool,
) -> (verdict: Verdict)
    requires
        len <= old(buf)@.len(),
        old(dropper)@.wf(),
    ensures
        final(buf)@.len() == old(buf)@.len(),
        final(dropper)@.wf(),
        final(dropper).epoch == old(dropper).epoch,
        config.direction == Direction::Out ==> egress_outcome(
            old(buf)@,
            len as int,
            *config,
            fast_available,
            old(dropper)@,
            final(dropper)@,
            final(buf)@,
            result_of(verdict),
        ) && (egress_owed(old(buf)@, len as int, config.mtu as int) ==> verdict is Accept),
        config.direction == Direction::In ==> {
            let back = deobfuscated(
                old(buf)@.take(len as int),
                config.key@,
                config.mode,
                fast_available,
            );
            &&& verdict == Verdict::Accept(back.1 as usize)
            &&& back.1 <= len
            &&& final(buf)@ == back.0 + old(buf)@.skip(len as int)
            &&& final(dropper)@ == old(dropper)@
        },
{
    match config.direction {
        Direction::Out => {
            match obfuscate_wg_packet(buf, len, config, dropper, rng, fast_available) {
                Some(new_len) => Verdict::Accept(new_len),
                None => Verdict::Drop,
            }
        },
        Direction::In => {
            let new_len = deobfuscate_prefix(buf, len, config, fast_available);
            Verdict::Accept(new_len)
        },
    }
}

} // verus!
