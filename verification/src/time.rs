//! Media time, and its measure in frames of a sample-rate axis.

use vstd::prelude::*;

verus! {

/// Nanoseconds in a second.
pub const NANOS_PER_SEC: u32 = 1_000_000_000;

/// A span of media time.
#[derive(Clone, Copy, Debug, PartialEq, Eq, Structural)]
pub struct Duration {
    secs: u64,
    /// Below one second.
    nanos: u32,
}

impl Duration {
    #[verifier::type_invariant]
    spec fn well_formed(self) -> bool {
        self.nanos < NANOS_PER_SEC
    }

    /// The span in nanoseconds.
    pub closed spec fn nanoseconds(self) -> int {
        self.secs * NANOS_PER_SEC + self.nanos
    }

    pub fn from_secs(secs: u64) -> (d: Self)
        ensures
            d.nanoseconds() == secs * NANOS_PER_SEC,
    {
        Duration { secs, nanos: 0 }
    }

    pub fn from_millis(millis: u64) -> (d: Self)
        ensures
            d.nanoseconds() == millis * 1_000_000,
    {
        Duration { secs: millis / 1000, nanos: ((millis % 1000) as u32) * 1_000_000 }
    }

    /// Whole seconds and the nanoseconds past them, which must not make up
    /// another second.
    pub fn from_parts(secs: u64, nanos: u32) -> (d: Self)
        requires
            nanos < NANOS_PER_SEC,
        ensures
            d.nanoseconds() == secs * NANOS_PER_SEC + nanos,
    {
        Duration { secs, nanos }
    }

    /// Whole seconds.
    pub fn as_secs(&self) -> (secs: u64)
        ensures
            secs == self.nanoseconds() / (NANOS_PER_SEC as int),
    {
        proof {
            use_type_invariant(self);
            vstd::arithmetic::div_mod::lemma_fundamental_div_mod_converse(
                self.nanoseconds(),
                NANOS_PER_SEC as int,
                self.secs as int,
                self.nanos as int,
            );
        }
        self.secs
    }

    /// Nanoseconds past the last whole second.
    pub fn subsec_nanos(&self) -> (nanos: u32)
        ensures
            nanos == self.nanoseconds() % (NANOS_PER_SEC as int),
    {
        proof {
            use_type_invariant(self);
            vstd::arithmetic::div_mod::lemma_fundamental_div_mod_converse(
                self.nanoseconds(),
                NANOS_PER_SEC as int,
                self.secs as int,
                self.nanos as int,
            );
        }
        self.nanos
    }

    pub fn as_nanos(&self) -> (nanos: u128)
        ensures
            nanos == self.nanoseconds(),
            nanos < 0x1_0000_0000_0000_0000 * NANOS_PER_SEC,
    {
        proof {
            use_type_invariant(self);
            assert(self.secs * 1_000_000_000 <= 0xffff_ffff_ffff_ffff * 1_000_000_000);
        }
        self.secs as u128 * NANOS_PER_SEC as u128 + self.nanos as u128
    }

    pub fn as_millis(&self) -> (millis: u128)
        ensures
            millis == self.nanoseconds() / 1_000_000,
            millis < 0x1_0000_0000_0000_0000 * 1000,
    {
        self.as_nanos() / 1_000_000
    }
}

/// The whole frames that fit into `nanoseconds` at `rate`.
pub open spec fn frames_in(rate: int, nanoseconds: int) -> int {
    rate * nanoseconds / (NANOS_PER_SEC as int)
}

/// The whole frames that fit into `duration` at `rate` frames a second.
pub fn frames_for_duration(rate: u32, duration: Duration) -> (frames: u128)
    ensures
        frames == frames_in(rate as int, duration.nanoseconds()),
{
    let nanos: u128 = duration.as_nanos();
    assert(rate * nanos <= 0xffff_ffff * (0x1_0000_0000_0000_0000 * 1_000_000_000))
        by (nonlinear_arith)
        requires
            rate <= 0xffff_ffff,
            nanos < 0x1_0000_0000_0000_0000 * 1_000_000_000,
    ;
    rate as u128 * nanos / NANOS_PER_SEC as u128
}

/// The media time at which frame `frames` of an axis of `rate` frames a second
/// begins, to the nanosecond below.
pub fn duration_for_frames(rate: u32, frames: u64) -> (duration: Duration)
    requires
        rate > 0,
    ensures
        duration.nanoseconds() == frames * NANOS_PER_SEC / rate as int,
{
    let secs: u64 = frames / rate as u64;
    let rest: u64 = frames % rate as u64;
    proof {
        assert(rest * NANOS_PER_SEC < rate * NANOS_PER_SEC) by (nonlinear_arith)
            requires
                rest < rate,
        ;
        assert(rate * NANOS_PER_SEC <= 0xffff_ffff * 1_000_000_000) by (nonlinear_arith)
            requires
                rate <= 0xffff_ffff,
        ;
    }
    let scaled: u64 = rest * NANOS_PER_SEC as u64;
    let nanos: u64 = scaled / rate as u64;
    proof {
        let r = rate as int;
        let n = NANOS_PER_SEC as int;
        vstd::arithmetic::div_mod::lemma_fundamental_div_mod(frames as int, r);
        vstd::arithmetic::div_mod::lemma_fundamental_div_mod(scaled as int, r);
        assert(frames * n == r * (secs * n + nanos) + scaled as int % r) by (nonlinear_arith)
            requires
                frames == r * secs + rest,
                scaled == rest * n,
                scaled as int == r * nanos + scaled as int % r,
        ;
        vstd::arithmetic::div_mod::lemma_fundamental_div_mod_converse(
            frames * n,
            r,
            secs * n + nanos,
            scaled as int % r,
        );
        vstd::arithmetic::div_mod::lemma_multiply_divide_lt(scaled as int, r, n);
    }
    Duration::from_parts(secs, nanos as u32)
}

/// The frames that fit into a span are the most that do: they take no more time
/// than it, and one more would. A second holds as many as the rate says.
pub proof fn law_as_many_frames_as_fit(rate: int, nanoseconds: int)
    requires
        rate >= 0,
        nanoseconds >= 0,
    ensures
        0 <= frames_in(rate, nanoseconds) * 1_000_000_000 <= rate * nanoseconds,
        rate * nanoseconds < (frames_in(rate, nanoseconds) + 1) * 1_000_000_000,
        frames_in(rate, 1_000_000_000) == rate,
{
    let total = rate * nanoseconds;
    assert(total >= 0) by (nonlinear_arith)
        requires
            total == rate * nanoseconds,
            rate >= 0,
            nanoseconds >= 0,
    ;
}

/// The time at which a frame begins leads back to it: no later frame fits into
/// it, and a nanosecond more holds the frame.
pub proof fn law_a_frame_is_found_by_its_time(rate: int, frame: int)
    requires
        rate > 0,
        frame >= 0,
    ensures
        frames_in(rate, frame * 1_000_000_000 / rate) <= frame,
        frames_in(rate, frame * 1_000_000_000 / rate + 1) >= frame,
{
    let nanos = frame * 1_000_000_000 / rate;
    vstd::arithmetic::div_mod::lemma_fundamental_div_mod(frame * 1_000_000_000, rate);
    vstd::arithmetic::div_mod::lemma_mod_pos_bound(frame * 1_000_000_000, rate);
    vstd::arithmetic::div_mod::lemma_div_pos_is_pos(frame * 1_000_000_000, rate);
    assert(rate * (nanos + 1) == rate * nanos + rate) by (nonlinear_arith);
    assert(rate * nanos >= 0) by (nonlinear_arith)
        requires
            rate > 0,
            nanos >= 0,
    ;
}

} // verus!
