//! The PCM of a procedural signal.

use crate::signal_source::{fill_pcm, pcm_byte, SignalFn};
use crate::wav::pcm_data;
use vstd::prelude::*;

verus! {

/// How long a signal lasts.
#[derive(Clone, Copy, Debug, PartialEq, Eq, Structural)]
pub enum SignalLength {
    Finite { total_frames: u64 },
    Infinite,
}

/// A signal as 16-bit PCM, with the same sample on every channel.
pub struct SignalPcm<S: SignalFn> {
    signal: S,
    sample_rate: u32,
    channels: u16,
    length: SignalLength,
}

impl<S: SignalFn> SignalPcm<S> {
    #[verifier::type_invariant]
    spec fn well_formed(self) -> bool {
        self.length matches SignalLength::Finite { total_frames } ==> total_frames * self.channels
            * 2 <= u64::MAX
    }

    pub closed spec fn signal_of(&self) -> S {
        self.signal
    }

    pub closed spec fn rate(&self) -> u32 {
        self.sample_rate
    }

    pub closed spec fn channel_count(&self) -> u16 {
        self.channels
    }

    pub closed spec fn length_of(&self) -> SignalLength {
        self.length
    }

    /// Total bytes, or `None` for a signal without end.
    pub open spec fn byte_len(&self) -> Option<u64> {
        match self.length_of() {
            SignalLength::Finite { total_frames } => Some(
                (total_frames * self.channel_count() * 2) as u64,
            ),
            SignalLength::Infinite => None,
        }
    }

    /// How many bytes a read of `len` bytes at `offset` delivers.
    pub open spec fn readable(&self, offset: u64, len: int) -> int {
        match self.byte_len() {
            Some(total) => if total <= offset {
                0
            } else if total - offset < len {
                total - offset
            } else {
                len
            },
            None => len,
        }
    }

    pub fn new(signal: S, sample_rate: u32, channels: u16, length: SignalLength) -> (pcm: Self)
        requires
            length matches SignalLength::Finite { total_frames } ==> total_frames * channels * 2
                <= u64::MAX,
        ensures
            pcm.signal_of() == signal,
            pcm.rate() == sample_rate,
            pcm.channel_count() == channels,
            pcm.length_of() == length,
    {
        SignalPcm { signal, sample_rate, channels, length }
    }

    pub fn sample_rate(&self) -> (rate: u32)
        ensures
            rate == self.rate(),
    {
        self.sample_rate
    }

    pub fn channels(&self) -> (channels: u16)
        ensures
            channels == self.channel_count(),
    {
        self.channels
    }

    pub fn length(&self) -> (length: SignalLength)
        ensures
            length == self.length_of(),
            length matches SignalLength::Finite { total_frames } ==> total_frames
                * self.channel_count() * 2 <= u64::MAX,
    {
        proof {
            use_type_invariant(self);
        }
        self.length
    }

    /// Total bytes, or `None` for a signal without end.
    pub fn total_byte_len(&self) -> (len: Option<u64>)
        ensures
            len == self.byte_len(),
    {
        proof {
            use_type_invariant(self);
        }
        match self.length {
            SignalLength::Finite { total_frames } => {
                assert(0 <= total_frames * self.channels <= total_frames * self.channels * 2)
                    by (nonlinear_arith)
                    requires
                        total_frames >= 0,
                        self.channels >= 0,
                ;
                Some(total_frames * (self.channels as u64) * 2)
            },
            SignalLength::Infinite => None,
        }
    }

    /// Fill `buf` with the bytes from `offset` on, as far as there are any.
    pub fn read_pcm_at(&self, offset: u64, buf: &mut [u8]) -> (count: usize)
        requires
            self.channel_count() > 0,
            offset + self.readable(offset, old(buf)@.len() as int) <= u64::MAX,
        ensures
            count == self.readable(offset, old(buf)@.len() as int),
            final(buf)@.len() == old(buf)@.len(),
            forall|k: int|
                0 <= k < old(buf)@.len() ==> #[trigger] final(buf)@[k] == if k < count {
                    pcm_byte(self.signal_of(), self.rate(), self.channel_count(), offset + k)
                } else {
                    old(buf)@[k]
                },
    {
        let len: usize = buf.len();
        let count: usize = match self.total_byte_len() {
            Some(total) => if total <= offset {
                0
            } else if total - offset < len as u64 {
                (total - offset) as usize
            } else {
                len
            },
            None => len,
        };
        fill_pcm(&self.signal, self.sample_rate, self.channels, buf, 0, count, offset);
        count
    }
}

/// A read delivers what it asks for as far as the signal goes, and never past
/// its end; two reads that follow one another deliver what one over both does.
pub proof fn law_pcm_reads_stop_at_the_end<S: SignalFn>(
    pcm: SignalPcm<S>,
    offset: u64,
    first: int,
    second: int,
)
    requires
        0 <= first,
        0 <= second,
        offset + first <= u64::MAX,
    ensures
        0 <= pcm.readable(offset, first) <= first,
        pcm.byte_len() is None ==> pcm.readable(offset, first) == first,
        pcm.byte_len() matches Some(total) ==> {
            &&& pcm.readable(offset, first) > 0 ==> offset + pcm.readable(offset, first) <= total
            &&& pcm.readable(offset, first) < first ==> offset + pcm.readable(offset, first)
                >= total
        },
        pcm.readable(offset, first) == first ==> pcm.readable(offset, first + second) == first
            + pcm.readable((offset + first) as u64, second),
{
}

/// A finite signal lasts as many bytes as its frames have samples, two bytes to
/// each; one without end has no length.
pub proof fn law_pcm_is_two_bytes_a_sample<S: SignalFn>(pcm: SignalPcm<S>)
    ensures
        pcm.byte_len() is None <==> pcm.length_of() is Infinite,
        pcm.length_of() matches SignalLength::Finite { total_frames } ==> (total_frames
            * pcm.channel_count() * 2 <= u64::MAX ==> pcm.byte_len()->0 == pcm_data(
            pcm.signal_of(),
            pcm.rate(),
            pcm.channel_count() as int,
            total_frames as int,
        ).len()),
{
    if let SignalLength::Finite { total_frames } = pcm.length_of() {
        assert(total_frames * pcm.channel_count() * 2 >= 0) by (nonlinear_arith)
            requires
                total_frames >= 0,
                pcm.channel_count() >= 0,
        ;
    }
}

} // verus!
