//! Pooled PCM buffers.

use vstd::prelude::*;

verus! {

/// A buffer that its pool did not let grow any further.
#[derive(Clone, Copy, Debug, PartialEq, Eq, Structural)]
pub struct BudgetExhausted;

/// A pool of PCM buffers, none of which may outgrow the pool's budget.
#[derive(Clone, Copy, Debug, PartialEq, Eq, Structural)]
pub struct PcmPool {
    /// The samples one buffer may hold.
    pub limit: usize,
}

impl PcmPool {
    pub fn new(limit: usize) -> (pool: Self)
        ensures
            pool.limit == limit,
    {
        PcmPool { limit }
    }

    /// An empty buffer on this pool's budget.
    pub fn get(&self) -> (buf: PcmBuf)
        ensures
            buf@ == Seq::<u32>::empty(),
            buf.limit() == self.limit,
    {
        PcmBuf { data: Vec::new(), limit: self.limit }
    }
}

/// A buffer of samples, each as the bit pattern of its 32-bit float, which
/// grows only inside its pool's budget.
pub struct PcmBuf {
    data: Vec<u32>,
    limit: usize,
}

impl View for PcmBuf {
    type V = Seq<u32>;

    closed spec fn view(&self) -> Seq<u32> {
        self.data@
    }
}

impl PcmBuf {
    #[verifier::type_invariant]
    spec fn well_formed(self) -> bool {
        self.data@.len() <= self.limit
    }

    /// The samples the buffer may hold.
    pub closed spec fn limit(&self) -> usize {
        self.limit
    }

    /// The buffer's length is its view's, and stays inside the budget.
    pub fn len(&self) -> (len: usize)
        ensures
            len == self@.len(),
            len <= self.limit(),
    {
        proof {
            use_type_invariant(self);
        }
        self.data.len()
    }

    pub fn as_slice(&self) -> (samples: &[u32])
        ensures
            samples@ == self@,
    {
        self.data.as_slice()
    }

    pub fn clear(&mut self)
        ensures
            final(self)@ == Seq::<u32>::empty(),
            final(self).limit() == old(self).limit(),
    {
        self.data = Vec::new();
    }

    /// Grow to at least `len` samples, zero-filled, or leave the buffer as it
    /// is where its budget does not allow that.
    pub fn ensure_len(&mut self, len: usize) -> (grown: Result<(), BudgetExhausted>)
        ensures
            final(self).limit() == old(self).limit(),
            grown is Ok <==> len <= old(self).limit(),
            grown is Ok ==> final(self)@ == grow_to(old(self)@, len as int),
            grown is Err ==> final(self)@ == old(self)@,
    {
        proof {
            use_type_invariant(&*self);
        }
        if len > self.limit {
            return Err(BudgetExhausted);
        }
        let ghost before = self.data@;
        let mut data: Vec<u32> = Vec::new();
        core::mem::swap(&mut data, &mut self.data);
        while data.len() < len
            invariant
                before.len() <= data@.len(),
                data@ == grow_to(before, data@.len() as int),
                data@.len() <= if before.len() < len {
                    len as int
                } else {
                    before.len() as int
                },
            decreases len - data@.len(),
        {
            data.push(0);
        }
        assert(data@ == grow_to(before, len as int));
        self.data = data;
        Ok(())
    }

    /// Keep the first `len` samples, or all where there are fewer.
    pub fn truncate(&mut self, len: usize)
        ensures
            final(self).limit() == old(self).limit(),
            final(self)@ == cut_to(old(self)@, len as int),
    {
        proof {
            use_type_invariant(&*self);
        }
        let ghost before = self.data@;
        let mut data: Vec<u32> = Vec::new();
        core::mem::swap(&mut data, &mut self.data);
        data.truncate(len);
        assert(data@ == cut_to(before, len as int));
        self.data = data;
    }

    /// Drop the first `count` samples.
    pub fn drop_front(&mut self, count: usize)
        requires
            count <= old(self)@.len(),
        ensures
            final(self).limit() == old(self).limit(),
            final(self)@ == old(self)@.skip(count as int),
    {
        proof {
            use_type_invariant(&*self);
        }
        let ghost before = self.data@;
        let mut data: Vec<u32> = Vec::new();
        core::mem::swap(&mut data, &mut self.data);
        let tail = data.split_off(count);
        assert(tail@ == before.skip(count as int));
        self.data = tail;
    }

    /// Append `samples` where they fit the budget as a whole; otherwise none
    /// of them.
    pub fn append(&mut self, samples: &[u32])
        ensures
            final(self).limit() == old(self).limit(),
            final(self)@ == append_within(old(self)@, samples@, old(self).limit() as int),
    {
        proof {
            use_type_invariant(&*self);
        }
        let ghost before = self.data@;
        let at: usize = self.data.len();
        if samples.len() > self.limit - at {
            return;
        }
        let mut data: Vec<u32> = Vec::new();
        core::mem::swap(&mut data, &mut self.data);
        data.extend_from_slice(samples);
        assert(data@ == before + samples@);
        self.data = data;
    }

    /// Take the samples out, leaving the buffer empty.
    pub(crate) fn take_samples(&mut self) -> (samples: Vec<u32>)
        ensures
            samples@ == old(self)@,
            samples@.len() <= old(self).limit(),
            final(self)@ == Seq::<u32>::empty(),
            final(self).limit() == old(self).limit(),
    {
        proof {
            use_type_invariant(&*self);
        }
        let mut samples: Vec<u32> = Vec::new();
        core::mem::swap(&mut samples, &mut self.data);
        samples
    }

    /// Put samples in the place of those held.
    pub(crate) fn put_samples(&mut self, samples: Vec<u32>)
        requires
            samples@.len() <= old(self).limit(),
        ensures
            final(self)@ == samples@,
            final(self).limit() == old(self).limit(),
    {
        self.data = samples;
    }

    /// Truncate or zero-extend to `expected` samples; a length outside the
    /// budget leaves the buffer as it is.
    pub fn pad(&mut self, expected: usize)
        ensures
            final(self).limit() == old(self).limit(),
            final(self)@ == padded(old(self)@, expected as int, old(self).limit() as int),
    {
        if self.len() > expected {
            self.truncate(expected);
        } else {
            let _ = self.ensure_len(expected);
        }
    }
}

/// `samples`, followed by silence up to `len` samples.
pub open spec fn grow_to(samples: Seq<u32>, len: int) -> Seq<u32> {
    if samples.len() < len {
        samples + Seq::new((len - samples.len()) as nat, |i: int| 0u32)
    } else {
        samples
    }
}

/// The first `len` of `samples`.
pub open spec fn cut_to(samples: Seq<u32>, len: int) -> Seq<u32> {
    if len < samples.len() {
        samples.take(len)
    } else {
        samples
    }
}

/// `samples` with `more` behind them, where `limit` allows it.
pub open spec fn append_within(samples: Seq<u32>, more: Seq<u32>, limit: int) -> Seq<u32> {
    if samples.len() + more.len() <= limit {
        samples + more
    } else {
        samples
    }
}

/// `samples` cut or extended to `expected`, where `limit` allows it.
pub open spec fn padded(samples: Seq<u32>, expected: int, limit: int) -> Seq<u32> {
    if expected < samples.len() {
        samples.take(expected)
    } else if expected <= limit {
        grow_to(samples, expected)
    } else {
        samples
    }
}

/// Padding keeps what is there up to the length that is asked for, and fills the
/// rest with silence. A length outside the budget can still shorten, but not
/// lengthen.
pub proof fn law_padding_keeps_what_is_there(samples: Seq<u32>, expected: int, limit: int, i: int)
    requires
        0 <= expected,
        samples.len() <= limit,
        0 <= i,
    ensures
        ({
            let out = padded(samples, expected, limit);
            &&& expected <= limit ==> out.len() == expected
            &&& expected > limit ==> out == samples
            &&& out.len() <= limit
            &&& i < out.len() && i < samples.len() ==> out[i] == samples[i]
            &&& samples.len() <= i < out.len() ==> out[i] == 0
            &&& padded(out, expected, limit) == out
        }),
{
    let out = padded(samples, expected, limit);
    assert(padded(out, expected, limit) =~= out);
}

/// Growing never shortens and cutting never lengthens; what one adds, the other
/// takes away again.
pub proof fn law_growing_and_cutting_undo_one_another(samples: Seq<u32>, len: int)
    requires
        0 <= len,
    ensures
        cut_to(grow_to(samples, len), samples.len() as int) == samples,
        samples.is_prefix_of(grow_to(samples, len)),
        cut_to(samples, len).is_prefix_of(samples),
        grow_to(samples, len).len() >= len,
        cut_to(samples, len).len() <= len,
        grow_to(samples, len).len() == samples.len() || grow_to(samples, len).len() == len,
        cut_to(samples, len).len() == samples.len() || cut_to(samples, len).len() == len,
        forall|i: int|
            samples.len() <= i < grow_to(samples, len).len() ==> #[trigger] grow_to(samples, len)[i]
                == 0,
{
    assert(cut_to(grow_to(samples, len), samples.len() as int) =~= samples);
}

/// A batch is appended whole where there is room for all of it, and not at all
/// where there is not.
pub proof fn law_a_batch_goes_in_whole_or_not_at_all(
    samples: Seq<u32>,
    more: Seq<u32>,
    limit: int,
)
    ensures
        ({
            let out = append_within(samples, more, limit);
            &&& samples.is_prefix_of(out)
            &&& samples.len() + more.len() <= limit ==> out.skip(samples.len() as int) == more
            &&& samples.len() + more.len() > limit ==> out == samples
            &&& samples.len() <= limit ==> out.len() <= limit
        }),
{
    let out = append_within(samples, more, limit);
    if samples.len() + more.len() <= limit {
        assert(out.skip(samples.len() as int) =~= more);
    }
}

} // verus!
