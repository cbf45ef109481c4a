//! Ranges of source frames, and the set of frames a pass has observed.

use vstd::prelude::*;

verus! {

/// A range of source frames: where it starts, and how many frames it holds.
///
/// The frame axis ends at `u64::MAX`; a range that would reach past it ends
/// there.
#[derive(Clone, Copy, Debug, PartialEq, Eq, Structural)]
pub struct FrameRange {
    pub start: u64,
    pub frames: u64,
}

impl FrameRange {
    /// The first frame past the range.
    pub open spec fn end_frame(self) -> int {
        if self.start + self.frames <= u64::MAX {
            self.start + self.frames
        } else {
            u64::MAX as int
        }
    }

    /// Whether `frame` lies in the range.
    pub open spec fn has(self, frame: int) -> bool {
        self.start <= frame < self.end_frame()
    }

    pub fn new(start: u64, frames: u64) -> (range: Self)
        ensures
            range == (FrameRange { start, frames }),
    {
        FrameRange { start, frames }
    }

    pub fn start(&self) -> (start: u64)
        ensures
            start == self.start,
    {
        self.start
    }

    pub fn frames(&self) -> (frames: u64)
        ensures
            frames == self.frames,
    {
        self.frames
    }

    pub fn end(&self) -> (end: u64)
        ensures
            end == self.end_frame(),
    {
        self.start.saturating_add(self.frames)
    }
}

/// Whether one of `runs` holds `frame`.
pub open spec fn covered(runs: Seq<FrameRange>, frame: int) -> bool {
    exists|i: int| 0 <= i < runs.len() && (#[trigger] runs[i]).has(frame)
}

/// Runs in the form a [`Coverage`] keeps them in: none is empty, they ascend,
/// and at least one uncovered frame lies between any two of them.
pub open spec fn separated(runs: Seq<FrameRange>) -> bool {
    &&& forall|i: int|
        0 <= i < runs.len() ==> 0 < (#[trigger] runs[i]).frames && runs[i].start + runs[i].frames
            <= u64::MAX
    &&& forall|i: int, j: int|
        0 <= i < j < runs.len() ==> (#[trigger] runs[i]).end_frame() < (#[trigger] runs[j]).start
}

/// The frames that `runs` hold between them.
pub open spec fn total_frames(runs: Seq<FrameRange>) -> int
    decreases runs.len(),
{
    if runs.len() == 0 {
        0
    } else {
        total_frames(runs.drop_last()) + runs.last().frames
    }
}

/// The first frame past all of `runs`.
pub open spec fn frontier_of(runs: Seq<FrameRange>) -> int {
    if runs.len() == 0 {
        0
    } else {
        runs.last().end_frame()
    }
}

/// Whether every frame of `range` is covered.
pub open spec fn holds(runs: Seq<FrameRange>, range: FrameRange) -> bool {
    forall|frame: int| range.has(frame) ==> covered(runs, frame)
}

/// Whether `after` covers what `runs` do and `range`, and nothing else, in
/// separated runs.
pub open spec fn is_union(
    runs: Seq<FrameRange>,
    range: FrameRange,
    after: Seq<FrameRange>,
) -> bool {
    &&& separated(after)
    &&& forall|frame: int|
        #[trigger] covered(after, frame) <==> covered(runs, frame) || range.has(frame)
}

/// The separated runs that cover what `runs` do and `range`.
pub open spec fn with_range(runs: Seq<FrameRange>, range: FrameRange) -> Seq<FrameRange> {
    choose|after: Seq<FrameRange>| is_union(runs, range, after)
}

/// Whether `gap` is one of the ranges that `runs` leave open below `extent`:
/// no frame of it is covered, and it reaches as far as that holds both ways.
pub open spec fn is_gap(runs: Seq<FrameRange>, extent: u64, gap: FrameRange) -> bool {
    &&& 0 < gap.frames
    &&& gap.start + gap.frames <= extent
    &&& forall|frame: int| #[trigger] gap.has(frame) ==> !covered(runs, frame)
    &&& gap.start == 0 || covered(runs, gap.start - 1)
    &&& gap.start + gap.frames == extent || covered(runs, gap.start + gap.frames)
}

/// There is one way to cover what `runs` do and `range` in separated runs.
pub proof fn lemma_union_is_unique(
    runs: Seq<FrameRange>,
    range: FrameRange,
    after: Seq<FrameRange>,
)
    requires
        is_union(runs, range, after),
    ensures
        after == with_range(runs, range),
{
    law_same_frames_same_runs(after, with_range(runs, range));
}

/// How many of `runs` lie before a range that none of them touches.
spec fn runs_before(runs: Seq<FrameRange>, range: FrameRange) -> int
    decreases runs.len(),
{
    if runs.len() == 0 {
        0
    } else if range.end_frame() < runs.last().start {
        runs_before(runs.drop_last(), range)
    } else {
        runs.len() as int
    }
}

proof fn lemma_runs_before(runs: Seq<FrameRange>, range: FrameRange)
    requires
        separated(runs),
        forall|i: int|
            0 <= i < runs.len() ==> (#[trigger] runs[i]).end_frame() < range.start
                || range.end_frame() < runs[i].start,
        range.start < range.end_frame(),
    ensures
        0 <= runs_before(runs, range) <= runs.len(),
        forall|i: int|
            0 <= i < runs_before(runs, range) ==> (#[trigger] runs[i]).end_frame() < range.start,
        forall|i: int|
            runs_before(runs, range) <= i < runs.len() ==> range.end_frame() < (
            #[trigger] runs[i]).start,
    decreases runs.len(),
{
    if runs.len() > 0 {
        let rest = runs.drop_last();
        assert(forall|i: int| 0 <= i < rest.len() ==> rest[i] == #[trigger] runs[i]);
        let last = runs[runs.len() - 1];
        if range.end_frame() < last.start {
            assert(forall|i: int| 0 <= i < rest.len() ==> #[trigger] rest[i] == runs[i]);
            lemma_runs_before(rest, range);
        } else {
            assert(forall|i: int|
                0 <= i < runs.len() - 1 ==> (#[trigger] runs[i]).end_frame() < runs.last().start);
        }
    }
}

/// Whatever separated runs there are, `range` can join them.
pub proof fn lemma_union_exists(runs: Seq<FrameRange>, range: FrameRange)
    requires
        separated(runs),
    ensures
        is_union(runs, range, with_range(runs, range)),
    decreases runs.len(),
{
    if range.end_frame() <= range.start {
        assert(is_union(runs, range, runs));
    } else if exists|i: int|
        0 <= i < runs.len() && (#[trigger] runs[i]).end_frame() >= range.start && range.end_frame()
            >= runs[i].start {
        let i = choose|i: int|
            0 <= i < runs.len() && (#[trigger] runs[i]).end_frame() >= range.start
                && range.end_frame() >= runs[i].start;
        let r = runs[i];
        let lo = if r.start < range.start {
            r.start
        } else {
            range.start
        };
        let hi = if r.end_frame() < range.end_frame() {
            range.end_frame()
        } else {
            r.end_frame()
        };
        let merged = FrameRange { start: lo, frames: (hi - lo) as u64 };
        let rest = runs.remove(i);
        assert(separated(rest));
        lemma_union_exists(rest, merged);
        let after = with_range(rest, merged);
        assert forall|frame: int| #[trigger] covered(after, frame) <==> covered(runs, frame)
            || range.has(frame) by {
            if covered(runs, frame) {
                let k = choose|k: int| 0 <= k < runs.len() && (#[trigger] runs[k]).has(frame);
                if k < i {
                    assert(rest[k].has(frame));
                } else if k > i {
                    assert(rest[k - 1].has(frame));
                }
            }
            if covered(rest, frame) {
                let k = choose|k: int| 0 <= k < rest.len() && (#[trigger] rest[k]).has(frame);
                if k < i {
                    assert(runs[k].has(frame));
                } else {
                    assert(runs[k + 1].has(frame));
                }
            }
            if merged.has(frame) && !range.has(frame) {
                assert(runs[i].has(frame));
            }
        }
        assert(is_union(runs, range, after));
    } else {
        lemma_runs_before(runs, range);
        let k = runs_before(runs, range);
        let new = FrameRange { start: range.start, frames: (range.end_frame() - range.start) as u64 };
        let after = runs.insert(k, new);
        assert forall|i: int, j: int| 0 <= i < j < after.len() implies (
        #[trigger] after[i]).end_frame() < (#[trigger] after[j]).start by {
            if i < k && k < j {
                assert(runs[i].end_frame() < runs[j - 1].start);
            } else if k < i {
                assert(runs[i - 1].end_frame() < runs[j - 1].start);
            }
        }
        assert forall|frame: int| #[trigger] covered(after, frame) <==> covered(runs, frame)
            || range.has(frame) by {
            if covered(runs, frame) {
                let i = choose|i: int| 0 <= i < runs.len() && (#[trigger] runs[i]).has(frame);
                assert(after[if i < k {
                    i
                } else {
                    i + 1
                }].has(frame));
            }
            if covered(after, frame) {
                let i = choose|i: int| 0 <= i < after.len() && (#[trigger] after[i]).has(frame);
                if i < k {
                    assert(runs[i].has(frame));
                } else if i > k {
                    assert(runs[i - 1].has(frame));
                }
            }
            if range.has(frame) {
                assert(after[k].has(frame));
            }
        }
        assert(is_union(runs, range, after));
    }
}

/// Runs that hold no frame past `limit` hold no more than `limit` frames.
proof fn lemma_total_bounded(runs: Seq<FrameRange>)
    requires
        separated(runs),
    ensures
        0 <= total_frames(runs),
        runs.len() > 0 ==> total_frames(runs) <= runs.last().end_frame(),
        runs.len() == 0 ==> total_frames(runs) == 0,
    decreases runs.len(),
{
    if runs.len() > 0 {
        let rest = runs.drop_last();
        assert(separated(rest)) by {
            assert forall|i: int, j: int| 0 <= i < j < rest.len() implies (
            #[trigger] rest[i]).end_frame() < (#[trigger] rest[j]).start by {
                assert(runs[i].end_frame() < runs[j].start);
            }
            assert forall|i: int| 0 <= i < rest.len() implies 0 < (#[trigger] rest[i]).frames
                && rest[i].start + rest[i].frames <= u64::MAX by {
                assert(0 < runs[i].frames);
            }
        }
        lemma_total_bounded(rest);
        if rest.len() > 0 {
            assert(runs[rest.len() - 1].end_frame() < runs[rest.len() as int].start);
        }
    }
}

/// Two gaps that share a frame are the same gap.
proof fn lemma_gap_unique(runs: Seq<FrameRange>, extent: u64, a: FrameRange, b: FrameRange, f: int)
    requires
        is_gap(runs, extent, a),
        is_gap(runs, extent, b),
        a.has(f),
        b.has(f),
    ensures
        a == b,
{
    if a.start < b.start {
        assert(a.has(b.start - 1));
    }
    if b.start < a.start {
        assert(b.has(a.start - 1));
    }
    if a.start + a.frames < b.start + b.frames {
        assert(b.has(a.start + a.frames));
    }
    if b.start + b.frames < a.start + a.frames {
        assert(a.has(b.start + b.frames));
    }
}

/// The frames that `runs` cover, as a set.
pub open spec fn frame_set(runs: Seq<FrameRange>) -> Set<int> {
    Set::new(|frame: int| covered(runs, frame))
}

/// The frames of one range, as a set, are as many as the range says.
proof fn lemma_range_set(range: FrameRange)
    requires
        range.start + range.frames <= u64::MAX,
    ensures
        Set::new(|frame: int| range.has(frame)).finite(),
        Set::new(|frame: int| range.has(frame)).len() == range.frames,
{
    let lo = range.start as int;
    let hi = range.start + range.frames;
    vstd::set_lib::lemma_int_range(lo, hi);
    assert(Set::new(|frame: int| range.has(frame)) =~= vstd::set_lib::set_int_range(lo, hi));
}

/// A repeat or an overlap counts once: the frames a coverage reports are as
/// many as the distinct frames it covers.
pub proof fn law_frames_count_once(runs: Seq<FrameRange>)
    requires
        separated(runs),
    ensures
        frame_set(runs).finite(),
        frame_set(runs).len() == total_frames(runs),
    decreases runs.len(),
{
    if runs.len() == 0 {
        assert(frame_set(runs) =~= Set::empty());
    } else {
        let rest = runs.drop_last();
        let last = runs.last();
        assert forall|i: int, j: int| 0 <= i < j < rest.len() implies (
        #[trigger] rest[i]).end_frame() < (#[trigger] rest[j]).start by {
            assert(runs[i].end_frame() < runs[j].start);
        }
        assert forall|i: int| 0 <= i < rest.len() implies 0 < (#[trigger] rest[i]).frames
            && rest[i].start + rest[i].frames <= u64::MAX by {
            assert(0 < runs[i].frames);
        }
        law_frames_count_once(rest);
        lemma_range_set(last);
        let a = frame_set(rest);
        let b = Set::new(|frame: int| last.has(frame));
        assert(a.disjoint(b)) by {
            assert forall|f: int| a.contains(f) && b.contains(f) implies false by {
                let i = choose|i: int| 0 <= i < rest.len() && (#[trigger] rest[i]).has(f);
                assert(runs[i].end_frame() < runs[runs.len() - 1].start);
            }
        }
        vstd::set_lib::lemma_set_disjoint_lens(a, b);
        assert(frame_set(runs) =~= a.union(b)) by {
            assert forall|f: int| covered(runs, f) == (covered(rest, f) || last.has(f)) by {
                if covered(runs, f) {
                    let i = choose|i: int| 0 <= i < runs.len() && (#[trigger] runs[i]).has(f);
                    if i < rest.len() {
                        assert(rest[i].has(f));
                    }
                }
                if covered(rest, f) {
                    let i = choose|i: int| 0 <= i < rest.len() && (#[trigger] rest[i]).has(f);
                    assert(runs[i].has(f));
                }
                if last.has(f) {
                    assert(runs[runs.len() - 1].has(f));
                }
            }
        }
    }
}

/// Dropping the first run uncovers its frames and no others.
proof fn lemma_covered_tail(runs: Seq<FrameRange>, f: int)
    requires
        separated(runs),
        runs.len() > 0,
    ensures
        covered(runs.drop_first(), f) == (covered(runs, f) && !runs[0].has(f)),
        separated(runs.drop_first()),
{
    let rest = runs.drop_first();
    assert forall|i: int, j: int| 0 <= i < j < rest.len() implies (
    #[trigger] rest[i]).end_frame() < (#[trigger] rest[j]).start by {
        assert(runs[i + 1].end_frame() < runs[j + 1].start);
    }
    assert forall|i: int| 0 <= i < rest.len() implies 0 < (#[trigger] rest[i]).frames
        && rest[i].start + rest[i].frames <= u64::MAX by {
        assert(0 < runs[i + 1].frames);
    }
    if covered(rest, f) {
        let i = choose|i: int| 0 <= i < rest.len() && (#[trigger] rest[i]).has(f);
        assert(runs[i + 1].has(f));
        assert(runs[0].end_frame() < runs[i + 1].start);
    }
    if covered(runs, f) && !runs[0].has(f) {
        let i = choose|i: int| 0 <= i < runs.len() && (#[trigger] runs[i]).has(f);
        assert(rest[i - 1].has(f));
    }
}

/// A coverage does not remember how it came about: the same frames are the
/// same runs, in whatever order and from however many pieces they arrived.
pub proof fn law_same_frames_same_runs(a: Seq<FrameRange>, b: Seq<FrameRange>)
    requires
        separated(a),
        separated(b),
        forall|frame: int| covered(a, frame) == covered(b, frame),
    ensures
        a == b,
    decreases a.len(),
{
    if a.len() == 0 {
        if b.len() > 0 {
            assert(b[0].has(b[0].start as int));
            assert(covered(b, b[0].start as int));
        }
        assert(a =~= b);
    } else {
        assert(a[0].has(a[0].start as int));
        assert(covered(b, a[0].start as int));
        let k = choose|k: int| 0 <= k < b.len() && (#[trigger] b[k]).has(a[0].start as int);
        if k > 0 {
            assert(b[0].end_frame() < b[k].start);
        }
        assert(b[0].has(b[0].start as int));
        assert(covered(a, b[0].start as int));
        let l = choose|l: int| 0 <= l < a.len() && (#[trigger] a[l]).has(b[0].start as int);
        if l > 0 {
            assert(a[0].end_frame() < a[l].start);
        }
        assert(a[0].start == b[0].start);
        if a[0].frames < b[0].frames {
            let f = a[0].end_frame();
            assert(b[0].has(f));
            assert(covered(a, f));
            let m = choose|m: int| 0 <= m < a.len() && (#[trigger] a[m]).has(f);
            assert(a[0].end_frame() < a[m].start);
        }
        if b[0].frames < a[0].frames {
            let f = b[0].end_frame();
            assert(a[0].has(f));
            assert(covered(b, f));
            let m = choose|m: int| 0 <= m < b.len() && (#[trigger] b[m]).has(f);
            assert(b[0].end_frame() < b[m].start);
        }
        let rest_a = a.drop_first();
        let rest_b = b.drop_first();
        assert forall|f: int| covered(rest_a, f) == covered(rest_b, f) by {
            lemma_covered_tail(a, f);
            lemma_covered_tail(b, f);
        }
        lemma_covered_tail(a, 0);
        lemma_covered_tail(b, 0);
        law_same_frames_same_runs(rest_a, rest_b);
        assert(a =~= seq![a[0]] + rest_a);
        assert(b =~= seq![b[0]] + rest_b);
    }
}

/// The source frames a pass has observed, as maximal runs in ascending order.
#[derive(Debug)]
pub struct Coverage {
    runs: Vec<FrameRange>,
}

impl Coverage {
    #[verifier::type_invariant]
    spec fn well_formed(self) -> bool {
        separated(self.runs@)
    }

    /// The covered runs, in ascending order.
    pub closed spec fn runs(&self) -> Seq<FrameRange> {
        self.runs@
    }

    /// Whether `frame` has been observed.
    pub open spec fn covers(&self, frame: int) -> bool {
        covered(self.runs(), frame)
    }

    pub fn new() -> (coverage: Self)
        ensures
            coverage.runs() == Seq::<FrameRange>::empty(),
    {
        Coverage { runs: Vec::new() }
    }

    /// Observe `range`: afterwards its frames are covered, and no others than
    /// before.
    pub fn insert(&mut self, range: FrameRange)
        ensures
            is_union(old(self).runs(), range, final(self).runs()),
            final(self).runs() == with_range(old(self).runs(), range),
    {
        self.join(range);
        proof {
            lemma_union_is_unique(old(self).runs(), range, self.runs());
        }
    }

    /// Merge `range` with the runs it touches.
    fn join(&mut self, range: FrameRange)
        ensures
            is_union(old(self).runs(), range, final(self).runs()),
    {
        proof {
            use_type_invariant(&*self);
        }
        let start: u64 = range.start;
        let end: u64 = range.end();
        if start >= end {
            return;
        }
        let mut out: Vec<FrameRange> = Vec::new();
        let mut lo: u64 = start;
        let mut hi: u64 = end;
        let mut placed: bool = false;
        let ghost runs = self.runs@;
        let ghost mut seen = Seq::<FrameRange>::empty();
        let mut i: usize = 0;
        while i < self.runs.len()
            invariant
                i <= runs.len(),
                seen == runs.take(i as int),
                runs == self.runs@,
                separated(runs),
                start == range.start,
                end == range.end_frame(),
                separated(out@),
                lo <= start < end <= hi,
                forall|k: int, j: int|
                    0 <= k < out@.len() && i <= j < runs.len() ==> (#[trigger] out@[k]).end_frame()
                        < (#[trigger] runs[j]).start,
                !placed ==> forall|k: int|
                    0 <= k < out@.len() ==> (#[trigger] out@[k]).end_frame() < lo,
                placed ==> forall|j: int| i <= j < runs.len() ==> hi < (#[trigger] runs[j]).start,
                hi == end || exists|k: int| 0 <= k < i && (#[trigger] runs[k]).end_frame() == hi,
                forall|f: int|
                    #[trigger] folded(seen, range, f) == kept(
                        out@,
                        !placed,
                        lo as int,
                        hi as int,
                        f,
                    ),
            decreases runs.len() - i,
        {
            let r = self.runs[i];
            let ghost before = out@;
            let ghost was_placed = placed;
            let ghost lo0 = lo;
            let ghost hi0 = hi;
            assert(r == runs[i as int]);
            assert(forall|j: int| i < j < runs.len() ==> r.end_frame() < (#[trigger] runs[j]).start);
            if r.end() < lo {
                out.push(r);
            } else if hi < r.start {
                if !placed {
                    out.push(FrameRange { start: lo, frames: hi - lo });
                    placed = true;
                }
                out.push(r);
            } else {
                if r.start < lo {
                    lo = r.start;
                }
                if hi < r.end() {
                    hi = r.end();
                }
            }
            proof {
                let merged = FrameRange { start: lo0, frames: (hi0 - lo0) as u64 };
                let next = seen.push(r);
                assert forall|f: int|
                    #[trigger] folded(next, range, f) == kept(
                        out@,
                        !placed,
                        lo as int,
                        hi as int,
                        f,
                    ) by {
                    assert(folded(seen, range, f) == kept(
                        before,
                        !was_placed,
                        lo0 as int,
                        hi0 as int,
                        f,
                    ));
                    lemma_covered_push(seen, r, f);
                    if out@.len() == before.len() + 1 {
                        lemma_covered_push(before, r, f);
                    } else if out@.len() == before.len() + 2 {
                        lemma_covered_push(before, merged, f);
                        lemma_covered_push(before.push(merged), r, f);
                    }
                }
                seen = next;
                assert(seen =~= runs.take(i + 1));
            }
            i += 1;
        }
        let ghost before = out@;
        if !placed {
            out.push(FrameRange { start: lo, frames: hi - lo });
        }
        proof {
            assert(seen =~= runs);
            assert forall|f: int| covered(out@, f) == (covered(runs, f) || range.has(f)) by {
                assert(folded(seen, range, f) == kept(before, !placed, lo as int, hi as int, f));
                if !placed {
                    lemma_covered_push(
                        before,
                        FrameRange { start: lo, frames: (hi - lo) as u64 },
                        f,
                    );
                }
            }
        }
        self.runs = out;
    }

    /// Whether every frame of `range` is covered.
    pub fn contains(&self, range: FrameRange) -> (inside: bool)
        ensures
            inside == holds(self.runs(), range),
    {
        proof {
            use_type_invariant(self);
        }
        let start: u64 = range.start;
        let end: u64 = range.end();
        if start >= end {
            return true;
        }
        let ghost runs = self.runs@;
        for i in 0..self.runs.len()
            invariant
                runs == self.runs@,
                separated(runs),
                start == range.start,
                end == range.end_frame(),
                start < end,
                forall|k: int|
                    0 <= k < i ==> !((#[trigger] runs[k]).start <= start && end
                        <= runs[k].end_frame()),
        {
            let r = self.runs[i];
            if r.start <= start && end <= r.end() {
                assert forall|frame: int| range.has(frame) implies self.covers(frame) by {
                    assert(runs[i as int].has(frame));
                }
                return true;
            }
        }
        proof {
            if forall|frame: int| range.has(frame) ==> self.covers(frame) {
                assert(range.has(start as int));
                assert(self.covers(start as int));
                let i = choose|i: int|
                    0 <= i < runs.len() && (#[trigger] runs[i]).has(start as int);
                let f = runs[i].end_frame();
                assert(range.has(f));
                assert(self.covers(f));
                let j = choose|j: int| 0 <= j < runs.len() && (#[trigger] runs[j]).has(f);
                if j < i {
                    assert(runs[j].end_frame() < runs[i].start);
                } else if i < j {
                    assert(runs[i].end_frame() < runs[j].start);
                }
            }
        }
        false
    }

    /// Covered frames, counting an overlap or a repeat once.
    pub fn frames(&self) -> (frames: u64)
        ensures
            frames == total_frames(self.runs()),
            frame_set(self.runs()).finite(),
            frames == frame_set(self.runs()).len(),
    {
        proof {
            use_type_invariant(self);
            law_frames_count_once(self.runs@);
        }
        let mut sum: u64 = 0;
        let ghost runs = self.runs@;
        for i in 0..self.runs.len()
            invariant
                runs == self.runs@,
                separated(runs),
                sum == total_frames(runs.take(i as int)),
        {
            proof {
                let next = runs.take(i + 1);
                assert(next.drop_last() =~= runs.take(i as int));
                assert(separated(next)) by {
                    assert forall|a: int, b: int| 0 <= a < b < next.len() implies (
                    #[trigger] next[a]).end_frame() < (#[trigger] next[b]).start by {
                        assert(runs[a].end_frame() < runs[b].start);
                    }
                    assert forall|a: int| 0 <= a < next.len() implies 0 < (#[trigger] next[a]).frames
                        && next[a].start + next[a].frames <= u64::MAX by {
                        assert(0 < runs[a].frames);
                    }
                }
                lemma_total_bounded(next);
            }
            sum = sum + self.runs[i].frames;
        }
        assert(runs.take(runs.len() as int) =~= runs);
        sum
    }

    /// The first frame past everything covered.
    pub fn frontier(&self) -> (frontier: u64)
        ensures
            frontier == frontier_of(self.runs()),
            forall|frame: int| self.covers(frame) ==> frame < frontier,
            frontier == 0 || self.covers(frontier - 1),
    {
        proof {
            use_type_invariant(self);
        }
        if self.runs.len() == 0 {
            return 0;
        }
        let last: usize = self.runs.len() - 1;
        let ghost runs = self.runs@;
        assert forall|frame: int| self.covers(frame) implies frame < runs[last as int].end_frame() by {
            let i = choose|i: int| 0 <= i < runs.len() && (#[trigger] runs[i]).has(frame);
            if i < last {
                assert(runs[i].end_frame() < runs[last as int].start);
            }
        }
        assert(runs[last as int].has(runs[last as int].end_frame() - 1));
        self.runs[last].end()
    }

    /// The ranges below `extent` that are not covered, in ascending order.
    pub fn gaps(&self, extent: u64) -> (gaps: Vec<FrameRange>)
        ensures
            forall|i: int| 0 <= i < gaps@.len() ==> is_gap(self.runs(), extent, #[trigger] gaps@[i]),
            forall|i: int, j: int|
                0 <= i < j < gaps@.len() ==> (#[trigger] gaps@[i]).end_frame() < (
                #[trigger] gaps@[j]).start,
            forall|gap: FrameRange|
                #[trigger] is_gap(self.runs(), extent, gap) ==> gaps@.contains(gap),
    {
        proof {
            use_type_invariant(self);
        }
        let mut out: Vec<FrameRange> = Vec::new();
        let mut from: u64 = 0;
        let ghost runs = self.runs@;
        for i in 0..self.runs.len()
            invariant
                runs == self.runs@,
                separated(runs),
                from == (if i == 0 {
                    0int
                } else {
                    runs[i - 1].end_frame()
                }),
                forall|k: int| 0 <= k < out@.len() ==> is_gap(runs, extent, #[trigger] out@[k]),
                forall|k: int| 0 <= k < out@.len() ==> (#[trigger] out@[k]).end_frame() < from,
                forall|k: int, l: int|
                    0 <= k < l < out@.len() ==> (#[trigger] out@[k]).end_frame() < (
                    #[trigger] out@[l]).start,
                forall|f: int|
                    0 <= f < from && f < extent && !#[trigger] covered(runs, f) ==> covered(out@, f),
        {
            let r = self.runs[i];
            assert(r == runs[i as int]);
            let ghost before = out@;
            if i > 0 {
                assert(runs[i - 1].end_frame() < runs[i as int].start);
            }
            assert forall|f: int| from <= f < r.start implies !covered(runs, f) by {
                lemma_between_runs(runs, i as int, f);
            }
            if from < extent && from < r.start {
                let to: u64 = if r.start < extent {
                    r.start
                } else {
                    extent
                };
                let gap = FrameRange { start: from, frames: to - from };
                assert(r.start < extent ==> runs[i as int].has(to as int));
                if i > 0 {
                    assert(runs[i - 1].has(from - 1));
                }
                assert(is_gap(runs, extent, gap));
                out.push(gap);
            }
            proof {
                let gap = FrameRange {
                    start: from,
                    frames: ((if r.start < extent {
                        r.start
                    } else {
                        extent
                    }) - from) as u64,
                };
                assert forall|f: int|
                    0 <= f < r.end_frame() && f < extent && !#[trigger] covered(
                        runs,
                        f,
                    ) implies covered(out@, f) by {
                    if out@.len() > before.len() {
                        lemma_covered_push(before, gap, f);
                    }
                    if r.start <= f {
                        assert(runs[i as int].has(f));
                    }
                }
            }
            from = r.end();
        }
        let ghost before = out@;
        proof {
            assert forall|f: int| from <= f implies !covered(runs, f) by {
                lemma_between_runs(runs, runs.len() as int, f);
            }
        }
        if from < extent {
            let gap = FrameRange { start: from, frames: extent - from };
            if self.runs.len() > 0 {
                assert(runs[runs.len() - 1].has(from - 1));
            }
            assert(is_gap(runs, extent, gap));
            out.push(gap);
        }
        proof {
            let rest = FrameRange { start: from, frames: (extent - from) as u64 };
            assert forall|gap: FrameRange| #[trigger] is_gap(runs, extent, gap) implies out@.contains(
                gap,
            ) by {
                let f = gap.start as int;
                assert(gap.has(f));
                assert(!covered(runs, f));
                if out@.len() > before.len() {
                    lemma_covered_push(before, rest, f);
                }
                assert(covered(out@, f));
                let k = choose|k: int| 0 <= k < out@.len() && (#[trigger] out@[k]).has(f);
                lemma_gap_unique(runs, extent, gap, out@[k], f);
            }
        }
        out
    }

    /// A copy that covers the same frames in the same runs.
    pub fn duplicate(&self) -> (copy: Self)
        ensures
            separated(copy.runs()),
            copy.runs() == self.runs(),
    {
        proof {
            use_type_invariant(self);
        }
        let mut out: Vec<FrameRange> = Vec::new();
        for i in 0..self.runs.len()
            invariant
                out@ == self.runs@.take(i as int),
        {
            out.push(self.runs[i]);
        }
        assert(self.runs@.take(self.runs@.len() as int) =~= self.runs@);
        Coverage { runs: out }
    }
}

/// Whether `f` is covered once `range` has joined the runs seen so far.
spec fn folded(seen: Seq<FrameRange>, range: FrameRange, f: int) -> bool {
    covered(seen, f) || range.has(f)
}

/// Whether `f` is in what has been written out, or in the part still held.
spec fn kept(out: Seq<FrameRange>, holding: bool, lo: int, hi: int, f: int) -> bool {
    covered(out, f) || (holding && lo <= f < hi)
}

/// Appending a run adds its frames to those that are covered.
proof fn lemma_covered_push(runs: Seq<FrameRange>, run: FrameRange, f: int)
    ensures
        covered(runs.push(run), f) == (covered(runs, f) || run.has(f)),
{
    let all = runs.push(run);
    if covered(all, f) {
        let i = choose|i: int| 0 <= i < all.len() && (#[trigger] all[i]).has(f);
        if i < runs.len() {
            assert(runs[i].has(f));
        }
    }
    if covered(runs, f) {
        let i = choose|i: int| 0 <= i < runs.len() && (#[trigger] runs[i]).has(f);
        assert(all[i].has(f));
    }
    if run.has(f) {
        assert(all[runs.len() as int].has(f));
    }
}

/// No frame between two neighbouring runs is covered, none before the first
/// and none past the last.
proof fn lemma_between_runs(runs: Seq<FrameRange>, i: int, f: int)
    requires
        separated(runs),
        0 <= i <= runs.len(),
        i < runs.len() ==> f < runs[i].start,
        i > 0 ==> runs[i - 1].end_frame() <= f,
    ensures
        !covered(runs, f),
{
    if covered(runs, f) {
        let k = choose|k: int| 0 <= k < runs.len() && (#[trigger] runs[k]).has(f);
        if k >= i {
            if k > i {
                assert(runs[i].end_frame() < runs[k].start);
            }
        } else if k < i - 1 {
            assert(runs[k].end_frame() < runs[i - 1].start);
        }
    }
}

impl Default for Coverage {
    fn default() -> (coverage: Self)
        ensures
            coverage.runs() == Seq::<FrameRange>::empty(),
    {
        Coverage::new()
    }
}

/// A range holds as many frames as it says, from its start on, as far as the
/// axis goes.
pub proof fn law_a_range_holds_its_frames(range: FrameRange, frame: int)
    ensures
        range.start + range.frames <= u64::MAX ==> (range.has(frame) <==> range.start <= frame
            < range.start + range.frames),
        range.has(frame) ==> range.start <= frame < range.start + range.frames && frame < u64::MAX,
        range.frames == 0 ==> !range.has(frame),
{
}

/// A range is held exactly when observing it changes nothing; observing one
/// twice is observing it once, and the order of two does not matter.
#[verifier::rlimit(60)]
pub proof fn law_observing_again_changes_nothing(
    runs: Seq<FrameRange>,
    range: FrameRange,
    other: FrameRange,
)
    requires
        separated(runs),
    ensures
        holds(runs, range) <==> with_range(runs, range) == runs,
        with_range(with_range(runs, range), range) == with_range(runs, range),
        with_range(with_range(runs, range), other) == with_range(with_range(runs, other), range),
{
    let once = with_range(runs, range);
    let two = with_range(runs, other);
    lemma_union_exists(runs, range);
    lemma_union_exists(runs, other);
    if holds(runs, range) {
        assert(is_union(runs, range, runs));
        lemma_union_is_unique(runs, range, runs);
    }
    if once == runs {
        assert forall|frame: int| range.has(frame) implies covered(runs, frame) by {
            assert(covered(once, frame));
        }
    }
    assert(is_union(once, range, once));
    lemma_union_is_unique(once, range, once);
    lemma_union_exists(once, other);
    lemma_union_exists(two, range);
    let left = with_range(once, other);
    let right = with_range(two, range);
    assert forall|frame: int| covered(left, frame) == covered(right, frame) by {
        assert(covered(left, frame) <==> covered(once, frame) || other.has(frame));
        assert(covered(right, frame) <==> covered(two, frame) || range.has(frame));
        assert(covered(once, frame) <==> covered(runs, frame) || range.has(frame));
        assert(covered(two, frame) <==> covered(runs, frame) || other.has(frame));
    }
    law_same_frames_same_runs(left, right);
}

/// How far down the frames around a missing one are missing too.
proof fn lemma_missing_below(runs: Seq<FrameRange>, frame: int) -> (low: int)
    requires
        0 <= frame,
        !covered(runs, frame),
    ensures
        0 <= low <= frame,
        forall|f: int| low <= f <= frame ==> !#[trigger] covered(runs, f),
        low == 0 || covered(runs, low - 1),
    decreases frame,
{
    if frame == 0 || covered(runs, frame - 1) {
        frame
    } else {
        lemma_missing_below(runs, frame - 1)
    }
}

/// How far up the frames around a missing one are missing too.
proof fn lemma_missing_above(runs: Seq<FrameRange>, frame: int, extent: int) -> (high: int)
    requires
        frame < extent,
        !covered(runs, frame),
    ensures
        frame < high <= extent,
        forall|f: int| frame <= f < high ==> !#[trigger] covered(runs, f),
        high == extent || covered(runs, high),
    decreases extent - frame,
{
    if frame + 1 == extent || covered(runs, frame + 1) {
        frame + 1
    } else {
        lemma_missing_above(runs, frame + 1, extent)
    }
}

/// Every frame that is missing below the extent lies in one gap and no other,
/// and a gap holds missing frames only.
#[verifier::rlimit(60)]
pub proof fn law_every_missing_frame_lies_in_one_gap(
    runs: Seq<FrameRange>,
    extent: u64,
    frame: int,
    gap: FrameRange,
    other: FrameRange,
)
    ensures
        0 <= frame < extent && !covered(runs, frame) ==> exists|g: FrameRange| #[trigger]
            is_gap(runs, extent, g) && g.has(frame),
        is_gap(runs, extent, gap) && gap.has(frame) ==> 0 <= frame < extent && !covered(
            runs,
            frame,
        ),
        is_gap(runs, extent, gap) && is_gap(runs, extent, other) && gap.has(frame) && other.has(
            frame,
        ) ==> gap == other,
{
    if 0 <= frame < extent && !covered(runs, frame) {
        let low = lemma_missing_below(runs, frame);
        let high = lemma_missing_above(runs, frame, extent as int);
        let g = FrameRange { start: low as u64, frames: (high - low) as u64 };
        assert forall|f: int| #[trigger] g.has(f) implies !covered(runs, f) by {
            if f <= frame {
                assert(!covered(runs, f));
            } else {
                assert(!covered(runs, f));
            }
        }
        assert(is_gap(runs, extent, g) && g.has(frame));
    }
    if is_gap(runs, extent, gap) && is_gap(runs, extent, other) && gap.has(frame) && other.has(
        frame,
    ) {
        if gap.start < other.start {
            assert(gap.has(other.start - 1));
        }
        if other.start < gap.start {
            assert(other.has(gap.start - 1));
        }
        if gap.start + gap.frames < other.start + other.frames {
            assert(other.has(gap.start + gap.frames));
        }
        if other.start + other.frames < gap.start + gap.frames {
            assert(gap.has(other.start + other.frames));
        }
    }
}

/// The frontier is the first frame past everything covered: all that is covered
/// lies below it, and the frame before it is covered.
pub proof fn law_nothing_is_covered_past_the_frontier(runs: Seq<FrameRange>, frame: int)
    requires
        separated(runs),
    ensures
        covered(runs, frame) ==> frame < frontier_of(runs),
        runs.len() > 0 ==> covered(runs, frontier_of(runs) - 1),
        runs.len() == 0 ==> frontier_of(runs) == 0,
{
    if covered(runs, frame) {
        let i = choose|i: int| 0 <= i < runs.len() && (#[trigger] runs[i]).has(frame);
        if i < runs.len() - 1 {
            assert(runs[i].end_frame() < runs[runs.len() - 1].start);
        }
    }
    if runs.len() > 0 {
        assert(runs[runs.len() - 1].has(frontier_of(runs) - 1));
    }
}

} // verus!
