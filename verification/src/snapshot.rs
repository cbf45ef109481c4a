//! The beat artifact of a published analysis.

use crate::coverage::FrameRange;
use vstd::prelude::*;

verus! {

/// Whether a grid can still change.
#[derive(Clone, Copy, Debug, PartialEq, Eq, Structural)]
#[non_exhaustive]
pub enum GridState {
    /// Coverage is incomplete or the extent is unknown: a later revision may
    /// move the markers.
    Provisional,
    /// The whole source extent is covered.
    Final,
}

/// A grid of beat markers in source frames. A marker that a detector saw has a
/// confidence, as the bit pattern of its 32-bit float; an extrapolated one has
/// none.
#[derive(Debug)]
pub struct BeatGrid {
    pub beats: Vec<u64>,
    pub beat_confidence: Vec<Option<u32>>,
    pub downbeats: Vec<u64>,
    pub downbeat_confidence: Vec<Option<u32>>,
}

/// The confidences that are there, in order.
pub open spec fn detected(confidence: Seq<Option<u32>>) -> Seq<u32>
    decreases confidence.len(),
{
    if confidence.len() == 0 {
        Seq::empty()
    } else {
        match confidence.last() {
            Some(bits) => detected(confidence.drop_last()).push(bits),
            None => detected(confidence.drop_last()),
        }
    }
}

impl BeatGrid {
    /// The confidences of the markers that a detector saw: beats first, then
    /// downbeats.
    pub open spec fn confidences(&self) -> Seq<u32> {
        detected(self.beat_confidence@) + detected(self.downbeat_confidence@)
    }

    /// The confidences of the markers that a detector saw: beats first, then
    /// downbeats. An extrapolated marker has none to add.
    pub fn detected_confidences(&self) -> (confidences: Vec<u32>)
        ensures
            confidences@ == self.confidences(),
    {
        let mut out: Vec<u32> = Vec::new();
        push_detected(&mut out, &self.beat_confidence);
        push_detected(&mut out, &self.downbeat_confidence);
        out
    }
}

/// Append the confidences that are there.
fn push_detected(out: &mut Vec<u32>, confidence: &Vec<Option<u32>>)
    ensures
        final(out)@ == old(out)@ + detected(confidence@),
{
    let ghost before = out@;
    let mut i: usize = 0;
    while i < confidence.len()
        invariant
            i <= confidence@.len(),
            out@ == before + detected(confidence@.take(i as int)),
        decreases confidence@.len() - i,
    {
        proof {
            assert(confidence@.take(i + 1).drop_last() =~= confidence@.take(i as int));
        }
        match confidence[i] {
            Some(bits) => out.push(bits),
            None => {},
        }
        i += 1;
    }
    assert(confidence@.take(confidence@.len() as int) =~= confidence@);
}

/// The beat artifact of one snapshot.
#[derive(Debug)]
#[non_exhaustive]
pub struct BeatSnapshot {
    grid: BeatGrid,
    state: GridState,
    unanalysed: Vec<FrameRange>,
    confidence: Option<u32>,
}

impl BeatSnapshot {
    pub closed spec fn grid_of(&self) -> BeatGrid {
        self.grid
    }

    pub closed spec fn state_of(&self) -> GridState {
        self.state
    }

    pub closed spec fn unanalysed_of(&self) -> Seq<FrameRange> {
        self.unanalysed@
    }

    pub closed spec fn confidence_of(&self) -> Option<u32> {
        self.confidence
    }

    /// A snapshot of `grid`, whose confidence is the `mean` over the markers
    /// that a detector saw.
    ///
    /// The mean rather than a median or a count above some threshold: a grid
    /// whose few weak markers matter should say so, and a threshold would
    /// re-encode a sensitivity the caller cannot see. Consumers wanting
    /// another reduction have the per-marker numbers.
    pub fn new<M: Fn(&Vec<u32>) -> u32>(
        grid: BeatGrid,
        state: GridState,
        unanalysed: Vec<FrameRange>,
        mean: M,
    ) -> (snapshot: Self)
        requires
            forall|confidences: &Vec<u32>|
                confidences@.len() > 0 ==> #[trigger] call_requires(mean, (confidences,)),
        ensures
            snapshot.grid_of() == grid,
            snapshot.state_of() == state,
            snapshot.unanalysed_of() == unanalysed@,
            grid.confidences().len() == 0 <==> snapshot.confidence_of() is None,
            snapshot.confidence_of() matches Some(bits) ==> exists|confidences: &Vec<u32>|
                #[trigger] confidences@ == grid.confidences() && call_ensures(
                    mean,
                    (confidences,),
                    bits,
                ),
    {
        let confidences = grid.detected_confidences();
        let confidence: Option<u32> = if confidences.len() == 0 {
            None
        } else {
            Some(mean(&confidences))
        };
        BeatSnapshot { grid, state, unanalysed, confidence }
    }

    /// How sure the detector was about this grid, over the markers it actually
    /// detected. `None` when it detected none: a grid built entirely by
    /// extrapolation, or one with no markers at all, has nothing to average,
    /// and zero would claim the detector looked and saw nothing.
    ///
    /// Independent of [`state`](Self::state): a final grid of weak markers is
    /// finished and unconvincing at once.
    pub fn confidence(&self) -> (confidence: Option<u32>)
        ensures
            confidence == self.confidence_of(),
    {
        self.confidence
    }

    pub fn grid(&self) -> (grid: &BeatGrid)
        ensures
            *grid == self.grid_of(),
    {
        &self.grid
    }

    pub fn state(&self) -> (state: GridState)
        ensures
            state == self.state_of(),
    {
        self.state
    }

    /// Source ranges the pass could not analyse, so the grid claims nothing
    /// about them.
    pub fn unanalysed(&self) -> (ranges: &[FrameRange])
        ensures
            ranges@ == self.unanalysed_of(),
    {
        self.unanalysed.as_slice()
    }
}

/// Every marker that a detector saw adds its confidence, an extrapolated one
/// adds nothing, and the order is that of the markers.
pub proof fn law_each_seen_marker_counts_once(
    before: Seq<Option<u32>>,
    marker: Option<u32>,
    after: Seq<Option<u32>>,
)
    ensures
        detected(before + after) == detected(before) + detected(after),
        detected(before.push(marker) + after) == detected(before) + (match marker {
            Some(bits) => seq![bits],
            None => Seq::empty(),
        }) + detected(after),
        detected(after).len() == 0 <==> forall|i: int|
            0 <= i < after.len() ==> #[trigger] after[i] is None,
{
    lemma_detected_joins(before, after);
    lemma_detected_joins(before.push(marker), after);
    assert(before.push(marker).drop_last() =~= before);
    lemma_detected_joins(Seq::empty(), after);
    lemma_none_detected(after);
    if marker is None {
        assert(detected(before.push(marker)) =~= detected(before) + Seq::<u32>::empty());
    } else {
        assert(detected(before.push(marker)) =~= detected(before) + seq![marker->0]);
    }
}

proof fn lemma_detected_joins(before: Seq<Option<u32>>, after: Seq<Option<u32>>)
    ensures
        detected(before + after) == detected(before) + detected(after),
    decreases after.len(),
{
    if after.len() == 0 {
        assert(before + after =~= before);
        assert(detected(before) + detected(after) =~= detected(before));
    } else {
        assert((before + after).drop_last() =~= before + after.drop_last());
        lemma_detected_joins(before, after.drop_last());
        assert(detected(before + after) =~= detected(before) + detected(after));
    }
}

proof fn lemma_none_detected(confidence: Seq<Option<u32>>)
    ensures
        detected(confidence).len() == 0 <==> forall|i: int|
            0 <= i < confidence.len() ==> #[trigger] confidence[i] is None,
    decreases confidence.len(),
{
    if confidence.len() > 0 {
        let rest = confidence.drop_last();
        lemma_none_detected(rest);
        assert(forall|i: int| 0 <= i < rest.len() ==> #[trigger] rest[i] == confidence[i]);
        if confidence.last() is Some {
            assert(confidence[confidence.len() - 1] is Some);
        }
        if detected(confidence).len() == 0 {
            assert forall|i: int| 0 <= i < confidence.len() implies #[trigger] confidence[i] is None by {
                if i < rest.len() {
                    assert(rest[i] is None);
                }
            }
        } else if confidence.last() is None {
            let i = choose|i: int| 0 <= i < rest.len() && #[trigger] rest[i] is Some;
            assert(confidence[i] is Some);
        }
    }
}

/// The beats of a grid come first and its downbeats behind them.
pub proof fn law_beats_come_first(grid: BeatGrid)
    ensures
        grid.confidences() == detected(grid.beat_confidence@ + grid.downbeat_confidence@),
{
    lemma_detected_joins(grid.beat_confidence@, grid.downbeat_confidence@);
}

} // verus!
