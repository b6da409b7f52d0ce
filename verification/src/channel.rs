//! The cross-core state hand-off buffer.
//!
//! One [`Channel`] holds one [`StripSet`]. The command-processing side
//! overwrites it whole with [`Channel::publish`]; the strip-feeding side
//! copies it whole with [`Channel::snapshot`]. Both operations act on the
//! entire set at once, so an observer never sees a torn mix of old and new
//! matrices. The mutual exclusion that serializes the two sides around one
//! shared `Channel` is the caller's concern; the channel itself only defines
//! what each operation does to the buffered state.

use vstd::prelude::*;

use crate::ws2812b::MatrixView;
use crate::ws2812b::StripSet;
use crate::ws2812b::set_wf;
use crate::ws2812b::zero_set;

verus! {

/// The hand-off buffer: the most recently published strip set.
#[derive(Debug)]
pub struct Channel {
    /// The buffered strip set.
    set: StripSet,
}

impl View for Channel {
    type V = Seq<MatrixView>;

    closed spec fn view(&self) -> Seq<MatrixView> {
        self.set@
    }
}

impl Channel {
    /// A well-formed channel buffers a well-formed strip set.
    pub open spec fn wf(self) -> bool {
        set_wf(self@)
    }

    /// Creates a channel holding the all-zero strip set, so a feeder that
    /// starts before the first publish never observes uninitialized state.
    pub fn new() -> (c: Self)
        ensures
            c@ == zero_set(),
            c.wf(),
    {
        Channel { set: StripSet::zero() }
    }

    /// Publish: overwrite the entire buffered strip set with a full copy of
    /// `state`. Never a partial merge.
    pub fn publish(&mut self, state: &StripSet)
        ensures
            final(self)@ == state@,
    {
        self.set = state.clone();
    }

    /// Snapshot: copy the entire buffered strip set out, leaving the
    /// channel unchanged.
    pub fn snapshot(&self) -> (s: StripSet)
        ensures
            s@ == self@,
    {
        self.set.clone()
    }
}

/// A publish followed by a snapshot, with no publish in between, yields a
/// strip set deep-equal to the one last published: `published` is the set a
/// publish wrote into a channel (so the channel's value is `published`),
/// `snapped` is what a later snapshot of that unchanged channel copied out
/// (so it equals the channel's value), and therefore `snapped` is exactly
/// the published set.
pub proof fn lemma_publish_then_snapshot(
    published: Seq<MatrixView>,
    channel: Seq<MatrixView>,
    snapped: Seq<MatrixView>,
)
    requires
        channel == published,
        snapped == channel,
    ensures
        snapped == published,
{
}

} // verus!
