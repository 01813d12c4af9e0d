//! The pipeline as one owned object: the two links and the filter stage
//! between them.
//!
//! Nothing here waits. A generator offers a sample and is told whether the
//! link took it; the filter stage is run for one step and tells whether it
//! moved a sample; the output stage takes the next published sample if one
//! is ready. A task that is turned away suspends and tries again later.

use vstd::prelude::*;
use crate::filter::{capacity_of, held, mean, FilterStage};
use crate::link::{
    after_receive, after_send, has_room, receive_outcome, send_outcome, PublishLink, SampleLink,
};
use crate::sample::{PublishedSample, RawSample, SignalKind};

verus! {

/// The values of one waveform among a run of raw samples, in order.
pub open spec fn values_of(raws: Seq<RawSample>, kind: SignalKind) -> Seq<u32>
    decreases raws.len(),
{
    if raws.len() == 0 {
        Seq::empty()
    } else if raws.last().spec_kind() == kind {
        values_of(raws.drop_last(), kind).push(raws.last().spec_value())
    } else {
        values_of(raws.drop_last(), kind)
    }
}

/// What the filter stage publishes for the sample at `index` of a run: the
/// sample's own value, and the mean of what the history of its waveform
/// holds once the sample is written.
pub open spec fn published_at(raws: Seq<RawSample>, index: int) -> PublishedSample
    recommends
        0 <= index < raws.len(),
{
    let sample = raws[index];
    let filtered = mean(
        held(values_of(raws.take(index + 1), sample.spec_kind()), capacity_of(sample.spec_kind())),
    );
    match sample {
        RawSample::Sine(value) => PublishedSample::Sine(value, filtered),
        RawSample::Square(value) => PublishedSample::Square(value, filtered),
    }
}

/// What the filter stage publishes for a whole run, sample by sample.
pub open spec fn filtered(raws: Seq<RawSample>) -> Seq<PublishedSample> {
    Seq::new(raws.len(), |index: int| published_at(raws, index))
}

/// A sample that the filter stage holds back, as a run of none or one.
pub open spec fn held_back_run(held_back: Option<PublishedSample>) -> Seq<PublishedSample> {
    match held_back {
        Some(sample) => seq![sample],
        None => Seq::empty(),
    }
}

/// How one step of the filter stage went.
#[derive(Clone, Copy, Debug, PartialEq, Eq, Structural)]
pub enum FilterProgress {
    /// A published sample went into the publish link.
    Moved,
    /// No raw sample waits and none is held back: the stage has nothing to
    /// do until a generator sends.
    Idle,
    /// The publish link is full. The stage holds one published sample back
    /// until the output stage has made room.
    Stalled,
}

/// The links and the filter stage.
pub struct Pipeline {
    samples: SampleLink,
    published: PublishLink,
    filter: FilterStage,
    held_back: Option<PublishedSample>,
    accepted: Ghost<Seq<RawSample>>,
    delivered: Ghost<Seq<PublishedSample>>,
}

impl Pipeline {
    /// Every raw sample that the pipeline has taken from a generator, in the
    /// order of arrival.
    pub closed spec fn accepted(&self) -> Seq<RawSample> {
        self.accepted@
    }

    /// Every published sample that the output stage has taken, in order.
    pub closed spec fn delivered(&self) -> Seq<PublishedSample> {
        self.delivered@
    }

    /// The raw samples that wait for the filter stage, oldest first.
    pub closed spec fn waiting(&self) -> Seq<RawSample> {
        self.samples.queue()
    }

    /// The published samples that wait for the output stage, oldest first.
    pub closed spec fn ready(&self) -> Seq<PublishedSample> {
        self.published.queue()
    }

    /// The published sample that the filter stage holds back, if any.
    pub closed spec fn held_back(&self) -> Option<PublishedSample> {
        self.held_back
    }

    /// The raw values of one waveform that the filter stage has taken.
    pub closed spec fn history(&self, kind: SignalKind) -> Seq<u32> {
        self.filter.history(kind)
    }

    /// The filter stage's own invariant.
    pub closed spec fn filter_wf(&self) -> bool {
        self.filter.wf()
    }

    /// Everything that has left the filter stage, in order: what the output
    /// stage took, what waits for it, and what is held back.
    pub open spec fn emitted(&self) -> Seq<PublishedSample> {
        self.delivered() + self.ready() + held_back_run(self.held_back())
    }

    /// The published sample that the next step of the filter stage has in
    /// hand: the one held back, or else what the stage publishes for the
    /// oldest raw sample that waits.
    pub open spec fn in_hand(&self) -> Option<PublishedSample> {
        if self.held_back().is_some() {
            self.held_back()
        } else if self.waiting().len() > 0 {
            Some(published_at(self.accepted(), self.accepted().len() - self.waiting().len()))
        } else {
            None
        }
    }

    /// How the next step of the filter stage will go.
    pub open spec fn next_progress(&self) -> FilterProgress {
        if self.in_hand().is_none() {
            FilterProgress::Idle
        } else if has_room(self.ready()) {
            FilterProgress::Moved
        } else {
            FilterProgress::Stalled
        }
    }

    /// Nothing is lost, doubled or overtaken: the samples that wait are the
    /// accepted ones that the filter stage has not taken yet, and what has
    /// left the filter stage is what it publishes for the ones it has taken.
    /// No link holds more than four.
    pub open spec fn wf(&self) -> bool {
        let taken = self.accepted().len() - self.waiting().len();
        &&& self.filter_wf()
        &&& self.waiting().len() <= 4
        &&& self.ready().len() <= 4
        &&& 0 <= taken
        &&& self.waiting() == self.accepted().skip(taken)
        &&& self.emitted() == filtered(self.accepted()).take(taken)
        &&& self.history(SignalKind::Sine) == values_of(
            self.accepted().take(taken),
            SignalKind::Sine,
        )
        &&& self.history(SignalKind::Square) == values_of(
            self.accepted().take(taken),
            SignalKind::Square,
        )
    }

    /// A pipeline through which nothing has gone.
    pub fn new() -> (p: Pipeline)
        ensures
            p.wf(),
            p.accepted() == Seq::<RawSample>::empty(),
            p.delivered() == Seq::<PublishedSample>::empty(),
            p.waiting() == Seq::<RawSample>::empty(),
            p.ready() == Seq::<PublishedSample>::empty(),
            p.held_back().is_none(),
    {
        let p = Pipeline {
            samples: SampleLink::new(),
            published: PublishLink::new(),
            filter: FilterStage::new(),
            held_back: None,
            accepted: Ghost(Seq::empty()),
            delivered: Ghost(Seq::empty()),
        };
        proof {
            assert(p.waiting() =~= p.accepted().skip(0));
            assert(p.emitted() =~= filtered(p.accepted()).take(0));
            assert(p.accepted().take(0) =~= Seq::<RawSample>::empty());
        }
        p
    }

    /// A generator's send. Where four raw samples wait already the sample
    /// comes back and nothing changes; else it waits behind the others.
    pub fn offer(&mut self, sample: RawSample) -> (r: Result<(), RawSample>)
        requires
            old(self).wf(),
        ensures
            final(self).wf(),
            r == send_outcome(old(self).waiting(), sample),
            final(self).waiting() == after_send(old(self).waiting(), sample),
            final(self).accepted() == if has_room(old(self).waiting()) {
                old(self).accepted().push(sample)
            } else {
                old(self).accepted()
            },
            final(self).delivered() == old(self).delivered(),
            final(self).ready() == old(self).ready(),
            final(self).held_back() == old(self).held_back(),
    {
        let r = self.samples.send(sample);
        if r.is_ok() {
            proof {
                let before = self.accepted@;
                let after = before.push(sample);
                let taken = before.len() - old(self).waiting().len();
                lemma_filtered_prefix(after, before.len() as int);
                assert(after.take(before.len() as int) =~= before);
                assert(filtered(after).take(taken) =~= filtered(before).take(taken));
                assert(after.take(taken) =~= before.take(taken));
                assert(after.skip(taken) =~= before.skip(taken).push(sample));
            }
            self.accepted = Ghost(self.accepted@.push(sample));
        }
        r
    }

    /// One step of the filter stage. A sample that is held back goes first;
    /// else the oldest waiting raw sample is taken and filtered. The result
    /// goes into the publish link, or is held back where that link is full.
    pub fn run_filter(&mut self) -> (progress: FilterProgress)
        requires
            old(self).wf(),
        ensures
            final(self).wf(),
            final(self).accepted() == old(self).accepted(),
            final(self).delivered() == old(self).delivered(),
            progress == old(self).next_progress(),
            final(self).waiting() == if old(self).held_back().is_some() {
                old(self).waiting()
            } else {
                after_receive(old(self).waiting())
            },
            final(self).ready() == if progress == FilterProgress::Moved {
                old(self).ready().push(old(self).in_hand().unwrap())
            } else {
                old(self).ready()
            },
            final(self).held_back() == if progress == FilterProgress::Stalled {
                old(self).in_hand()
            } else {
                None
            },
    {
        let out: PublishedSample = match self.held_back {
            Some(sample) => sample,
            None => {
                match self.samples.receive() {
                    None => {
                        return FilterProgress::Idle;
                    },
                    Some(raw) => {
                        let ghost taken = self.accepted@.len() - old(self).waiting().len();
                        proof {
                            let all = self.accepted@;
                            assert(raw == all[taken]);
                            assert(all.take(taken + 1).drop_last() =~= all.take(taken));
                            assert(all.skip(taken).drop_first() =~= all.skip(taken + 1));
                        }
                        let out = self.filter.process(raw);
                        proof {
                            let all = self.accepted@;
                            assert(out == published_at(all, taken));
                            assert(filtered(all).take(taken + 1) =~= filtered(all).take(taken).push(
                                out,
                            ));
                            assert forall|kind: SignalKind|
                                self.filter.history(kind) == values_of(
                                    all.take(taken + 1),
                                    kind,
                                ) by {
                                if kind != raw.spec_kind() {
                                    assert(self.filter.history(kind) == old(self).filter.history(
                                        kind,
                                    ));
                                }
                            }
                        }
                        out
                    },
                }
            },
        };
        match self.published.send(out) {
            Ok(()) => {
                self.held_back = None;
                proof {
                    assert(self.emitted() =~= self.delivered() + old(self).ready() + seq![out]);
                }
                FilterProgress::Moved
            },
            Err(back) => {
                self.held_back = Some(back);
                proof {
                    assert(self.emitted() =~= self.delivered() + old(self).ready() + seq![out]);
                }
                FilterProgress::Stalled
            },
        }
    }

    /// The output stage's receive: the oldest published sample that is
    /// ready, if there is one. It is what the filter stage publishes for the
    /// accepted sample of the same rank.
    pub fn take(&mut self) -> (r: Option<PublishedSample>)
        requires
            old(self).wf(),
        ensures
            final(self).wf(),
            r == receive_outcome(old(self).ready()),
            final(self).ready() == after_receive(old(self).ready()),
            final(self).accepted() == old(self).accepted(),
            final(self).waiting() == old(self).waiting(),
            final(self).held_back() == old(self).held_back(),
            match r {
                Some(sample) => {
                    &&& old(self).delivered().len() < old(self).accepted().len()
                    &&& sample == published_at(
                        old(self).accepted(),
                        old(self).delivered().len() as int,
                    )
                    &&& final(self).delivered() == old(self).delivered().push(sample)
                },
                None => final(self).delivered() == old(self).delivered(),
            },
    {
        let r = self.published.receive();
        match r {
            Some(sample) => {
                proof {
                    let before = old(self).emitted();
                    let rank = old(self).delivered().len() as int;
                    assert(before[rank] == sample);
                    assert(self.delivered@.push(sample) + old(self).ready().drop_first()
                        + held_back_run(self.held_back) =~= before);
                }
                self.delivered = Ghost(self.delivered@.push(sample));
            },
            None => {},
        }
        r
    }
}

/// What the filter stage publishes for a sample depends on the samples up to
/// it alone.
pub proof fn lemma_filtered_prefix(raws: Seq<RawSample>, length: int)
    requires
        0 <= length <= raws.len(),
    ensures
        filtered(raws.take(length)) == filtered(raws).take(length),
{
    assert forall|index: int| 0 <= index < length implies published_at(raws.take(length), index)
        == published_at(raws, index) by {
        assert(raws.take(length).take(index + 1) =~= raws.take(index + 1));
    }
    assert(filtered(raws.take(length)) =~= filtered(raws).take(length));
}

} // verus!
