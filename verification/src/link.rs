//! The two bounded channels between the stages, as `embassy-sync` provides
//! them.
//!
//! A channel is known to the verifier by the messages that wait in it,
//! oldest first. Sending to a full channel hands the message back and leaves
//! the channel alone: the sender keeps the message and tries again once a
//! receiver has made room.

use vstd::prelude::*;
use embassy_sync::blocking_mutex::raw::NoopRawMutex;
use embassy_sync::channel::{Channel, TrySendError};
use crate::sample::{PublishedSample, RawSample};

verus! {

/// How many messages a channel holds.
pub const LINK_CAPACITY: usize = 4;

/// The channel that carries raw samples from the generators to the filter
/// stage: an `embassy_sync::channel::Channel` of four places.
#[verifier::external_body]
pub struct SampleLink {
    channel: Channel<NoopRawMutex, RawSample, 4>,
}

/// The channel that carries published samples from the filter stage to the
/// output stage: an `embassy_sync::channel::Channel` of four places.
#[verifier::external_body]
pub struct PublishLink {
    channel: Channel<NoopRawMutex, PublishedSample, 4>,
}

/// The raw samples that wait in a link, oldest first.
pub uninterp spec fn sample_queue(link: SampleLink) -> Seq<RawSample>;

/// The published samples that wait in a link, oldest first.
pub uninterp spec fn publish_queue(link: PublishLink) -> Seq<PublishedSample>;

/// Whether a send to this queue is taken.
pub open spec fn has_room<T>(queue: Seq<T>) -> bool {
    queue.len() < LINK_CAPACITY
}

/// The queue after a send: the message behind all others where there is
/// room, else the queue as it was.
pub open spec fn after_send<T>(queue: Seq<T>, message: T) -> Seq<T> {
    if has_room(queue) {
        queue.push(message)
    } else {
        queue
    }
}

/// What a send gives back: nothing where the message was taken, else the
/// message itself.
pub open spec fn send_outcome<T>(queue: Seq<T>, message: T) -> Result<(), T> {
    if has_room(queue) {
        Ok(())
    } else {
        Err(message)
    }
}

/// The queue after a receive: without its oldest message.
pub open spec fn after_receive<T>(queue: Seq<T>) -> Seq<T> {
    if queue.len() > 0 {
        queue.drop_first()
    } else {
        queue
    }
}

/// What a receive gives: the oldest message, if there is one.
pub open spec fn receive_outcome<T>(queue: Seq<T>) -> Option<T> {
    if queue.len() > 0 {
        Some(queue.first())
    } else {
        None
    }
}

/// `Channel::new`: a channel in which nothing waits.
#[verifier::external_body]
fn sample_link_new() -> (link: SampleLink)
    ensures
        sample_queue(link) == Seq::<RawSample>::empty(),
{
    SampleLink { channel: Channel::new() }
}

/// `Channel::try_send`: the message joins the queue at its end, unless four
/// messages wait already; then it comes back and the queue stays as it is.
#[verifier::external_body]
fn sample_link_send(link: &mut SampleLink, message: RawSample) -> (r: Result<(), RawSample>)
    ensures
        r == send_outcome(sample_queue(*old(link)), message),
        sample_queue(*final(link)) == after_send(sample_queue(*old(link)), message),
{
    match link.channel.try_send(message) {
        Ok(()) => Ok(()),
        Err(TrySendError::Full(back)) => Err(back),
    }
}

/// `Channel::try_receive`: the oldest message leaves the queue, if there is
/// one.
#[verifier::external_body]
fn sample_link_receive(link: &mut SampleLink) -> (r: Option<RawSample>)
    ensures
        r == receive_outcome(sample_queue(*old(link))),
        sample_queue(*final(link)) == after_receive(sample_queue(*old(link))),
{
    match link.channel.try_receive() {
        Ok(message) => Some(message),
        Err(_) => None,
    }
}

/// `Channel::new`: a channel in which nothing waits.
#[verifier::external_body]
fn publish_link_new() -> (link: PublishLink)
    ensures
        publish_queue(link) == Seq::<PublishedSample>::empty(),
{
    PublishLink { channel: Channel::new() }
}

/// `Channel::try_send`: the message joins the queue at its end, unless four
/// messages wait already; then it comes back and the queue stays as it is.
#[verifier::external_body]
fn publish_link_send(link: &mut PublishLink, message: PublishedSample) -> (r: Result<
    (),
    PublishedSample,
>)
    ensures
        r == send_outcome(publish_queue(*old(link)), message),
        publish_queue(*final(link)) == after_send(publish_queue(*old(link)), message),
{
    match link.channel.try_send(message) {
        Ok(()) => Ok(()),
        Err(TrySendError::Full(back)) => Err(back),
    }
}

/// `Channel::try_receive`: the oldest message leaves the queue, if there is
/// one.
#[verifier::external_body]
fn publish_link_receive(link: &mut PublishLink) -> (r: Option<PublishedSample>)
    ensures
        r == receive_outcome(publish_queue(*old(link))),
        publish_queue(*final(link)) == after_receive(publish_queue(*old(link))),
{
    match link.channel.try_receive() {
        Ok(message) => Some(message),
        Err(_) => None,
    }
}

impl SampleLink {
    /// The raw samples that wait in the link, oldest first.
    pub open spec fn queue(&self) -> Seq<RawSample> {
        sample_queue(*self)
    }

    /// A link in which nothing waits.
    pub fn new() -> (link: SampleLink)
        ensures
            link.queue() == Seq::<RawSample>::empty(),
    {
        sample_link_new()
    }

    /// Sends a sample. A full link hands it back and stays as it is.
    pub fn send(&mut self, sample: RawSample) -> (r: Result<(), RawSample>)
        ensures
            r == send_outcome(old(self).queue(), sample),
            final(self).queue() == after_send(old(self).queue(), sample),
    {
        sample_link_send(self, sample)
    }

    /// Receives the oldest sample, if one waits.
    pub fn receive(&mut self) -> (r: Option<RawSample>)
        ensures
            r == receive_outcome(old(self).queue()),
            final(self).queue() == after_receive(old(self).queue()),
    {
        sample_link_receive(self)
    }
}

impl PublishLink {
    /// The published samples that wait in the link, oldest first.
    pub open spec fn queue(&self) -> Seq<PublishedSample> {
        publish_queue(*self)
    }

    /// A link in which nothing waits.
    pub fn new() -> (link: PublishLink)
        ensures
            link.queue() == Seq::<PublishedSample>::empty(),
    {
        publish_link_new()
    }

    /// Sends a sample. A full link hands it back and stays as it is.
    pub fn send(&mut self, sample: PublishedSample) -> (r: Result<(), PublishedSample>)
        ensures
            r == send_outcome(old(self).queue(), sample),
            final(self).queue() == after_send(old(self).queue(), sample),
    {
        publish_link_send(self, sample)
    }

    /// Receives the oldest sample, if one waits.
    pub fn receive(&mut self) -> (r: Option<PublishedSample>)
        ensures
            r == receive_outcome(old(self).queue()),
            final(self).queue() == after_receive(old(self).queue()),
    {
        publish_link_receive(self)
    }
}

/// One use of a link.
pub enum LinkUse<T> {
    Send(T),
    Receive,
}

/// The queue of a link that was empty and then used as `uses` says.
pub open spec fn queue_after<T>(uses: Seq<LinkUse<T>>) -> Seq<T>
    decreases uses.len(),
{
    if uses.len() == 0 {
        Seq::empty()
    } else {
        let before = queue_after(uses.drop_last());
        match uses.last() {
            LinkUse::Send(message) => after_send(before, message),
            LinkUse::Receive => after_receive(before),
        }
    }
}

/// The messages that the link took, in the order of the sends.
pub open spec fn sent_by<T>(uses: Seq<LinkUse<T>>) -> Seq<T>
    decreases uses.len(),
{
    if uses.len() == 0 {
        Seq::empty()
    } else {
        let before = queue_after(uses.drop_last());
        match uses.last() {
            LinkUse::Send(message) => if has_room(before) {
                sent_by(uses.drop_last()).push(message)
            } else {
                sent_by(uses.drop_last())
            },
            LinkUse::Receive => sent_by(uses.drop_last()),
        }
    }
}

/// The messages that the link gave out, in the order of the receives.
pub open spec fn received_by<T>(uses: Seq<LinkUse<T>>) -> Seq<T>
    decreases uses.len(),
{
    if uses.len() == 0 {
        Seq::empty()
    } else {
        let before = queue_after(uses.drop_last());
        match (uses.last(), receive_outcome(before)) {
            (LinkUse::Receive, Some(message)) => received_by(uses.drop_last()).push(message),
            _ => received_by(uses.drop_last()),
        }
    }
}

/// First in, first out: however sends and receives follow one another, the
/// messages come out in the order in which they went in. What was received,
/// followed by what still waits, is what was sent; and never more than four
/// wait.
pub proof fn lemma_first_in_first_out<T>(uses: Seq<LinkUse<T>>)
    ensures
        received_by(uses) + queue_after(uses) == sent_by(uses),
        queue_after(uses).len() <= 4,
    decreases uses.len(),
{
    if uses.len() == 0 {
        assert(received_by(uses) + queue_after(uses) =~= sent_by(uses));
    } else {
        lemma_first_in_first_out(uses.drop_last());
        let before = queue_after(uses.drop_last());
        assert(received_by(uses.drop_last()) + before == sent_by(uses.drop_last()));
        match uses.last() {
            LinkUse::Send(message) => {
                assert(received_by(uses) + queue_after(uses) =~= sent_by(uses));
            },
            LinkUse::Receive => {
                if before.len() > 0 {
                    assert(received_by(uses.drop_last()).push(before.first()) + before.drop_first()
                        =~= received_by(uses.drop_last()) + before);
                }
                assert(received_by(uses) + queue_after(uses) =~= sent_by(uses));
            },
        }
    }
}

/// Backpressure: a send to a full link is not taken and loses nothing, the
/// message comes back and the queue is as before; once one message has
/// been received, the same send is taken, behind the messages that waited.
pub proof fn lemma_backpressure<T>(queue: Seq<T>, message: T)
    requires
        queue.len() == 4,
    ensures
        send_outcome(queue, message) == Err::<(), T>(message),
        after_send(queue, message) == queue,
        send_outcome(after_receive(queue), message) == Ok::<(), T>(()),
        after_send(after_receive(queue), message) == queue.drop_first().push(message),
{
}

} // verus!
