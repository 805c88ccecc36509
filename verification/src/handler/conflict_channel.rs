//! The channel through which the transactions of a batch report their conflicts.
use crate::parallel::operation_logs::Conflict;
use crossbeam_channel::{Receiver, Sender};
use vstd::prelude::*;

verus! {

/// The sending end of a channel of `crossbeam_channel`.
#[verifier::external_type_specification]
#[verifier::external_body]
#[verifier::reject_recursive_types(T)]
pub struct ExSender<T>(crossbeam_channel::Sender<T>);

/// The receiving end of a channel of `crossbeam_channel`.
#[verifier::external_type_specification]
#[verifier::external_body]
#[verifier::reject_recursive_types(T)]
pub struct ExReceiver<T>(crossbeam_channel::Receiver<T>);

/// The conflicts that wait in a channel, the oldest first.
pub uninterp spec fn queued(channel: (Sender<Conflict>, Receiver<Conflict>)) -> Seq<Conflict>;

/// How many conflicts a channel holds at most. `None` for two ends that do not
/// belong to each other.
pub uninterp spec fn capacity(channel: (Sender<Conflict>, Receiver<Conflict>)) -> Option<nat>;

/// Calls `crossbeam_channel::bounded`: an empty channel that holds `cap` messages,
/// and both its ends.
#[verifier::external_body]
fn bounded_channel(cap: usize) -> (r: (Sender<Conflict>, Receiver<Conflict>))
    requires
        0 < cap <= u16::MAX,
    ensures
        queued(r) == Seq::<Conflict>::empty(),
        capacity(r) == Some(cap as nat),
{
    crossbeam_channel::bounded(cap)
}

/// Calls `crossbeam_channel::Sender::send`: the message goes to the end of the
/// channel. It would wait for room in a full channel, which nobody else makes, so
/// there has to be room; with the receiving end alive it does not fail.
#[verifier::external_body]
fn send_message(channel: &mut (Sender<Conflict>, Receiver<Conflict>), conflict: Conflict) -> (r:
    bool)
    requires
        capacity(*old(channel)) matches Some(cap) && queued(*old(channel)).len() < cap,
    ensures
        r,
        queued(*final(channel)) == queued(*old(channel)).push(conflict),
        capacity(*final(channel)) == capacity(*old(channel)),
{
    channel.0.send(conflict).is_ok()
}

/// Calls `crossbeam_channel::Receiver::try_recv`: the oldest message is taken out of
/// the channel; there is none exactly when the channel is empty.
#[verifier::external_body]
fn try_receive(channel: &mut (Sender<Conflict>, Receiver<Conflict>)) -> (r: Option<Conflict>)
    requires
        capacity(*old(channel)) is Some,
    ensures
        match r {
            Some(conflict) => queued(*old(channel)).len() > 0 && conflict == queued(
                *old(channel),
            )[0] && queued(*final(channel)) == queued(*old(channel)).skip(1),
            None => queued(*old(channel)).len() == 0 && queued(*final(channel)) == queued(
                *old(channel),
            ),
        },
        capacity(*final(channel)) == capacity(*old(channel)),
{
    channel.1.try_recv().ok()
}

/// How many conflicts the channel of a batch holds.
pub const CHANNEL_CAPACITY: usize = 1024;

/// The channel of a batch, with both its ends.
pub struct ConflictChannel {
    channel: (Sender<Conflict>, Receiver<Conflict>),
}

impl ConflictChannel {
    pub closed spec fn wf(self) -> bool {
        &&& capacity(self.channel) == Some(CHANNEL_CAPACITY as nat)
        &&& queued(self.channel).len() <= CHANNEL_CAPACITY
    }

    /// No more conflicts wait than the channel holds.
    pub proof fn lemma_fits(self)
        requires
            self.wf(),
        ensures
            self@.len() <= CHANNEL_CAPACITY,
    {
    }

    /// An empty channel.
    pub fn new() -> (r: Self)
        ensures
            r.wf(),
            r@ == Seq::<Conflict>::empty(),
    {
        ConflictChannel { channel: bounded_channel(CHANNEL_CAPACITY) }
    }

    /// Reports a conflict. The channel must not be full.
    pub fn send(&mut self, conflict: Conflict)
        requires
            old(self).wf(),
            old(self)@.len() < CHANNEL_CAPACITY,
        ensures
            final(self).wf(),
            final(self)@ == old(self)@.push(conflict),
    {
        let _ = send_message(&mut self.channel, conflict);
    }

    /// Takes all reported conflicts out, the oldest first.
    pub fn drain(&mut self) -> (r: Vec<Conflict>)
        requires
            old(self).wf(),
        ensures
            final(self).wf(),
            final(self)@ == Seq::<Conflict>::empty(),
            r@ == old(self)@,
    {
        let mut conflicts: Vec<Conflict> = Vec::new();
        let ghost all = self@;
        assert(all.skip(0) =~= all);
        loop
            invariant
                self.wf(),
                all == old(self)@,
                conflicts@.len() <= all.len(),
                conflicts@ == all.take(conflicts@.len() as int),
                self@ == all.skip(conflicts@.len() as int),
            ensures
                self@.len() == 0,
            decreases self@.len(),
        {
            match try_receive(&mut self.channel) {
                Some(conflict) => {
                    let ghost n = conflicts@.len() as int;
                    conflicts.push(conflict);
                    assert(conflicts@ =~= all.take(n + 1));
                    assert(self@ =~= all.skip(n + 1));
                },
                None => {
                    break ;
                },
            }
        }
        assert(conflicts@ =~= all);
        assert(self@ =~= Seq::<Conflict>::empty());
        conflicts
    }
}

impl View for ConflictChannel {
    type V = Seq<Conflict>;

    closed spec fn view(&self) -> Seq<Conflict> {
        queued(self.channel)
    }
}

} // verus!
