//! Trusted declarations of the channel primitives the members talk over.
//!
//! The fabric is a full mesh of bounded channels. Everything a channel
//! returns depends on what the peers do, so the contracts here promise
//! nothing of the values that arrive; the member logic is verified for
//! every possible arrival.

use vstd::prelude::*;

use crate::RingError;

verus! {

#[verifier::external_type_specification]
#[verifier::external_body]
#[verifier::reject_recursive_types(T)]
pub struct ExSender<T>(crossbeam::channel::Sender<T>);

#[verifier::external_type_specification]
#[verifier::external_body]
#[verifier::reject_recursive_types(T)]
pub struct ExReceiver<T>(crossbeam::channel::Receiver<T>);

/// Relies on crossbeam_channel::Sender::send: blocks until the message is
/// taken into the channel, and fails only when every receiver is gone.
#[verifier::external_body]
pub(crate) fn chan_send<T>(s: &crossbeam::channel::Sender<T>, msg: T) -> (r: Result<
    (),
    RingError,
>)
    ensures
        r matches Err(e) ==> e == RingError::ChannelClosed,
{
    s.send(msg).map_err(|_| RingError::ChannelClosed)
}

/// Relies on crossbeam_channel::Receiver::recv: blocks until a message
/// arrives, and fails only when every sender is gone. Which message
/// arrives depends on the peers, so nothing is promised of the value.
#[verifier::external_body]
pub(crate) fn chan_recv<T>(r: &crossbeam::channel::Receiver<T>) -> (m: Result<T, RingError>)
    ensures
        m matches Err(e) ==> e == RingError::ChannelClosed,
{
    r.recv().map_err(|_| RingError::ChannelClosed)
}

/// Relies on crossbeam_channel::Receiver::recv_timeout: waits at most the
/// given number of milliseconds for a message. `None` covers both a quiet
/// channel and a closed one, exactly how a silent peer is treated.
#[verifier::external_body]
pub(crate) fn chan_recv_timeout<T>(r: &crossbeam::channel::Receiver<T>, ms: u64) -> (m: Option<
    T,
>) {
    r.recv_timeout(std::time::Duration::from_millis(ms)).ok()
}

} // verus!
