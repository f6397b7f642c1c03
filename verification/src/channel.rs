//! The channels that carry upload jobs to the workers and reports to the
//! display.

use crossbeam_channel::{Receiver, RecvError, SendError, Sender};
use vstd::prelude::*;

verus! {

/// The sending side of a channel of `crossbeam_channel`.
#[verifier::external_type_specification]
#[verifier::external_body]
#[verifier::reject_recursive_types(T)]
pub struct ExSender<T>(Sender<T>);

/// The receiving side of a channel of `crossbeam_channel`.
#[verifier::external_type_specification]
#[verifier::external_body]
#[verifier::reject_recursive_types(T)]
pub struct ExReceiver<T>(Receiver<T>);

/// What `Sender::send` returns on a disconnected channel; it holds the
/// message that was not sent.
#[verifier::external_type_specification]
#[verifier::external_body]
#[verifier::reject_recursive_types(T)]
pub struct ExSendError<T>(SendError<T>);

/// What `Receiver::recv` returns on an empty and disconnected channel.
#[verifier::external_type_specification]
#[verifier::external_body]
pub struct ExRecvError(RecvError);

/// Trusted: `Sender::send` of `crossbeam_channel` blocks until the message
/// is sent or the channel is disconnected. Whether it succeeds depends on
/// the other side of the channel, so nothing is promised of the result.
pub assume_specification<T>[ Sender::<T>::send ](sender: &Sender<T>, msg: T) -> (r: Result<
    (),
    SendError<T>,
>)
;

/// Trusted: `Receiver::recv` of `crossbeam_channel` blocks until a message
/// is received or the channel is empty and disconnected. What it returns
/// depends on the other side of the channel, so nothing is promised of it.
pub assume_specification<T>[ Receiver::<T>::recv ](receiver: &Receiver<T>) -> (r: Result<
    T,
    RecvError,
>)
;

/// Trusted: `anyhow::Error::from` wraps the error of a send on a
/// disconnected channel. Nothing is known of what the result holds.
#[verifier::external_body]
pub(crate) fn queue_error(e: SendError<(String, String)>) -> anyhow::Error {
    anyhow::Error::from(e)
}

} // verus!
