use vstd::prelude::*;
use std::sync::mpsc::Sender;

verus! {

/// The sending half of a channel of the standard library. Nothing inside it is
/// visible to the proofs; it is only carried to the place where it is used.
#[verifier::external_type_specification]
#[verifier::external_body]
#[verifier::reject_recursive_types(T)]
pub struct ExSender<T>(std::sync::mpsc::Sender<T>);

/// Hands `item` to the channel with `Sender::send`, which never blocks, and
/// tells whether the receiving half was still there to take it. Whether it was
/// depends on the other side, so nothing is claimed of the answer.
#[verifier::external_body]
pub(crate) fn offer<T>(tx: &Sender<T>, item: T) -> (delivered: bool) {
    tx.send(item).is_ok()
}

} // verus!
