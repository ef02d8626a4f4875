//! The protocol-neutral operation vocabulary: both adapters decode their
//! wire format into a `Command`, apply it to the store, and encode the
//! resulting `Outcome` back into their own reply format.

use vstd::prelude::*;
use crate::store::Store;

verus! {

/// One store operation. A value travels only with `SET`; payload-shape
/// validation happens before a `SET` is built, so the store itself never
/// rejects a command. Variant names follow the wire-level method tokens.
#[allow(non_camel_case_types)]
pub enum Command {
    SET { key: Vec<u8>, value: Vec<u8> },
    GET { key: Vec<u8> },
    DELETE { key: Vec<u8> },
}

impl Command {
    /// A command's key is a non-empty string; a value travels only with
    /// `SET`, which the shape of the variants already guarantees.
    pub open spec fn wf(&self) -> bool {
        match *self {
            Command::SET { key, value } => key@.len() > 0,
            Command::GET { key } => key@.len() > 0,
            Command::DELETE { key } => key@.len() > 0,
        }
    }
}

/// The protocol-neutral result of applying one `Command`.
pub enum Outcome {
    /// `SET` stored the value.
    SetDone,
    /// `GET` found the key; carries an independent copy of the value.
    Found(Vec<u8>),
    /// `GET` did not find the key. Absence is not an error.
    Missing,
    /// `DELETE` ran; carries whether the key existed beforehand.
    Removed(bool),
}

/// Applies one command to the store as a single atomic step.
pub fn apply(store: &mut Store, cmd: Command) -> (r: Outcome)
    requires
        old(store).wf(),
        cmd.wf(),
    ensures
        final(store).wf(),
        cmd matches Command::SET { key, value } ==> final(store)@ == old(store)@.insert(
            key@,
            value@,
        ) && r is SetDone,
        cmd matches Command::GET { key } ==> final(store)@ == old(store)@ && (if old(
            store,
        )@.contains_key(key@) {
            r matches Outcome::Found(v) && v@ == old(store)@[key@]
        } else {
            r is Missing
        }),
        cmd matches Command::DELETE { key } ==> final(store)@ == old(store)@.remove(key@) && (
        r matches Outcome::Removed(existed) && existed == old(store)@.contains_key(key@)),
{
    match cmd {
        Command::SET { key, value } => {
            store.set(key, value);
            Outcome::SetDone
        },
        Command::GET { key } => {
            match store.get(key.as_slice()) {
                Some(v) => Outcome::Found(v),
                None => Outcome::Missing,
            }
        },
        Command::DELETE { key } => {
            let existed = store.delete(key.as_slice());
            Outcome::Removed(existed)
        },
    }
}

} // verus!
