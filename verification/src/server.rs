//! Dispatching one decoded request onto a storage engine, and the response
//! that goes back.  The surrounding socket loop lives with the caller; this
//! is the part of a connection handler that decides.
use crate::engine::KvsEngine;
use crate::error::KvsError;
use crate::proto::{Request, RequestModel, Response};
use vstd::prelude::*;

verus! {

/// Carry out one request on the engine and build the wire response: a `GET`
/// answers with the value or `ErrKeyNotFound`, a `SET` always answers
/// `ErrOk`, and an `RM` answers `ErrOk` or `ErrKeyNotFound` as the key was
/// present or not.
pub fn handle_request<E: KvsEngine>(store: &mut E, req: Request) -> (resp: Response)
    requires
        old(store).inv(),
        req@ matches RequestModel::Put { key, value } ==> old(store).can_set(key, value),
    ensures
        final(store).inv(),
        match req@ {
            RequestModel::Get { key } => final(store).st() == old(store).st() && (if old(
                store,
            ).st().contains_key(key) {
                resp@.status == KvsError::ErrOk && resp@.value == old(store).st()[key]
            } else {
                resp@.status == KvsError::ErrKeyNotFound && resp@.value == Seq::<char>::empty()
            }),
            RequestModel::Put { key, value } => final(store).st() == old(store).st().insert(
                key,
                value,
            ) && resp@.status == KvsError::ErrOk && resp@.value == Seq::<char>::empty(),
            RequestModel::Rm { key } => resp@.value == Seq::<char>::empty() && (if old(
                store,
            ).st().contains_key(key) {
                final(store).st() == old(store).st().remove(key) && resp@.status == KvsError::ErrOk
            } else {
                final(store).st() == old(store).st() && resp@.status == KvsError::ErrKeyNotFound
            }),
        },
{
    match req {
        Request::GET { key } => match store.get(key) {
            Ok(Some(value)) => Response { status: KvsError::ErrOk, value },
            Ok(None) => Response { status: KvsError::ErrKeyNotFound, value: String::new() },
            Err(_) => {
                proof {
                    assert(false);
                }
                Response { status: KvsError::ErrKeyNotFound, value: String::new() }
            },
        },
        Request::SET { key, value } => match store.set(key, value) {
            Ok(()) => Response { status: KvsError::ErrOk, value: String::new() },
            Err(_) => {
                proof {
                    assert(false);
                }
                Response { status: KvsError::ErrOk, value: String::new() }
            },
        },
        Request::RM { key } => match store.remove(key) {
            Ok(()) => Response { status: KvsError::ErrOk, value: String::new() },
            Err(_) => Response { status: KvsError::ErrKeyNotFound, value: String::new() },
        },
    }
}

} // verus!
