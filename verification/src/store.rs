//! The two store workflows built on the codec: creating a new store and
//! updating an existing one. File probing and I/O stay with the caller; this
//! module takes the path-existence facts and the file bytes as plain values,
//! decides, and hands back the bytes to write. Both workflows fail before
//! any encoding or decoding when a path precondition is violated, so a
//! refused run produces no bytes at all.

use vstd::prelude::*;

use crate::codec::{decode_store, enc_store, encode_store, sdec_stream, DecodeError};
use crate::model::{orders_view, Order, OrderV};

verus! {

/// Why a store workflow was refused.
#[derive(Clone, Copy, PartialEq, Eq, Structural, Debug)]
pub enum StoreError {
    /// The write target already exists: stores are never overwritten.
    TargetExists,
    /// The update source path does not exist.
    SourceMissing,
    /// The update source exists but is not a valid store.
    SourceInvalid(DecodeError),
}

/// New-store workflow: refused if and only if the target already exists;
/// otherwise the bytes to write are the encoding of the given orders.
/// Nothing is encoded on refusal, so an existing target is never touched.
pub fn new_store_bytes(target_exists: bool, orders: &Vec<Order>) -> (r: Result<Vec<u8>, StoreError>)
    ensures
        target_exists ==> r == Result::<Vec<u8>, StoreError>::Err(StoreError::TargetExists),
        !target_exists ==> (r matches Result::Ok(b) && b@ == enc_store(orders_view(orders@))),
{
    if target_exists {
        return Result::Err(StoreError::TargetExists);
    }
    Result::Ok(encode_store(orders))
}

/// Update-mode precondition check, made before the source is read or any
/// decoding or encoding is done. The target check comes first, mirroring a
/// workflow that creates the target before opening the source; with both
/// checks in place a same-path update can never proceed.
pub fn update_precheck(source_exists: bool, target_exists: bool) -> (r: Result<(), StoreError>)
    ensures
        r == (if target_exists {
            Result::<(), StoreError>::Err(StoreError::TargetExists)
        } else if !source_exists {
            Result::<(), StoreError>::Err(StoreError::SourceMissing)
        } else {
            Result::<(), StoreError>::Ok(())
        }),
{
    if target_exists {
        return Result::Err(StoreError::TargetExists);
    }
    if !source_exists {
        return Result::Err(StoreError::SourceMissing);
    }
    Result::Ok(())
}

/// Update workflow: decode the source store, append the new orders, and
/// re-encode the whole sequence. Fails exactly when the source bytes are
/// not a valid store, and then says why.
pub fn update_store_bytes(source: &Vec<u8>, new_orders: Vec<Order>) -> (r: Result<
    Vec<u8>,
    StoreError,
>)
    ensures
        match r {
            Result::Ok(b) => (sdec_stream(source@) matches Result::Ok(prev) && b@ == enc_store(
                prev + orders_view(new_orders@),
            )),
            Result::Err(e) => (e matches StoreError::SourceInvalid(d) && sdec_stream(source@)
                == Result::<Seq<OrderV>, DecodeError>::Err(d)),
        },
{
    let mut appended = new_orders;
    let ghost new_part = appended@;
    let mut all = match decode_store(source) {
        Result::Ok(v) => v,
        Result::Err(d) => {
            return Result::Err(StoreError::SourceInvalid(d));
        },
    };
    let ghost prev_part = all@;
    all.append(&mut appended);
    let out = encode_store(&all);
    proof {
        assert(orders_view(all@) =~= orders_view(prev_part) + orders_view(new_part));
    }
    Result::Ok(out)
}

} // verus!
