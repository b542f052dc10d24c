//! Allocation that can fail.

use vstd::prelude::*;

use std::collections::TryReserveError;

use crate::error::NttError;

verus! {

/// Whether the allocator refused a reservation of room for `count` items.
///
/// Only a call of `try_reserve` for that many items shows it.
pub open spec fn refused<T>(count: usize) -> bool {
    exists|target: &mut Vec<T>, e: TryReserveError|
        call_ensures(Vec::<T>::try_reserve, (target, count), Err::<(), TryReserveError>(e))
}

/// Make room for `additional` more items.
///
/// Whether there is room rests on the machine, but there always is for none. The
/// items stay as they are.
pub(crate) fn reserve<T>(target: &mut Vec<T>, additional: usize) -> (r: Result<(), NttError>)
    ensures
        final(target)@ == old(target)@,
        additional == 0 ==> r is Ok,
        r matches Err(e) ==> e == NttError::AllocationFailed,
        r is Err ==> refused::<T>(additional),
{
    if additional == 0 {
        return Ok(());
    }
    match target.try_reserve(additional) {
        Ok(()) => Ok(()),
        Err(_refusal) => Err(NttError::AllocationFailed),
    }
}

/// Append `count` zero bytes.
fn extend_zero(bytes: &mut Vec<u8>, count: usize)
    ensures
        final(bytes)@ == old(bytes)@ + Seq::new(count as nat, |i: int| 0u8),
{
    let ghost before = bytes@;
    let mut i: usize = 0;
    while i < count
        invariant
            i <= count,
            bytes@ == before + Seq::new(i as nat, |j: int| 0u8),
        decreases count - i,
    {
        bytes.push(0);
        i = i + 1;
        assert(bytes@ =~= before + Seq::new(i as nat, |j: int| 0u8));
    }
}

/// `count` zero bytes, or the allocation failure.
///
/// No allocation holds more than `isize::MAX` bytes; up to there it rests on the
/// machine whether there is room.
pub(crate) fn zeroed(count: usize) -> (r: Result<Vec<u8>, NttError>)
    ensures
        count == 0 ==> r is Ok,
        count > isize::MAX ==> r is Err,
        r matches Ok(bytes) ==> bytes@ == Seq::new(count as nat, |i: int| 0u8),
        r matches Err(e) ==> e == NttError::AllocationFailed,
        r is Err && count <= isize::MAX ==> refused::<u8>(count),
{
    if count > isize::MAX as usize {
        return Err(NttError::AllocationFailed);
    }
    let mut bytes: Vec<u8> = Vec::new();
    match reserve::<u8>(&mut bytes, count) {
        Ok(()) => {
            extend_zero(&mut bytes, count);
            assert(bytes@ =~= Seq::new(count as nat, |i: int| 0u8));
            Ok(bytes)
        },
        Err(e) => Err(e),
    }
}

} // verus!
