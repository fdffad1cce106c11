//! The worker side of the pipe: what a consumer does with a slot it is handed.
use vstd::prelude::*;
use crate::shared_slot::{SlotPipe, SlotState, SlotError, PipeView, state_code};

verus! {

/// The pipe a consumer reads from after marking slot `index` as being processed.
pub open spec fn marked(p: PipeView, index: int) -> PipeView {
    p.with_state(index, state_code(SlotState::INPROGRESS))
}

/// Takes up the task in slot `index`: the slot is marked `INPROGRESS`, then its
/// message is read (its request id and payload). No other slot changes; the slot is
/// emptied where its checksum does not match its payload.
pub fn take_task(pipe: &mut SlotPipe, index: usize) -> (r: Result<(u64, Vec<u8>), SlotError>)
    requires
        old(pipe).wf(),
    ensures
        final(pipe).wf(),
        index >= old(pipe)@.capacity() ==> r == Err::<(u64, Vec<u8>), SlotError>(
            SlotError::IndexOutOfBounds,
        ) && final(pipe)@ == old(pipe)@,
        index < old(pipe)@.capacity() ==> match (r, marked(old(pipe)@, index as int).read_result(
            index as int,
        )) {
            (Ok((id, data)), Ok((sid, sdata))) => id == sid && data@ == sdata,
            (Err(e), Err(se)) => e == se,
            _ => false,
        },
        index < old(pipe)@.capacity() ==> final(pipe)@ == (if marked(
            old(pipe)@,
            index as int,
        ).read_result(index as int) == Err::<(u64, Seq<u8>), SlotError>(
            SlotError::ChecksumMismatch,
        ) {
            marked(old(pipe)@, index as int).with_state(index as int, 0)
        } else {
            marked(old(pipe)@, index as int)
        }),
{
    match pipe.set_slot_state(index, SlotState::INPROGRESS) {
        Err(e) => Err(e),
        Ok(()) => pipe.read(index),
    }
}

} // verus!
