//! The slot pipe: a fixed ring of slots, each holding one framed message, that
//! producers claim (`hold`), fill (`write`) and consumers claim (`fetch`) and drain
//! (`read`). Every slot carries a state word, a request id, the payload length, a
//! checksum and a fixed-size data area.
use vstd::prelude::*;
use crate::text::{decimal, push_decimal, signed_decimal, i64_to_decimal};
use crate::pipe::PipeStatus;
use crate::layout::{u32_le, u32_at, u64_le, u64_at, push_u32, push_u64, push_bytes, read_u32, read_u64, copy_range, lemma_u32_in, lemma_u64_in, lemma_u32_len, lemma_u64_len};
use std::hash::BuildHasher;
use vstd::arithmetic::div_mod::{lemma_small_mod, lemma_mod_add_multiples_vanish};

verus! {

/// The state of a slot.
#[allow(non_camel_case_types)]
#[derive(Debug, Clone, Copy, PartialEq, Eq, Structural)]
pub enum SlotState {
    EMPTY,
    WRITING,
    INPROGRESS,
    READING,
    READY,
}

/// The word that stands for a slot state in a slot.
pub open spec fn state_code(s: SlotState) -> u32 {
    match s {
        SlotState::EMPTY => 0,
        SlotState::WRITING => 1,
        SlotState::INPROGRESS => 2,
        SlotState::READING => 3,
        SlotState::READY => 4,
    }
}

/// The slot state that a state word stands for, if any.
pub open spec fn state_of_code(c: u32) -> Option<SlotState> {
    if c == 0 {
        Some(SlotState::EMPTY)
    } else if c == 1 {
        Some(SlotState::WRITING)
    } else if c == 2 {
        Some(SlotState::INPROGRESS)
    } else if c == 3 {
        Some(SlotState::READING)
    } else if c == 4 {
        Some(SlotState::READY)
    } else {
        None
    }
}

impl SlotState {
    /// The state word of this state.
    pub fn code(&self) -> (c: u32)
        ensures
            c == state_code(*self),
    {
        match self {
            SlotState::EMPTY => 0,
            SlotState::WRITING => 1,
            SlotState::INPROGRESS => 2,
            SlotState::READING => 3,
            SlotState::READY => 4,
        }
    }

    /// The state that a state word stands for, if any.
    pub fn from_code(c: u32) -> (r: Option<SlotState>)
        ensures
            r == state_of_code(c),
    {
        if c == 0 {
            Some(SlotState::EMPTY)
        } else if c == 1 {
            Some(SlotState::WRITING)
        } else if c == 2 {
            Some(SlotState::INPROGRESS)
        } else if c == 3 {
            Some(SlotState::READING)
        } else if c == 4 {
            Some(SlotState::READY)
        } else {
            None
        }
    }
}

/// The checksum that `DefaultHasher` gives for a byte slice hashed as a value.
pub uninterp spec fn payload_checksum(data: Seq<u8>) -> u64;

/// Hashes a byte slice with a `DefaultHasher` built by `BuildHasherDefault` (the
/// standard library's `BuildHasher::hash_one`); `DefaultHasher::new` instances all start
/// from the same keys, so the result is a function of the bytes alone.
#[verifier::external_body]
fn checksum_of(data: &[u8]) -> (c: u64)
    ensures
        c == payload_checksum(data@),
{
    std::hash::BuildHasherDefault::<std::collections::hash_map::DefaultHasher>::default().hash_one(
        data,
    )
}

/// Errors of setting up or using a pipe in shared memory.
#[derive(Debug, Clone, Copy, PartialEq, Eq, Structural)]
pub enum TokioIPCError {
    /// `shm_open` failed with this code.
    ShmOpenFailed(i32),
    MmapFailed,
    MutexLockFailed,
    QueueFull,
    SerializationFailed,
    ChecksumMismatch,
    SlotNotReady,
}

impl TokioIPCError {
    /// The text of the error.
    pub open spec fn spec_message(&self) -> Seq<char> {
        match *self {
            TokioIPCError::ShmOpenFailed(code) => "Shared memory open failed with code: "@
                + signed_decimal(code as int),
            TokioIPCError::MmapFailed => "Memory mapping failed"@,
            TokioIPCError::MutexLockFailed => "Mutex lock failed"@,
            TokioIPCError::QueueFull => "Queue is full"@,
            TokioIPCError::SerializationFailed => "Serialization failed"@,
            TokioIPCError::ChecksumMismatch => "Checksum mismatch"@,
            TokioIPCError::SlotNotReady => "Slot is not ready"@,
        }
    }

    /// The text of the error.
    pub fn message(&self) -> (m: String)
        ensures
            m@ == self.spec_message(),
    {
        match *self {
            TokioIPCError::ShmOpenFailed(code) => {
                let mut m = String::from_str("Shared memory open failed with code: ");
                let d = i64_to_decimal(code as i64);
                m.append(d.as_str());
                m
            },
            TokioIPCError::MmapFailed => String::from_str("Memory mapping failed"),
            TokioIPCError::MutexLockFailed => String::from_str("Mutex lock failed"),
            TokioIPCError::QueueFull => String::from_str("Queue is full"),
            TokioIPCError::SerializationFailed => String::from_str("Serialization failed"),
            TokioIPCError::ChecksumMismatch => String::from_str("Checksum mismatch"),
            TokioIPCError::SlotNotReady => String::from_str("Slot is not ready"),
        }
    }
}

/// Errors of slot operations.
#[derive(Debug, Clone, Copy, PartialEq, Eq, Structural)]
pub enum SlotError {
    /// The index names no slot.
    IndexOutOfBounds,
    /// A write was asked of a slot that is not `INPROGRESS`.
    NotReadyForWriting,
    /// The payload does not fit into a slot.
    TooLarge,
    /// A read was asked of a slot that is not `INPROGRESS`.
    NotReadyForReading,
    /// The stored checksum does not match the stored payload.
    ChecksumMismatch,
    /// The slot holds a state word that stands for no state.
    UnknownState(u32),
}

impl SlotError {
    /// The text of the error.
    pub fn message(&self) -> (s: String)
        ensures
            s@ == self.spec_message(),
    {
        match self {
            SlotError::IndexOutOfBounds => String::from_str("Slot index out of bounds"),
            SlotError::NotReadyForWriting => String::from_str("Slot not ready for writing"),
            SlotError::TooLarge => String::from_str("Serialized data too large for slot"),
            SlotError::NotReadyForReading => String::from_str("Slot not ready for reading"),
            SlotError::ChecksumMismatch => String::from_str("Checksum mismatch"),
            SlotError::UnknownState(c) => {
                let mut s = String::from_str("Unknown slot state: ");
                push_decimal(&mut s, *c as u64);
                s
            },
        }
    }

    /// The text of the error.
    pub open spec fn spec_message(&self) -> Seq<char> {
        match self {
            SlotError::IndexOutOfBounds => "Slot index out of bounds"@,
            SlotError::NotReadyForWriting => "Slot not ready for writing"@,
            SlotError::TooLarge => "Serialized data too large for slot"@,
            SlotError::NotReadyForReading => "Slot not ready for reading"@,
            SlotError::ChecksumMismatch => "Checksum mismatch"@,
            SlotError::UnknownState(c) => "Unknown slot state: "@ + decimal(*c as nat),
        }
    }
}

/// One slot of a pipe.
pub struct Slot {
    /// The state word.
    pub state: u32,
    /// The id given to the payload when it was written.
    pub request_id: u64,
    /// The length of the payload.
    pub data_size: u32,
    /// The checksum of the payload.
    pub checksum: u64,
    /// The data area; the payload is its first `data_size` bytes.
    pub data: Vec<u8>,
}

/// What a slot holds, as mathematical values.
pub struct SlotView {
    pub state: u32,
    pub request_id: u64,
    pub data_size: u32,
    pub checksum: u64,
    pub data: Seq<u8>,
}

impl View for Slot {
    type V = SlotView;

    open spec fn view(&self) -> SlotView {
        SlotView {
            state: self.state,
            request_id: self.request_id,
            data_size: self.data_size,
            checksum: self.checksum,
            data: self.data@,
        }
    }
}

/// The next value of a request-id counter: one more, wrapping at the end of `u64`.
pub open spec fn next_seq(seq: u64) -> u64 {
    if seq == u64::MAX {
        0
    } else {
        (seq + 1) as u64
    }
}

/// The slot `k` positions after `start` on a ring of `n` slots.
pub open spec fn ring_pos(start: int, k: int, n: int) -> int {
    (start + k) % n
}

/// The slot that a scan finds: starting at `start` and going round the ring, the first
/// of the `limit - k` positions from offset `k` on whose state is `target`.
pub open spec fn scan(states: Seq<u32>, start: int, target: u32, k: int, limit: int) -> Option<int>
    decreases limit - k,
{
    if k >= limit || states.len() == 0 {
        None
    } else if states[ring_pos(start, k, states.len() as int)] == target {
        Some(ring_pos(start, k, states.len() as int))
    } else {
        scan(states, start, target, k + 1, limit)
    }
}

/// How many of `states` equal `code`.
pub open spec fn count_code(states: Seq<u32>, code: u32) -> nat
    decreases states.len(),
{
    if states.len() == 0 {
        0
    } else {
        count_code(states.drop_last(), code) + if states.last() == code { 1nat } else { 0nat }
    }
}

/// A pipe's slots and counters, as mathematical values.
pub struct PipeView {
    pub slot_size: nat,
    pub write_pointer: int,
    pub read_pointer: int,
    pub seq: u64,
    pub begin: bool,
    pub shared_value: u32,
    pub slots: Seq<SlotView>,
}

/// The outcome of one attempt to claim a ready slot.
#[derive(Debug, Clone, Copy, PartialEq, Eq, Structural)]
pub enum FetchOutcome {
    /// No data was announced: the caller waits and asks again.
    Wait,
    /// The slot with this index was ready and is now `READING`.
    Claimed(usize),
    /// Data was announced but no slot was ready; the announcement is withdrawn.
    Drained,
}

impl PipeView {
    /// The number of slots.
    pub open spec fn capacity(self) -> nat {
        self.slots.len()
    }

    /// The state words of the slots, in order.
    pub open spec fn states(self) -> Seq<u32> {
        Seq::new(self.slots.len(), |i: int| self.slots[i].state)
    }

    /// Well-formedness: pointers name slots, every data area has the slot size and
    /// every payload length fits it.
    pub open spec fn wf(self) -> bool {
        &&& self.slots.len() == 0 ==> self.write_pointer == 0 && self.read_pointer == 0
        &&& self.slots.len() > 0 ==> 0 <= self.write_pointer < self.slots.len() && 0
            <= self.read_pointer < self.slots.len()
        &&& self.slot_size <= u32::MAX
        &&& forall|i: int|
            0 <= i < self.slots.len() ==> (#[trigger] self.slots[i]).data.len() == self.slot_size
                && self.slots[i].data_size <= self.slot_size
    }

    /// The pipe with the state word of slot `i` replaced.
    pub open spec fn with_state(self, i: int, code: u32) -> PipeView {
        PipeView { slots: self.slots.update(i, SlotView { state: code, ..self.slots[i] }), ..self }
    }

    /// The slot that `hold` claims: the first `EMPTY` slot from the write pointer on.
    pub open spec fn hold_target(self) -> Option<int> {
        scan(self.states(), self.write_pointer, 0, 0, self.slots.len() as int)
    }

    /// The pipe after `hold` claimed slot `i`.
    pub open spec fn after_hold(self, i: int) -> PipeView {
        PipeView {
            write_pointer: (i + 1) % (self.slots.len() as int),
            ..self.with_state(i, 1)
        }
    }

    /// The pipe after `payload` was written into slot `i`.
    pub open spec fn after_write(self, i: int, payload: Seq<u8>) -> PipeView {
        let old_slot = self.slots[i];
        PipeView {
            slots: self.slots.update(
                i,
                SlotView {
                    state: 4,
                    request_id: self.seq,
                    data_size: payload.len() as u32,
                    checksum: payload_checksum(payload),
                    data: payload + old_slot.data.subrange(
                        payload.len() as int,
                        old_slot.data.len() as int,
                    ),
                },
            ),
            seq: next_seq(self.seq),
            begin: true,
            ..self
        }
    }

    /// What `write(i, payload)` answers, for a slot index in range.
    pub open spec fn write_result(self, i: int, payload: Seq<u8>) -> Result<u64, SlotError> {
        if i >= self.slots.len() {
            Err(SlotError::IndexOutOfBounds)
        } else if self.slots[i].state != 2 {
            Err(SlotError::NotReadyForWriting)
        } else if payload.len() > self.slot_size {
            Err(SlotError::TooLarge)
        } else {
            Ok(self.seq)
        }
    }

    /// The slot that `fetch` claims: the first `READY` slot from the read pointer on.
    pub open spec fn fetch_target(self) -> Option<int> {
        scan(self.states(), self.read_pointer, 4, 0, self.slots.len() as int)
    }

    /// The payload that slot `i` holds.
    pub open spec fn payload(self, i: int) -> Seq<u8> {
        self.slots[i].data.subrange(0, self.slots[i].data_size as int)
    }

    /// What `read(i)` answers.
    pub open spec fn read_result(self, i: int) -> Result<(u64, Seq<u8>), SlotError> {
        if i >= self.slots.len() {
            Err(SlotError::IndexOutOfBounds)
        } else if self.slots[i].state != 2 {
            Err(SlotError::NotReadyForReading)
        } else if self.slots[i].checksum != payload_checksum(self.payload(i)) {
            Err(SlotError::ChecksumMismatch)
        } else {
            Ok((self.slots[i].request_id, self.payload(i)))
        }
    }

    /// The pipe after a read of slot `i` ended; a payload that was decoded also has
    /// its slot cleared.
    pub open spec fn after_finish_read(self, i: int, decoded: bool) -> PipeView {
        if decoded {
            PipeView {
                slots: self.slots.update(
                    i,
                    SlotView {
                        state: 0,
                        request_id: 0,
                        data_size: 0,
                        checksum: 0,
                        data: Seq::new(self.slot_size, |j: int| 0u8),
                    },
                ),
                ..self
            }
        } else {
            self.with_state(i, 0)
        }
    }
}

/// Lemma: a scan either finds a slot in the target state, the first one along the
/// way, or none of the positions it passes has the target state.
proof fn lemma_scan(states: Seq<u32>, start: int, target: u32, k: int, limit: int)
    requires
        0 <= k <= limit,
        limit <= states.len(),
        start >= 0,
    ensures
        match scan(states, start, target, k, limit) {
            Some(i) => 0 <= i < states.len() && states[i] == target,
            None => forall|j: int|
                k <= j < limit ==> states[#[trigger] ring_pos(start, j, states.len() as int)]
                    != target,
        },
    decreases limit - k,
{
    if k < limit && states.len() > 0 && states[ring_pos(start, k, states.len() as int)] != target {
        lemma_scan(states, start, target, k + 1, limit);
    }
}

/// Lemma: stepping `k` places round a ring of `n` slots from a slot `start`.
proof fn lemma_ring_pos(start: int, k: int, n: int)
    requires
        0 <= start < n,
        0 <= k < n,
    ensures
        start + k < n ==> ring_pos(start, k, n) == start + k,
        start + k >= n ==> ring_pos(start, k, n) == start + k - n,
{
    if start + k < n {
        lemma_small_mod((start + k) as nat, n as nat);
    } else {
        lemma_small_mod((start + k - n) as nat, n as nat);
        lemma_mod_add_multiples_vanish(start + k - n, n);
    }
}

/// The slot `k` places after slot `start` on a ring of `n` slots.
fn ring_index(start: usize, k: usize, n: usize) -> (r: usize)
    requires
        start < n,
        k < n,
    ensures
        r == ring_pos(start as int, k as int, n as int),
        r < n,
{
    proof {
        lemma_ring_pos(start as int, k as int, n as int);
    }
    if k < n - start {
        start + k
    } else {
        k - (n - start)
    }
}

/// A pipe of slots: the logic of the shared-memory pipe, on plain values.
pub struct SlotPipe {
    slot_size: usize,
    write_pointer: usize,
    read_pointer: usize,
    seq: u64,
    begin: bool,
    shared_value: u32,
    slots: Vec<Slot>,
}

impl View for SlotPipe {
    type V = PipeView;

    closed spec fn view(&self) -> PipeView {
        PipeView {
            slot_size: self.slot_size as nat,
            write_pointer: self.write_pointer as int,
            read_pointer: self.read_pointer as int,
            seq: self.seq,
            begin: self.begin,
            shared_value: self.shared_value,
            slots: self.slots@.map_values(|s: Slot| s@),
        }
    }
}

/// A slot with its data area cleared.
fn empty_slot(slot_size: usize) -> (s: Slot)
    ensures
        s@ == (SlotView {
            state: 0,
            request_id: 0,
            data_size: 0,
            checksum: 0,
            data: Seq::new(slot_size as nat, |j: int| 0u8),
        }),
{
    let mut data: Vec<u8> = Vec::new();
    let mut j: usize = 0;
    while j < slot_size
        invariant
            j <= slot_size,
            data@ == Seq::new(j as nat, |k: int| 0u8),
        decreases slot_size - j,
    {
        data.push(0u8);
        j = j + 1;
        assert(data@ =~= Seq::new(j as nat, |k: int| 0u8));
    }
    Slot { state: 0, request_id: 0, data_size: 0, checksum: 0, data }
}

impl SlotPipe {
    /// Well-formedness of the pipe.
    pub open spec fn wf(&self) -> bool {
        self@.wf()
    }

    /// A pipe of `capacity` empty slots of `slot_size` bytes, as a freshly initialised
    /// shared pipe is: pointers at 0, request ids starting at 1, nothing announced.
    pub fn new(capacity: usize, slot_size: usize) -> (p: SlotPipe)
        requires
            slot_size <= u32::MAX,
        ensures
            p.wf(),
            p@.slot_size == slot_size,
            p@.capacity() == capacity,
            p@.write_pointer == 0,
            p@.read_pointer == 0,
            p@.seq == 1,
            !p@.begin,
            p@.shared_value == 0,
            forall|i: int|
                0 <= i < capacity ==> #[trigger] p@.slots[i] == (SlotView {
                    state: 0,
                    request_id: 0,
                    data_size: 0,
                    checksum: 0,
                    data: Seq::new(slot_size as nat, |j: int| 0u8),
                }),
    {
        let mut slots: Vec<Slot> = Vec::new();
        let mut i: usize = 0;
        while i < capacity
            invariant
                i <= capacity,
                slots.len() == i,
                forall|k: int|
                    0 <= k < i ==> #[trigger] slots@[k]@ == (SlotView {
                        state: 0,
                        request_id: 0,
                        data_size: 0,
                        checksum: 0,
                        data: Seq::new(slot_size as nat, |j: int| 0u8),
                    }),
            decreases capacity - i,
        {
            slots.push(empty_slot(slot_size));
            i = i + 1;
        }
        let p = SlotPipe {
            slot_size,
            write_pointer: 0,
            read_pointer: 0,
            seq: 1,
            begin: false,
            shared_value: 0,
            slots,
        };
        assert(forall|k: int| 0 <= k < capacity ==> #[trigger] p@.slots[k] == p.slots@[k]@);
        p
    }

    /// A pipe made of the given parts, as read from a shared region.
    pub fn from_parts(
        slot_size: usize,
        write_pointer: usize,
        read_pointer: usize,
        seq: u64,
        begin: bool,
        shared_value: u32,
        slots: Vec<Slot>,
    ) -> (p: SlotPipe)
        requires
            (PipeView {
                slot_size: slot_size as nat,
                write_pointer: write_pointer as int,
                read_pointer: read_pointer as int,
                seq,
                begin,
                shared_value,
                slots: slots@.map_values(|s: Slot| s@),
            }).wf(),
        ensures
            p@ == (PipeView {
                slot_size: slot_size as nat,
                write_pointer: write_pointer as int,
                read_pointer: read_pointer as int,
                seq,
                begin,
                shared_value,
                slots: slots@.map_values(|s: Slot| s@),
            }),
    {
        SlotPipe { slot_size, write_pointer, read_pointer, seq, begin, shared_value, slots }
    }

    /// The slot size of the pipe.
    pub fn slot_size(&self) -> (r: usize)
        ensures
            r == self@.slot_size,
    {
        self.slot_size
    }

    /// The number of slots.
    pub fn capacity(&self) -> (r: usize)
        ensures
            r == self@.capacity(),
    {
        self.slots.len()
    }

    /// The write pointer: where the next `hold` starts looking.
    pub fn write_pointer(&self) -> (r: usize)
        ensures
            r == self@.write_pointer,
    {
        self.write_pointer
    }

    /// The read pointer: where the next `fetch` starts looking.
    pub fn read_pointer(&self) -> (r: usize)
        ensures
            r == self@.read_pointer,
    {
        self.read_pointer
    }

    /// The next request id to be given.
    pub fn seq(&self) -> (r: u64)
        ensures
            r == self@.seq,
    {
        self.seq
    }

    /// Whether data is announced.
    pub fn begin(&self) -> (r: bool)
        ensures
            r == self@.begin,
    {
        self.begin
    }

    /// The word that waiters block on.
    pub fn shared_value(&self) -> (r: u32)
        ensures
            r == self@.shared_value,
    {
        self.shared_value
    }

    /// The slot at `index`.
    pub fn slot(&self, index: usize) -> (s: &Slot)
        requires
            index < self@.capacity(),
        ensures
            s@ == self@.slots[index as int],
    {
        &self.slots[index]
    }

    /// The state word of slot `i`.
    fn state_at(&self, i: usize) -> (c: u32)
        requires
            i < self@.capacity(),
        ensures
            c == self@.states()[i as int],
    {
        self.slots[i].state
    }

    /// Sets the state word of slot `i`.
    fn put_state(&mut self, i: usize, code: u32)
        requires
            i < old(self)@.capacity(),
        ensures
            final(self)@ == old(self)@.with_state(i as int, code),
    {
        let ghost before = self@;
        self.slots[i].state = code;
        assert(self@.slots =~= before.with_state(i as int, code).slots);
    }

    /// Scans the ring from `start` for the first of `limit` positions whose state is
    /// `target`.
    fn scan_from(&self, start: usize, target: u32, limit: usize) -> (r: Option<usize>)
        requires
            self@.capacity() > 0,
            start < self@.capacity(),
            limit <= self@.capacity(),
        ensures
            r == match scan(self@.states(), start as int, target, 0, limit as int) {
                Some(i) => Some(i as usize),
                None => None::<usize>,
            },
            r is Some ==> r.unwrap() < self@.capacity(),
    {
        let n = self.slots.len();
        let mut k: usize = 0;
        while k < limit
            invariant
                n == self@.capacity(),
                n > 0,
                start < n,
                k <= limit <= n,
                scan(self@.states(), start as int, target, 0, limit as int) == scan(
                    self@.states(),
                    start as int,
                    target,
                    k as int,
                    limit as int,
                ),
            decreases limit - k,
        {
            let idx = ring_index(start, k, n);
            if self.state_at(idx) == target {
                return Some(idx);
            }
            k = k + 1;
        }
        None
    }

    /// Claims the first `EMPTY` slot from the write pointer on: it becomes `WRITING` and
    /// the write pointer moves past it. `None` when no slot is empty.
    pub fn hold(&mut self) -> (r: Option<usize>)
        requires
            old(self).wf(),
        ensures
            final(self).wf(),
            r == match old(self)@.hold_target() {
                Some(i) => Some(i as usize),
                None => None::<usize>,
            },
            match r {
                Some(i) => final(self)@ == old(self)@.after_hold(i as int) && old(self)@.hold_target()
                    == Some(i as int),
                None => final(self)@ == old(self)@ && old(self)@.hold_target() is None,
            },
    {
        let n = self.slots.len();
        if n == 0 {
            return None;
        }
        let found = self.scan_from(self.write_pointer, 0, n);
        match found {
            Some(i) => {
                proof {
                    lemma_scan(self@.states(), self@.write_pointer, 0, 0, n as int);
                }
                self.put_state(i, 1);
                self.write_pointer = (i + 1) % n;
                Some(i)
            },
            None => None,
        }
    }

    /// Writes `payload` into slot `index`, which must be `INPROGRESS`: the slot keeps
    /// the payload, its length and checksum and the next request id, and becomes
    /// `READY`; the request id counter moves on and data is announced.
    pub fn write(&mut self, index: usize, payload: &[u8]) -> (r: Result<u64, SlotError>)
        requires
            old(self).wf(),
        ensures
            final(self).wf(),
            r == old(self)@.write_result(index as int, payload@),
            r is Ok ==> final(self)@ == old(self)@.after_write(index as int, payload@),
            r is Err ==> final(self)@ == old(self)@,
    {
        if index >= self.slots.len() {
            return Err(SlotError::IndexOutOfBounds);
        }
        if self.slots[index].state != 2 {
            return Err(SlotError::NotReadyForWriting);
        }
        if payload.len() > self.slot_size {
            return Err(SlotError::TooLarge);
        }
        let ghost before = self@;
        let checksum = checksum_of(payload);
        let len = payload.len();
        let id = self.seq;
        let slot = &mut self.slots[index];
        let mut j: usize = 0;
        while j < len
            invariant
                len == payload@.len(),
                j <= len,
                len <= slot.data@.len(),
                slot.data@.len() == before.slots[index as int].data.len(),
                forall|k: int| 0 <= k < j ==> slot.data@[k] == payload@[k],
                forall|k: int|
                    j <= k < slot.data@.len() ==> slot.data@[k]
                        == before.slots[index as int].data[k],
            decreases len - j,
        {
            slot.data[j] = payload[j];
            j = j + 1;
        }
        slot.data_size = len as u32;
        slot.checksum = checksum;
        slot.request_id = id;
        slot.state = 4;
        assert(slot.data@ =~= payload@ + before.slots[index as int].data.subrange(
            len as int,
            before.slots[index as int].data.len() as int,
        ));
        self.seq = if self.seq == u64::MAX { 0 } else { self.seq + 1 };
        self.begin = true;
        assert(self@.slots =~= before.after_write(index as int, payload@).slots);
        Ok(id)
    }

    /// One attempt to claim a ready slot: waits while no data is announced; otherwise
    /// claims the first `READY` slot from the read pointer on (it becomes `READING` and
    /// the read pointer moves past it), or withdraws the announcement when none is ready.
    pub fn fetch(&mut self) -> (r: FetchOutcome)
        requires
            old(self).wf(),
        ensures
            final(self).wf(),
            !old(self)@.begin ==> r == FetchOutcome::Wait && final(self)@ == old(self)@,
            old(self)@.begin ==> match old(self)@.fetch_target() {
                Some(i) => r == FetchOutcome::Claimed(i as usize) && final(self)@ == (PipeView {
                    read_pointer: (i + 1) % (old(self)@.capacity() as int),
                    ..old(self)@.with_state(i, 3)
                }),
                None => r == FetchOutcome::Drained && final(self)@ == (PipeView {
                    begin: false,
                    ..old(self)@
                }),
            },
    {
        if !self.begin {
            return FetchOutcome::Wait;
        }
        let n = self.slots.len();
        if n == 0 {
            self.begin = false;
            return FetchOutcome::Drained;
        }
        let found = self.scan_from(self.read_pointer, 4, n);
        proof {
            lemma_scan(self@.states(), self@.read_pointer, 4, 0, n as int);
        }
        match found {
            Some(i) => {
                self.put_state(i, 3);
                self.read_pointer = (i + 1) % n;
                FetchOutcome::Claimed(i)
            },
            None => {
                self.begin = false;
                FetchOutcome::Drained
            },
        }
    }

    /// Reads the payload of slot `index`, which must be `INPROGRESS`, with its request
    /// id. When the stored checksum does not match the payload, the slot is emptied.
    pub fn read(&mut self, index: usize) -> (r: Result<(u64, Vec<u8>), SlotError>)
        requires
            old(self).wf(),
        ensures
            final(self).wf(),
            match (r, old(self)@.read_result(index as int)) {
                (Ok((id, data)), Ok((sid, sdata))) => id == sid && data@ == sdata,
                (Err(e), Err(se)) => e == se,
                _ => false,
            },
            old(self)@.read_result(index as int) == Err::<(u64, Seq<u8>), SlotError>(
                SlotError::ChecksumMismatch,
            ) ==> final(self)@ == old(self)@.with_state(index as int, 0),
            old(self)@.read_result(index as int) != Err::<(u64, Seq<u8>), SlotError>(
                SlotError::ChecksumMismatch,
            ) ==> final(self)@ == old(self)@,
    {
        if index >= self.slots.len() {
            return Err(SlotError::IndexOutOfBounds);
        }
        if self.slots[index].state != 2 {
            return Err(SlotError::NotReadyForReading);
        }
        let size = self.slots[index].data_size as usize;
        let mut payload: Vec<u8> = Vec::new();
        let mut j: usize = 0;
        while j < size
            invariant
                self.wf(),
                index < self@.capacity(),
                size == self@.slots[index as int].data_size,
                j <= size,
                payload@ == self@.payload(index as int).subrange(0, j as int),
            decreases size - j,
        {
            payload.push(self.slots[index].data[j]);
            j = j + 1;
            assert(payload@ =~= self@.payload(index as int).subrange(0, j as int));
        }
        assert(payload@ =~= self@.payload(index as int));
        let expected = checksum_of(payload.as_slice());
        if self.slots[index].checksum != expected {
            self.put_state(index, 0);
            return Err(SlotError::ChecksumMismatch);
        }
        Ok((self.slots[index].request_id, payload))
    }

    /// Ends a read of slot `index`: the slot becomes `EMPTY`; when the payload was
    /// decoded, its id, length, checksum and data area are cleared as well.
    pub fn finish_read(&mut self, index: usize, decoded: bool)
        requires
            old(self).wf(),
            index < old(self)@.capacity(),
        ensures
            final(self).wf(),
            final(self)@ == old(self)@.after_finish_read(index as int, decoded),
    {
        if decoded {
            let ghost before = self@;
            let fresh = empty_slot(self.slot_size);
            self.slots.set(index, fresh);
            assert(self@.slots =~= before.after_finish_read(index as int, decoded).slots);
        } else {
            self.put_state(index, 0);
        }
    }

    /// Looks for the first slot in state `target` after `current_index`, going round
    /// the ring and stopping before coming back to `current_index`.
    pub fn next_slot_by_state(&self, current_index: usize, target: SlotState) -> (r: Option<usize>)
        requires
            self.wf(),
            current_index < self@.capacity(),
        ensures
            r == match scan(
                self@.states(),
                current_index + 1,
                state_code(target),
                0,
                self@.capacity() - 1,
            ) {
                Some(i) => Some(i as usize),
                None => None::<usize>,
            },
    {
        let n = self.slots.len();
        let code = target.code();
        let start = (current_index + 1) % n;
        let ghost states = self@.states();
        assert forall|k: int| 0 <= k < n - 1 implies #[trigger] ring_pos(start as int, k, n as int)
            == ring_pos(current_index + 1, k, n as int) by {
            if current_index + 1 == n {
                lemma_small_mod(0, n as nat);
                lemma_mod_add_multiples_vanish(0, n as int);
                lemma_mod_add_multiples_vanish(k, n as int);
                lemma_small_mod(k as nat, n as nat);
            } else {
                lemma_small_mod((current_index + 1) as nat, n as nat);
            }
        }
        let r = self.scan_from(start, code, n - 1);
        proof {
            lemma_scan_same_start(states, start as int, current_index + 1, code, 0, n - 1);
        }
        r
    }

    /// The first `EMPTY` slot after `current_index`.
    pub fn next_empty(&self, current_index: usize) -> (r: Option<usize>)
        requires
            self.wf(),
            current_index < self@.capacity(),
        ensures
            r == match scan(self@.states(), current_index + 1, 0, 0, self@.capacity() - 1) {
                Some(i) => Some(i as usize),
                None => None::<usize>,
            },
    {
        self.next_slot_by_state(current_index, SlotState::EMPTY)
    }

    /// The first `READY` slot after `current_index`.
    pub fn next_ready(&self, current_index: usize) -> (r: Option<usize>)
        requires
            self.wf(),
            current_index < self@.capacity(),
        ensures
            r == match scan(self@.states(), current_index + 1, 4, 0, self@.capacity() - 1) {
                Some(i) => Some(i as usize),
                None => None::<usize>,
            },
    {
        self.next_slot_by_state(current_index, SlotState::READY)
    }

    /// Sets the state of slot `index`.
    pub fn set_slot_state(&mut self, index: usize, state: SlotState) -> (r: Result<(), SlotError>)
        requires
            old(self).wf(),
        ensures
            final(self).wf(),
            index < old(self)@.capacity() ==> r is Ok && final(self)@ == old(self)@.with_state(
                index as int,
                state_code(state),
            ),
            index >= old(self)@.capacity() ==> r == Err::<(), SlotError>(
                SlotError::IndexOutOfBounds,
            ) && final(self)@ == old(self)@,
    {
        if index >= self.slots.len() {
            return Err(SlotError::IndexOutOfBounds);
        }
        let code = state.code();
        self.put_state(index, code);
        Ok(())
    }

    /// The state of slot `index`.
    pub fn get_slot_state(&self, index: usize) -> (r: Result<SlotState, SlotError>)
        requires
            self.wf(),
        ensures
            index >= self@.capacity() ==> r == Err::<SlotState, SlotError>(
                SlotError::IndexOutOfBounds,
            ),
            index < self@.capacity() ==> r == match state_of_code(self@.states()[index as int]) {
                Some(s) => Ok::<SlotState, SlotError>(s),
                None => Err(SlotError::UnknownState(self@.states()[index as int])),
            },
    {
        if index >= self.slots.len() {
            return Err(SlotError::IndexOutOfBounds);
        }
        let c = self.slots[index].state;
        match SlotState::from_code(c) {
            Some(s) => Ok(s),
            None => Err(SlotError::UnknownState(c)),
        }
    }

    /// Counts the slots by state: the status report of the pipe. Slots whose state word
    /// stands for no state are counted nowhere but among the used slots.
    pub fn status(&self) -> (st: PipeStatus)
        requires
            self.wf(),
        ensures
            st.capacity == self@.capacity(),
            st.slot_size == self@.slot_size,
            st.write_pointer == self@.write_pointer,
            st.read_pointer == self@.read_pointer,
            st.empty_count == count_code(self@.states(), 0),
            st.writing_count == count_code(self@.states(), 1),
            st.in_progress_count == count_code(self@.states(), 2),
            st.reading_count == count_code(self@.states(), 3),
            st.ready_count == count_code(self@.states(), 4),
            st.used_count == self@.capacity() - count_code(self@.states(), 0),
    {
        let n = self.slots.len();
        let ghost states = self@.states();
        let mut counts: [usize; 5] = [0, 0, 0, 0, 0];
        let mut i: usize = 0;
        while i < n
            invariant
                n == self@.capacity(),
                states == self@.states(),
                i <= n,
                forall|c: int| 0 <= c < 5 ==> #[trigger] counts@[c] == count_code(states.subrange(0, i as int), c as u32),
                forall|c: int| 0 <= c < 5 ==> #[trigger] counts@[c] <= i,
            decreases n - i,
        {
            let code = self.state_at(i);
            let ghost prev = states.subrange(0, i as int);
            let ghost next = states.subrange(0, i + 1);
            assert(next.drop_last() =~= prev);
            if code < 5 {
                let k = code as usize;
                counts[k] = counts[k] + 1;
            }
            i = i + 1;
        }
        assert(states.subrange(0, n as int) =~= states);
        proof {
            lemma_count_le(states, 0);
        }
        PipeStatus {
            capacity: n,
            slot_size: self.slot_size,
            write_pointer: self.write_pointer,
            read_pointer: self.read_pointer,
            empty_count: counts[0],
            writing_count: counts[1],
            in_progress_count: counts[2],
            reading_count: counts[3],
            ready_count: counts[4],
            used_count: n - counts[0],
        }
    }
}

/// Lemma: no state word occurs more often than there are slots.
pub proof fn lemma_count_le(states: Seq<u32>, code: u32)
    ensures
        count_code(states, code) <= states.len(),
    decreases states.len(),
{
    if states.len() > 0 {
        lemma_count_le(states.drop_last(), code);
    }
}

/// Lemma: two scans whose starting points agree modulo the ring size find the same slot.
proof fn lemma_scan_same_start(states: Seq<u32>, a: int, b: int, target: u32, k: int, limit: int)
    requires
        states.len() > 0,
        0 <= k <= limit,
        forall|j: int|
            k <= j < limit ==> #[trigger] ring_pos(a, j, states.len() as int) == ring_pos(
                b,
                j,
                states.len() as int,
            ),
    ensures
        scan(states, a, target, k, limit) == scan(states, b, target, k, limit),
    decreases limit - k,
{
    if k < limit {
        lemma_scan_same_start(states, a, b, target, k + 1, limit);
    }
}


/// Lemma: a scan of the whole ring finds a slot whenever one slot has the target state.
proof fn lemma_scan_complete(states: Seq<u32>, start: int, target: u32, j: int)
    requires
        0 <= start < states.len(),
        0 <= j < states.len(),
        states[j] == target,
    ensures
        scan(states, start, target, 0, states.len() as int) is Some,
{
    let n = states.len() as int;
    lemma_scan(states, start, target, 0, n);
    let k = if j >= start { j - start } else { j - start + n };
    lemma_ring_pos(start, k, n);
    assert(ring_pos(start, k, n) == j);
}

/// Law: claiming a slot for writing fails exactly when no slot is `EMPTY`, and the slot
/// it claims was `EMPTY`.
pub proof fn lemma_hold_fails_iff_no_empty_slot(p: PipeView)
    requires
        p.wf(),
    ensures
        p.hold_target() is None <==> (forall|i: int| 0 <= i < p.capacity() ==> p.states()[i] != 0),
        p.hold_target() matches Some(i) ==> 0 <= i < p.capacity() && p.states()[i] == 0,
{
    let n = p.capacity() as int;
    lemma_scan(p.states(), p.write_pointer, 0, 0, n);
    if exists|i: int| 0 <= i < n && p.states()[i] == 0 {
        let j = choose|i: int| 0 <= i < n && p.states()[i] == 0;
        lemma_scan_complete(p.states(), p.write_pointer, 0, j);
    }
}

/// Law: claiming a slot for reading, once data is announced, fails exactly when no slot
/// is `READY`, and the slot it claims was `READY`.
pub proof fn lemma_fetch_drains_iff_no_ready_slot(p: PipeView)
    requires
        p.wf(),
    ensures
        p.fetch_target() is None <==> (forall|i: int| 0 <= i < p.capacity() ==> p.states()[i] != 4),
        p.fetch_target() matches Some(i) ==> 0 <= i < p.capacity() && p.states()[i] == 4,
{
    let n = p.capacity() as int;
    lemma_scan(p.states(), p.read_pointer, 4, 0, n);
    if exists|i: int| 0 <= i < n && p.states()[i] == 4 {
        let j = choose|i: int| 0 <= i < n && p.states()[i] == 4;
        lemma_scan_complete(p.states(), p.read_pointer, 4, j);
    }
}

/// Lemma: a scan finds the first position, in ring order from offset `k` on, whose state
/// is the target.
proof fn lemma_scan_first(states: Seq<u32>, start: int, target: u32, k: int, limit: int)
    requires
        0 <= k <= limit,
        limit <= states.len(),
    ensures
        scan(states, start, target, k, limit) matches Some(j) ==> exists|m: int|
            k <= m < limit && j == ring_pos(start, m, states.len() as int) && states[j] == target
                && forall|x: int|
                k <= x < m ==> states[#[trigger] ring_pos(start, x, states.len() as int)] != target,
    decreases limit - k,
{
    let n = states.len() as int;
    if k < limit && n > 0 {
        if states[ring_pos(start, k, n)] == target {
            assert(k <= k < limit && forall|x: int| k <= x < k ==> states[#[trigger] ring_pos(start, x, n)] != target);
        } else {
            lemma_scan_first(states, start, target, k + 1, limit);
            if let Some(j) = scan(states, start, target, k, limit) {
                let m = choose|m: int|
                    k + 1 <= m < limit && j == ring_pos(start, m, n) && states[j] == target
                        && forall|x: int| k + 1 <= x < m ==> states[#[trigger] ring_pos(start, x, n)] != target;
                assert forall|x: int| k <= x < m implies states[#[trigger] ring_pos(start, x, n)] != target by {
                    if x > k {
                        assert(k + 1 <= x < m);
                    }
                }
            }
        }
    }
}

/// Law: reading goes in ring order from the read pointer. The slot `fetch` claims is
/// `READY`, and it is the first `READY` one going round the ring from the read pointer:
/// every slot between the read pointer and it is not `READY`. So messages made ready in
/// ring order are fetched in the order they were made ready.
pub proof fn lemma_fetch_in_ring_order(p: PipeView)
    requires
        p.wf(),
    ensures
        p.fetch_target() matches Some(i) ==> exists|m: int|
            0 <= m < p.capacity() && i == #[trigger] ring_pos(p.read_pointer, m, p.capacity() as int)
                && p.states()[i] == 4 && forall|k: int|
                0 <= k < m ==> p.states()[#[trigger] ring_pos(p.read_pointer, k, p.capacity() as int)] != 4,
{
    let n = p.capacity() as int;
    lemma_scan_first(p.states(), p.read_pointer, 4, 0, n);
}

/// Law: writing claims slots in ring order from the write pointer. The slot `hold`
/// claims is `EMPTY`, and every slot between the write pointer and it is not `EMPTY`.
pub proof fn lemma_hold_in_ring_order(p: PipeView)
    requires
        p.wf(),
    ensures
        p.hold_target() matches Some(i) ==> exists|m: int|
            0 <= m < p.capacity() && i == #[trigger] ring_pos(p.write_pointer, m, p.capacity() as int)
                && p.states()[i] == 0 && forall|k: int|
                0 <= k < m ==> p.states()[#[trigger] ring_pos(p.write_pointer, k, p.capacity() as int)] != 0,
{
    let n = p.capacity() as int;
    lemma_scan_first(p.states(), p.write_pointer, 0, 0, n);
}

/// Law: what a read gives back of a write. A payload that fits, written into an
/// `INPROGRESS` slot, is read back unchanged with the request id the write returned,
/// once the slot is `INPROGRESS` again; the write leaves every other slot as it was.
pub proof fn lemma_read_returns_written(p: PipeView, i: int, payload: Seq<u8>)
    requires
        p.wf(),
        0 <= i < p.capacity(),
        p.slots[i].state == 2,
        payload.len() <= p.slot_size,
    ensures
        p.write_result(i, payload) == Ok::<u64, SlotError>(p.seq),
        p.after_write(i, payload).wf(),
        p.after_write(i, payload).with_state(i, 2).read_result(i) == Ok::<
            (u64, Seq<u8>),
            SlotError,
        >((p.seq, payload)),
        forall|j: int|
            0 <= j < p.capacity() && j != i ==> #[trigger] p.after_write(i, payload).slots[j]
                == p.slots[j],
{
    let q = p.after_write(i, payload).with_state(i, 2);
    assert(q.payload(i) =~= payload);
    let w = p.after_write(i, payload);
    assert forall|j: int| 0 <= j < w.slots.len() implies (#[trigger] w.slots[j]).data.len()
        == w.slot_size && w.slots[j].data_size <= w.slot_size by {
        if j != i {
            assert(w.slots[j] == p.slots[j]);
        }
    }
}

/// Law: the round trip of one message. In a pipe where no slot but `i` will be ready,
/// a payload written into `INPROGRESS` slot `i` is the one that the next claim for
/// reading finds, and reading that slot gives the payload back.
pub proof fn lemma_message_round_trip(p: PipeView, i: int, payload: Seq<u8>)
    requires
        p.wf(),
        0 <= i < p.capacity(),
        p.slots[i].state == 2,
        payload.len() <= p.slot_size,
        forall|j: int| 0 <= j < p.capacity() && j != i ==> p.slots[j].state != 4,
    ensures
        ({
            let w = p.after_write(i, payload);
            &&& w.begin
            &&& w.fetch_target() == Some(i)
            &&& w.with_state(i, 3).with_state(i, 2).read_result(i) == Ok::<
                (u64, Seq<u8>),
                SlotError,
            >((p.seq, payload))
        }),
{
    lemma_read_returns_written(p, i, payload);
    let w = p.after_write(i, payload);
    lemma_fetch_drains_iff_no_ready_slot(w);
    assert(w.states()[i] == 4);
    assert forall|j: int| 0 <= j < w.capacity() && j != i implies w.states()[j] != 4 by {
        assert(w.slots[j] == p.slots[j]);
    }
    let q = w.with_state(i, 3).with_state(i, 2);
    assert(q.slots =~= w.with_state(i, 2).slots);
}

/// Law: the status counts partition the slots: the five counts never add up to more
/// than the capacity, and add up to it exactly when every state word stands for a state.
pub proof fn lemma_status_partition(states: Seq<u32>)
    ensures
        count_code(states, 0) + count_code(states, 1) + count_code(states, 2) + count_code(
            states,
            3,
        ) + count_code(states, 4) <= states.len(),
        (forall|i: int| 0 <= i < states.len() ==> #[trigger] states[i] < 5) ==> count_code(
            states,
            0,
        ) + count_code(states, 1) + count_code(states, 2) + count_code(states, 3) + count_code(
            states,
            4,
        ) == states.len(),
    decreases states.len(),
{
    if states.len() > 0 {
        let d = states.drop_last();
        lemma_status_partition(d);
        if forall|i: int| 0 <= i < states.len() ==> #[trigger] states[i] < 5 {
            assert forall|i: int| 0 <= i < d.len() implies #[trigger] d[i] < 5 by {
                assert(d[i] == states[i]);
            }
            assert(states[states.len() - 1] < 5);
        }
    }
}

} // verus!

verus! {

/// The bytes of a pipe's header in shared memory.
pub const PIPE_HEADER_SIZE: usize = 56;

/// The bytes in front of a slot's data area in shared memory.
pub const SLOT_HEADER_SIZE: usize = 24;

/// The bytes of a slot in shared memory: state, payload length, request id, checksum,
/// then the data area.
pub open spec fn slot_bytes(s: SlotView) -> Seq<u8> {
    u32_le(s.state) + u32_le(s.data_size) + u64_le(s.request_id) + u64_le(s.checksum) + s.data
}

/// The slot that bytes in shared memory hold.
pub open spec fn slot_of_bytes(b: Seq<u8>) -> SlotView {
    SlotView {
        state: u32_at(b, 0) as u32,
        data_size: u32_at(b, 4) as u32,
        request_id: u64_at(b, 8) as u64,
        checksum: u64_at(b, 16) as u64,
        data: b.subrange(SLOT_HEADER_SIZE as int, b.len() as int),
    }
}

/// Law: a slot read back from its bytes is the slot written.
pub proof fn lemma_slot_round_trip(s: SlotView)
    ensures
        slot_of_bytes(slot_bytes(s)) == s,
        slot_bytes(s).len() == SLOT_HEADER_SIZE + s.data.len(),
{
    let b = slot_bytes(s);
    lemma_u32_len(s.state);
    lemma_u32_len(s.data_size);
    lemma_u64_len(s.request_id);
    lemma_u64_len(s.checksum);
    assert(b.subrange(0, 4) =~= u32_le(s.state));
    assert(b.subrange(4, 8) =~= u32_le(s.data_size));
    assert(b.subrange(8, 16) =~= u64_le(s.request_id));
    assert(b.subrange(16, 24) =~= u64_le(s.checksum));
    lemma_u32_in(b, 0, s.state);
    lemma_u32_in(b, 4, s.data_size);
    lemma_u64_in(b, 8, s.request_id);
    lemma_u64_in(b, 16, s.checksum);
    assert(b.subrange(24, b.len() as int) =~= s.data);
}

impl Slot {
    /// The bytes of the slot in shared memory.
    pub fn to_bytes(&self) -> (r: Vec<u8>)
        ensures
            r@ == slot_bytes(self@),
    {
        let mut r: Vec<u8> = Vec::new();
        push_u32(&mut r, self.state);
        push_u32(&mut r, self.data_size);
        push_u64(&mut r, self.request_id);
        push_u64(&mut r, self.checksum);
        push_bytes(&mut r, self.data.as_slice());
        r
    }

    /// The slot that bytes in shared memory hold.
    pub fn from_bytes(b: &[u8]) -> (s: Slot)
        requires
            b@.len() >= SLOT_HEADER_SIZE,
        ensures
            s@ == slot_of_bytes(b@),
    {
        Slot {
            state: read_u32(b, 0),
            data_size: read_u32(b, 4),
            request_id: read_u64(b, 8),
            checksum: read_u64(b, 16),
            data: copy_range(b, SLOT_HEADER_SIZE, b.len()),
        }
    }
}

/// The header of a pipe in shared memory: the lock word and a word of padding (both
/// left to the processes sharing it, written as 0), slot size, capacity, write and read
/// pointers, request id counter, announcement flag and shared value.
pub open spec fn pipe_header_bytes(v: PipeView) -> Seq<u8> {
    u32_le(0) + u32_le(0) + u64_le(v.slot_size as u64) + u64_le(v.capacity() as u64) + u64_le(
        v.write_pointer as u64,
    ) + u64_le(v.read_pointer as u64) + u64_le(v.seq) + u32_le(
        if v.begin {
            1u32
        } else {
            0u32
        },
    ) + u32_le(v.shared_value)
}

/// What the header of a pipe in shared memory says.
#[derive(Debug)]
pub struct PipeHeader {
    pub slot_size: u64,
    pub capacity: u64,
    pub write_pointer: u64,
    pub read_pointer: u64,
    pub seq: u64,
    pub begin: bool,
    pub shared_value: u32,
}

impl PipeHeader {
    /// The header that the first bytes of `b` hold.
    pub fn from_bytes(b: &[u8]) -> (h: PipeHeader)
        requires
            b@.len() >= PIPE_HEADER_SIZE,
        ensures
            h.slot_size == u64_at(b@, 8),
            h.capacity == u64_at(b@, 16),
            h.write_pointer == u64_at(b@, 24),
            h.read_pointer == u64_at(b@, 32),
            h.seq == u64_at(b@, 40),
            h.begin == (u32_at(b@, 48) != 0),
            h.shared_value == u32_at(b@, 52),
    {
        PipeHeader {
            slot_size: read_u64(b, 8),
            capacity: read_u64(b, 16),
            write_pointer: read_u64(b, 24),
            read_pointer: read_u64(b, 32),
            seq: read_u64(b, 40),
            begin: read_u32(b, 48) != 0,
            shared_value: read_u32(b, 52),
        }
    }
}

/// Law: the header read back from a pipe's header bytes holds the pipe's fields.
pub proof fn lemma_pipe_header_round_trip(v: PipeView)
    requires
        v.slot_size <= u64::MAX,
        v.capacity() <= u64::MAX,
        0 <= v.write_pointer <= u64::MAX,
        0 <= v.read_pointer <= u64::MAX,
    ensures
        pipe_header_bytes(v).len() == PIPE_HEADER_SIZE,
        u64_at(pipe_header_bytes(v), 8) == v.slot_size,
        u64_at(pipe_header_bytes(v), 16) == v.capacity(),
        u64_at(pipe_header_bytes(v), 24) == v.write_pointer,
        u64_at(pipe_header_bytes(v), 32) == v.read_pointer,
        u64_at(pipe_header_bytes(v), 40) == v.seq,
        (u32_at(pipe_header_bytes(v), 48) != 0) == v.begin,
        u32_at(pipe_header_bytes(v), 52) == v.shared_value,
{
    let f: u32 = if v.begin {
        1u32
    } else {
        0u32
    };
    let a0 = u32_le(0) + u32_le(0);
    let a1 = a0 + u64_le(v.slot_size as u64);
    let a2 = a1 + u64_le(v.capacity() as u64);
    let a3 = a2 + u64_le(v.write_pointer as u64);
    let a4 = a3 + u64_le(v.read_pointer as u64);
    let a5 = a4 + u64_le(v.seq);
    let a6 = a5 + u32_le(f);
    let b = a6 + u32_le(v.shared_value);
    lemma_u32_len(0);
    lemma_u32_len(f);
    lemma_u32_len(v.shared_value);
    lemma_u64_len(v.slot_size as u64);
    lemma_u64_len(v.capacity() as u64);
    lemma_u64_len(v.write_pointer as u64);
    lemma_u64_len(v.read_pointer as u64);
    lemma_u64_len(v.seq);
    assert(b == pipe_header_bytes(v));
    assert(b.subrange(0, b.len() as int) =~= b);
    lemma_sub_prefix(b, a6, u32_le(v.shared_value));
    lemma_sub_prefix(b, a5, u32_le(f));
    lemma_sub_prefix(b, a4, u64_le(v.seq));
    lemma_sub_prefix(b, a3, u64_le(v.read_pointer as u64));
    lemma_sub_prefix(b, a2, u64_le(v.write_pointer as u64));
    lemma_sub_prefix(b, a1, u64_le(v.capacity() as u64));
    lemma_sub_prefix(b, a0, u64_le(v.slot_size as u64));
    lemma_field_u64(a0, v.slot_size as u64, b);
    lemma_field_u64(a1, v.capacity() as u64, b);
    lemma_field_u64(a2, v.write_pointer as u64, b);
    lemma_field_u64(a3, v.read_pointer as u64, b);
    lemma_field_u64(a4, v.seq, b);
    lemma_field_u32(a5, f, b);
    lemma_field_u32(a6, v.shared_value, b);
}

/// Lemma: a prefix of a prefix of `b` is a prefix of `b`.
proof fn lemma_sub_prefix(b: Seq<u8>, a: Seq<u8>, c: Seq<u8>)
    requires
        (a + c).len() <= b.len(),
        b.subrange(0, (a + c).len() as int) == a + c,
    ensures
        b.subrange(0, a.len() as int) == a,
{
    assert forall|i: int| 0 <= i < a.len() implies b.subrange(0, a.len() as int)[i] == a[i] by {
        assert(b[i] == b.subrange(0, (a + c).len() as int)[i]);
    }
    assert(b.subrange(0, a.len() as int) =~= a);
}

/// Lemma: eight bytes of a number at the end of a prefix read back as the number.
proof fn lemma_field_u64(pre: Seq<u8>, x: u64, b: Seq<u8>)
    requires
        (pre + u64_le(x)).len() <= b.len(),
        b.subrange(0, (pre + u64_le(x)).len() as int) == pre + u64_le(x),
    ensures
        u64_at(b, pre.len() as int) == x,
{
    let p = pre + u64_le(x);
    lemma_u64_len(x);
    assert(b.subrange(pre.len() as int, pre.len() + 8int) =~= u64_le(x)) by {
        assert forall|i: int| 0 <= i < 8 implies b.subrange(pre.len() as int, pre.len() + 8int)[i]
            == u64_le(x)[i] by {
            assert(b[pre.len() + i] == b.subrange(0, p.len() as int)[pre.len() + i]);
        }
    }
    lemma_u64_in(b, pre.len() as int, x);
}

/// Lemma: four bytes of a number at the end of a prefix read back as the number.
proof fn lemma_field_u32(pre: Seq<u8>, x: u32, b: Seq<u8>)
    requires
        (pre + u32_le(x)).len() <= b.len(),
        b.subrange(0, (pre + u32_le(x)).len() as int) == pre + u32_le(x),
    ensures
        u32_at(b, pre.len() as int) == x,
{
    let p = pre + u32_le(x);
    lemma_u32_len(x);
    assert(b.subrange(pre.len() as int, pre.len() + 4int) =~= u32_le(x)) by {
        assert forall|i: int| 0 <= i < 4 implies b.subrange(pre.len() as int, pre.len() + 4int)[i]
            == u32_le(x)[i] by {
            assert(b[pre.len() + i] == b.subrange(0, p.len() as int)[pre.len() + i]);
        }
    }
    lemma_u32_in(b, pre.len() as int, x);
}

impl SlotPipe {
    /// The bytes of the pipe's header in shared memory.
    pub fn header_bytes(&self) -> (r: Vec<u8>)
        ensures
            r@ == pipe_header_bytes(self@),
    {
        let mut r: Vec<u8> = Vec::new();
        push_u32(&mut r, 0);
        push_u32(&mut r, 0);
        push_u64(&mut r, self.slot_size as u64);
        push_u64(&mut r, self.slots.len() as u64);
        push_u64(&mut r, self.write_pointer as u64);
        push_u64(&mut r, self.read_pointer as u64);
        push_u64(&mut r, self.seq);
        push_u32(&mut r, if self.begin { 1 } else { 0 });
        push_u32(&mut r, self.shared_value);
        r
    }

    /// The pipe a header and slots read from shared memory make, where they agree (as
    /// many slots as the header says, pointers naming slots, every data area of the
    /// slot size and every payload length within it); `None` where they do not.
    pub fn assemble(h: PipeHeader, slots: Vec<Slot>) -> (r: Option<SlotPipe>)
        ensures
            match r {
                Some(p) => p.wf() && p@ == (PipeView {
                    slot_size: h.slot_size as nat,
                    write_pointer: h.write_pointer as int,
                    read_pointer: h.read_pointer as int,
                    seq: h.seq,
                    begin: h.begin,
                    shared_value: h.shared_value,
                    slots: slots@.map_values(|s: Slot| s@),
                }) && h.capacity == slots@.len(),
                None => h.capacity != slots@.len() || h.slot_size > usize::MAX || h.write_pointer
                    > usize::MAX || h.read_pointer > usize::MAX || !(PipeView {
                    slot_size: h.slot_size as nat,
                    write_pointer: h.write_pointer as int,
                    read_pointer: h.read_pointer as int,
                    seq: h.seq,
                    begin: h.begin,
                    shared_value: h.shared_value,
                    slots: slots@.map_values(|s: Slot| s@),
                }).wf(),
            },
    {
        let n = slots.len();
        if h.capacity != n as u64 || h.slot_size > usize::MAX as u64 || h.write_pointer
            > usize::MAX as u64 || h.read_pointer > usize::MAX as u64 {
            return None;
        }
        let slot_size = h.slot_size as usize;
        let wp = h.write_pointer as usize;
        let rp = h.read_pointer as usize;
        let ghost v = PipeView {
            slot_size: h.slot_size as nat,
            write_pointer: h.write_pointer as int,
            read_pointer: h.read_pointer as int,
            seq: h.seq,
            begin: h.begin,
            shared_value: h.shared_value,
            slots: slots@.map_values(|s: Slot| s@),
        };
        if n == 0 {
            if wp != 0 || rp != 0 {
                return None;
            }
        } else if wp >= n || rp >= n {
            return None;
        }
        if slot_size > u32::MAX as usize {
            return None;
        }
        let mut i: usize = 0;
        while i < n
            invariant
                i <= n,
                n == slots@.len(),
                v == (PipeView {
                    slot_size: h.slot_size as nat,
                    write_pointer: h.write_pointer as int,
                    read_pointer: h.read_pointer as int,
                    seq: h.seq,
                    begin: h.begin,
                    shared_value: h.shared_value,
                    slots: slots@.map_values(|s: Slot| s@),
                }),
                v.slot_size == slot_size,
                forall|j: int|
                    0 <= j < i ==> (#[trigger] v.slots[j]).data.len() == slot_size
                        && v.slots[j].data_size <= slot_size,
            decreases n - i,
        {
            if slots[i].data.len() != slot_size || slots[i].data_size as usize > slot_size {
                assert(v.slots[i as int] == slots@[i as int]@);
                assert(!v.wf());
                return None;
            }
            assert(v.slots[i as int] == slots@[i as int]@);
            i = i + 1;
        }
        Some(SlotPipe::from_parts(slot_size, wp, rp, h.seq, h.begin, h.shared_value, slots))
    }
}

} // verus!
