//! A ring of slots shared by processes: writers take the slot at the tail, readers the
//! slot at the head, each slot holding a request id and a fixed number of bytes. A
//! writer that finds the lock of a writer that died first clears the slots it left half
//! written.
use vstd::prelude::*;
use crate::ipc::{slot_at, next_slot};
use crate::layout::{u32_le, u32_at, u64_le, u64_at, push_u32, push_u64, push_bytes, read_u32, read_u64, copy_range, lemma_u32_in, lemma_u64_in, lemma_u32_len, lemma_u64_len};

verus! {

/// The state of a slot of the ring.
#[derive(Debug, Clone, Copy, PartialEq, Eq, Structural)]
pub enum SlotState {
    EMPTY,
    INPROGRESS,
    FULL,
}

/// What taking a lock of the ring gave.
#[derive(Debug)]
pub enum LockOutcome {
    /// The lock is held.
    Acquired,
    /// The lock is held, and the process that held it before died holding it.
    OwnerDied,
    /// The lock could not be taken.
    Failed,
}

/// One slot: its state, the id of the request it holds, and its bytes.
#[derive(Debug)]
pub struct RingSlot {
    pub state: SlotState,
    pub request_id: u64,
    pub data: Vec<u8>,
}

/// A slot as the logic sees it.
pub type SlotView = (SlotState, u64, Seq<u8>);

/// The ring as the logic sees it: where reading and writing stand, the next request
/// id, the bytes a slot holds, and the slots.
pub struct RingQueueView {
    pub head: nat,
    pub tail: nat,
    pub seq: u64,
    pub slot_size: nat,
    pub slots: Seq<SlotView>,
}

/// The bytes of a slot after `encoded` is written into it: as much of it as fits, the
/// rest of the slot as it was.
pub open spec fn written(old_data: Seq<u8>, encoded: Seq<u8>) -> Seq<u8> {
    Seq::new(
        old_data.len(),
        |k: int| if k < encoded.len() { encoded[k] } else { old_data[k] },
    )
}

/// A slot that a writer left half written, cleared; other slots as they are.
pub open spec fn cleared(s: SlotView) -> SlotView {
    if s.0 is INPROGRESS {
        (SlotState::EMPTY, 0, s.2)
    } else {
        s
    }
}

impl RingQueueView {
    /// Whether the positions are slots and every slot holds `slot_size` bytes.
    pub open spec fn wf(self) -> bool {
        &&& self.slots.len() > 0
        &&& self.head < self.slots.len()
        &&& self.tail < self.slots.len()
        &&& forall|i: int| 0 <= i < self.slots.len() ==> (#[trigger] self.slots[i]).2.len()
            == self.slot_size
    }

    /// The ring after the slots left half written are cleared.
    pub open spec fn recovered(self) -> RingQueueView {
        RingQueueView { slots: self.slots.map_values(|s: SlotView| cleared(s)), ..self }
    }

    /// The ring after `encoded` is written at the tail under the next id.
    pub open spec fn after_push(self, encoded: Seq<u8>) -> RingQueueView {
        RingQueueView {
            tail: next_slot(self.tail as int, self.slots.len() as int) as nat,
            seq: vstd::wrapping::u64_specs::wrapping_add(self.seq, 1),
            slots: self.slots.update(
                self.tail as int,
                (SlotState::FULL, self.seq, written(self.slots[self.tail as int].2, encoded)),
            ),
            ..self
        }
    }

    /// The ring after the slot at the head is taken.
    pub open spec fn after_pop(self) -> RingQueueView {
        RingQueueView {
            head: next_slot(self.head as int, self.slots.len() as int) as nat,
            slots: self.slots.update(
                self.head as int,
                (SlotState::EMPTY, 0, self.slots[self.head as int].2),
            ),
            ..self
        }
    }

    /// Whether the ring holds `c` messages in order: the `c` slots from the head are
    /// full, the others empty, and the tail is the slot after the last full one.
    pub open spec fn ordered(self, c: nat) -> bool {
        let n = self.slots.len() as int;
        &&& c <= n
        &&& self.tail == slot_at(self.head as int, c as int, n)
        &&& forall|i: int| 0 <= i < n ==> #[trigger] self.slots[slot_at(self.head as int, i, n)].0 == (
            if i < c {
                SlotState::FULL
            } else {
                SlotState::EMPTY
            })
    }

    /// The `c` messages waiting, oldest first: their ids and bytes.
    pub open spec fn messages(self, c: nat) -> Seq<(u64, Seq<u8>)> {
        Seq::new(
            c,
            |i: int|
                {
                    let s = self.slots[slot_at(self.head as int, i, self.slots.len() as int)];
                    (s.1, s.2)
                },
        )
    }
}

/// How many of the slots are full.
pub open spec fn full_count(slots: Seq<SlotView>) -> nat
    decreases slots.len(),
{
    if slots.len() == 0 {
        0
    } else {
        full_count(slots.drop_last()) + if slots.last().0 is FULL {
            1nat
        } else {
            0nat
        }
    }
}

/// Lemma: replacing one slot changes the count of full slots by what the old and the
/// new slot contribute.
proof fn lemma_full_count_update(slots: Seq<SlotView>, i: int, x: SlotView)
    requires
        0 <= i < slots.len(),
    ensures
        full_count(slots.update(i, x)) + (if slots[i].0 is FULL { 1int } else { 0int })
            == full_count(slots) + (if x.0 is FULL { 1int } else { 0int }),
    decreases slots.len(),
{
    let u = slots.update(i, x);
    if i < slots.len() - 1 {
        lemma_full_count_update(slots.drop_last(), i, x);
        assert(u.drop_last() =~= slots.drop_last().update(i, x));
    } else {
        assert(u.drop_last() =~= slots.drop_last());
    }
}

/// Law: a push that is accepted adds one to the count of waiting messages, and a pop
/// that takes a message removes one.
pub proof fn lemma_message_count_moves_by_one(v: RingQueueView, encoded: Seq<u8>)
    requires
        v.wf(),
    ensures
        v.slots[v.tail as int].0 is EMPTY ==> full_count(v.after_push(encoded).slots)
            == full_count(v.slots) + 1,
        v.slots[v.head as int].0 is FULL ==> full_count(v.after_pop().slots) + 1
            == full_count(v.slots),
{
    lemma_full_count_update(
        v.slots,
        v.tail as int,
        (SlotState::FULL, v.seq, written(v.slots[v.tail as int].2, encoded)),
    );
    lemma_full_count_update(v.slots, v.head as int, (SlotState::EMPTY, 0, v.slots[v.head as int].2));
}

/// A ring of slots with separate reading and writing positions.
pub struct RingQueue {
    head: usize,
    tail: usize,
    seq: u64,
    slot_size: usize,
    slots: Vec<RingSlot>,
}

impl View for RingQueue {
    type V = RingQueueView;

    closed spec fn view(&self) -> RingQueueView {
        RingQueueView {
            head: self.head as nat,
            tail: self.tail as nat,
            seq: self.seq,
            slot_size: self.slot_size as nat,
            slots: self.slots@.map_values(|s: RingSlot| (s.state, s.request_id, s.data@)),
        }
    }
}

impl RingQueue {
    /// Whether the ring's positions are slots and every slot has its size.
    pub open spec fn wf(&self) -> bool {
        self@.wf()
    }

    /// A ring of `n` empty slots of `slot_size` zero bytes; ids start at 1.
    pub fn new(n: usize, slot_size: usize) -> (r: RingQueue)
        requires
            n > 0,
        ensures
            r.wf(),
            r@.head == 0,
            r@.tail == 0,
            r@.seq == 1,
            r@.slot_size == slot_size,
            r@.slots.len() == n,
            forall|i: int| 0 <= i < n ==> (#[trigger] r@.slots[i]) == (SlotState::EMPTY, 0u64, Seq::new(slot_size as nat, |k: int| 0u8)),
    {
        let mut slots: Vec<RingSlot> = Vec::new();
        let mut i: usize = 0;
        while i < n
            invariant
                i <= n,
                slots@.len() == i,
                forall|j: int| 0 <= j < i ==> (#[trigger] slots@[j]).state is EMPTY && slots@[j].request_id == 0 && slots@[j].data@ == Seq::new(slot_size as nat, |k: int| 0u8),
            decreases n - i,
        {
            let mut data: Vec<u8> = Vec::new();
            let mut k: usize = 0;
            while k < slot_size
                invariant
                    k <= slot_size,
                    data@ == Seq::new(k as nat, |x: int| 0u8),
                decreases slot_size - k,
            {
                data.push(0);
                k = k + 1;
                assert(data@ =~= Seq::new(k as nat, |x: int| 0u8));
            }
            slots.push(RingSlot { state: SlotState::EMPTY, request_id: 0, data });
            i = i + 1;
        }
        let r = RingQueue { head: 0, tail: 0, seq: 1, slot_size, slots };
        assert forall|i: int| 0 <= i < n implies (#[trigger] r@.slots[i]) == (SlotState::EMPTY, 0u64, Seq::new(slot_size as nat, |k: int| 0u8)) by {
            assert(r@.slots[i] == (slots@[i].state, slots@[i].request_id, slots@[i].data@));
        }
        r
    }

    /// A ring made of the given parts, as read from a shared region, where they agree
    /// (the positions name slots, every slot holds `slot_size` bytes); `None` where
    /// they do not.
    pub fn from_parts(head: usize, tail: usize, seq: u64, slot_size: usize, slots: Vec<RingSlot>) -> (r: Option<RingQueue>)
        ensures
            match r {
                Some(q) => q.wf() && q@ == (RingQueueView {
                    head: head as nat,
                    tail: tail as nat,
                    seq,
                    slot_size: slot_size as nat,
                    slots: slots@.map_values(|s: RingSlot| (s.state, s.request_id, s.data@)),
                }),
                None => !(RingQueueView {
                    head: head as nat,
                    tail: tail as nat,
                    seq,
                    slot_size: slot_size as nat,
                    slots: slots@.map_values(|s: RingSlot| (s.state, s.request_id, s.data@)),
                }).wf(),
            },
    {
        let n = slots.len();
        if n == 0 || head >= n || tail >= n {
            return None;
        }
        let mut i: usize = 0;
        while i < n
            invariant
                i <= n,
                n == slots@.len(),
                forall|j: int| 0 <= j < i ==> (#[trigger] slots@[j]).data@.len() == slot_size,
            decreases n - i,
        {
            if slots[i].data.len() != slot_size {
                proof {
                    let v = slots@.map_values(|s: RingSlot| (s.state, s.request_id, s.data@));
                    assert(v[i as int].2.len() != slot_size);
                }
                return None;
            }
            i = i + 1;
        }
        let q = RingQueue { head, tail, seq, slot_size, slots };
        assert forall|j: int| 0 <= j < q@.slots.len() implies (#[trigger] q@.slots[j]).2.len()
            == q@.slot_size by {
            assert(q@.slots[j].2 == q.slots@[j].data@);
        }
        Some(q)
    }

    /// The number of slots.
    pub fn slot_count(&self) -> (n: usize)
        ensures
            n == self@.slots.len(),
    {
        self.slots.len()
    }

    /// The number of messages waiting: the full slots.
    pub fn message_count(&self) -> (n: usize)
        ensures
            n == full_count(self@.slots),
    {
        let ghost all = self@.slots;
        let mut n: usize = 0;
        let mut i: usize = 0;
        while i < self.slots.len()
            invariant
                i <= self.slots@.len(),
                all == self@.slots,
                n == full_count(all.subrange(0, i as int)),
                n <= i,
            decreases self.slots@.len() - i,
        {
            assert(all.subrange(0, i + 1).drop_last() =~= all.subrange(0, i as int));
            assert(all[i as int].0 == self.slots@[i as int].state);
            if self.slots[i].state == SlotState::FULL {
                n = n + 1;
            }
            i = i + 1;
        }
        assert(all.subrange(0, i as int) =~= all);
        n
    }

    /// Slot `index`.
    pub fn slot(&self, index: usize) -> (s: &RingSlot)
        requires
            index < self@.slots.len(),
        ensures
            (s.state, s.request_id, s.data@) == self@.slots[index as int],
    {
        &self.slots[index]
    }

    /// The reading position, the writing position, the next request id, the slot size,
    /// and the slots.
    pub fn into_parts(self) -> (r: (usize, usize, u64, usize, Vec<RingSlot>))
        ensures
            r.0 == self@.head,
            r.1 == self@.tail,
            r.2 == self@.seq,
            r.3 == self@.slot_size,
            r.4@.map_values(|s: RingSlot| (s.state, s.request_id, s.data@)) == self@.slots,
    {
        (self.head, self.tail, self.seq, self.slot_size, self.slots)
    }

    /// Clears the slots that a writer left half written.
    fn recover(&mut self)
        requires
            old(self).wf(),
        ensures
            final(self).wf(),
            final(self)@ == old(self)@.recovered(),
    {
        let n = self.slots.len();
        let mut i: usize = 0;
        let ghost start = self@;
        while i < n
            invariant
                i <= n,
                n == self.slots@.len(),
                start.slots.len() == n,
                start.wf(),
                self.head == start.head,
                self.tail == start.tail,
                self.seq == start.seq,
                self.slot_size == start.slot_size,
                forall|j: int| 0 <= j < n ==> #[trigger] self@.slots[j] == (if j < i {
                    cleared(start.slots[j])
                } else {
                    start.slots[j]
                }),
            decreases n - i,
        {
            let ghost before = self@;
            if self.slots[i].state == SlotState::INPROGRESS {
                assert(before.slots[i as int] == start.slots[i as int]);
                let data = take_data(&mut self.slots, i);
                self.slots.set(i, RingSlot { state: SlotState::EMPTY, request_id: 0, data });
                assert(self@.slots[i as int] == cleared(start.slots[i as int]));
                assert forall|j: int| 0 <= j < n && j != i implies #[trigger] self@.slots[j]
                    == before.slots[j] by {}
            }
            i = i + 1;
        }
        assert(self@.slots =~= start.recovered().slots);
    }

    /// Writes an encoded message at the tail, under the next id, after taking the
    /// writing lock (`lock`): refused where the lock failed or the tail slot is not
    /// empty; a lock whose holder died clears the slots it left half written first.
    /// As much of the message as fits the slot is kept.
    pub fn push(&mut self, lock: LockOutcome, encoded: &[u8]) -> (r: Result<u64, &'static str>)
        requires
            old(self).wf(),
        ensures
            final(self).wf(),
            lock is Failed ==> (r matches Err(m) && m@ == "Failed to lock tail mutex"@ && final(self)@ == old(self)@),
            ({
                let v = if lock is OwnerDied { old(self)@.recovered() } else { old(self)@ };
                !(lock is Failed) ==> if v.slots[v.tail as int].0 is EMPTY {
                    r == Ok::<u64, &'static str>(v.seq) && final(self)@ == v.after_push(encoded@)
                } else {
                    r matches Err(m) && m@ == "队列已满"@ && final(self)@ == v
                }
            }),
    {
        match lock {
            LockOutcome::Failed => {
                return Err("Failed to lock tail mutex");
            },
            LockOutcome::OwnerDied => {
                self.recover();
            },
            LockOutcome::Acquired => {},
        }
        let t = self.tail;
        let n = self.slots.len();
        if self.slots[t].state != SlotState::EMPTY {
            return Err("队列已满");
        }
        let id = self.seq;
        self.seq = self.seq.wrapping_add(1);
        let ghost before = self@;
        let mut data = take_data(&mut self.slots, t);
        let len = if encoded.len() < self.slot_size { encoded.len() } else { self.slot_size };
        copy_prefix(&mut data, encoded, len);
        self.slots.set(t, RingSlot { state: SlotState::FULL, request_id: id, data });
        self.tail = if t + 1 == n { 0 } else { t + 1 };
        proof {
            let v = if lock is OwnerDied { old(self)@.recovered() } else { old(self)@ };
            assert(written(before.slots[t as int].2, encoded@.take(len as int)) =~= written(
                before.slots[t as int].2,
                encoded@,
            ));
            assert(self@.slots =~= v.after_push(encoded@).slots);
        }
        Ok(id)
    }

    /// Takes the slot at the head after taking the reading lock (`lock`): its id and
    /// bytes; nothing where the lock failed or the head slot is not full.
    pub fn pop(&mut self, lock: LockOutcome) -> (r: Option<(u64, Vec<u8>)>)
        requires
            old(self).wf(),
        ensures
            final(self).wf(),
            (lock is Failed || !(old(self)@.slots[old(self)@.head as int].0 is FULL)) ==> r is None
                && final(self)@ == old(self)@,
            !(lock is Failed) && old(self)@.slots[old(self)@.head as int].0 is FULL ==> (r matches Some(p)
                && p.0 == old(self)@.slots[old(self)@.head as int].1 && p.1@ == old(self)@.slots[old(self)@.head as int].2
                && final(self)@ == old(self)@.after_pop()),
    {
        if let LockOutcome::Failed = lock {
            return None;
        }
        let h = self.head;
        let n = self.slots.len();
        if self.slots[h].state != SlotState::FULL {
            return None;
        }
        let id = self.slots[h].request_id;
        let data = take_data(&mut self.slots, h);
        let out = copy_bytes(&data);
        self.slots.set(h, RingSlot { state: SlotState::EMPTY, request_id: 0, data });
        self.head = if h + 1 == n { 0 } else { h + 1 };
        proof {
            assert(self@.slots =~= old(self)@.after_pop().slots);
        }
        Some((id, out))
    }
}

/// The bytes of slot `i`, leaving the slot with none.
fn take_data(slots: &mut Vec<RingSlot>, i: usize) -> (d: Vec<u8>)
    requires
        i < old(slots)@.len(),
    ensures
        d@ == old(slots)@[i as int].data@,
        final(slots)@.len() == old(slots)@.len(),
        final(slots)@[i as int].state == old(slots)@[i as int].state,
        final(slots)@[i as int].request_id == old(slots)@[i as int].request_id,
        forall|j: int| 0 <= j < old(slots)@.len() && j != i ==> #[trigger] final(slots)@[j] == old(slots)@[j],
{
    let s = slots.remove(i);
    let RingSlot { state, request_id, data } = s;
    slots.insert(i, RingSlot { state, request_id, data: Vec::new() });
    data
}

/// Copies the first `len` bytes of `src` over the start of `dst`.
fn copy_prefix(dst: &mut Vec<u8>, src: &[u8], len: usize)
    requires
        len <= src@.len(),
        len <= old(dst)@.len(),
    ensures
        final(dst)@ == written(old(dst)@, src@.take(len as int)),
{
    let ghost start = dst@;
    let mut i: usize = 0;
    while i < len
        invariant
            i <= len <= src@.len(),
            len <= start.len(),
            dst@.len() == start.len(),
            forall|k: int| 0 <= k < start.len() ==> #[trigger] dst@[k] == (if k < i { src@[k] } else { start[k] }),
        decreases len - i,
    {
        dst.set(i, src[i]);
        i = i + 1;
    }
    assert(dst@ =~= written(start, src@.take(len as int)));
}

/// A copy of a byte vector.
fn copy_bytes(v: &Vec<u8>) -> (c: Vec<u8>)
    ensures
        c@ == v@,
{
    let mut c: Vec<u8> = Vec::new();
    let mut i: usize = 0;
    while i < v.len()
        invariant
            i <= v@.len(),
            c@ == v@.subrange(0, i as int),
        decreases v@.len() - i,
    {
        c.push(v[i]);
        i = i + 1;
        assert(c@ =~= v@.subrange(0, i as int));
    }
    assert(c@ =~= v@);
    c
}

} // verus!

verus! {

/// Law: what a push adds: on a ring holding `c < n` messages in order, the tail slot is
/// empty, and a push puts the message (as much of it as fits) behind the others, under
/// the next id.
pub proof fn lemma_push_appends(v: RingQueueView, c: nat, encoded: Seq<u8>)
    requires
        v.wf(),
        v.ordered(c),
        c < v.slots.len(),
    ensures
        v.slots[v.tail as int].0 is EMPTY,
        v.after_push(encoded).wf(),
        v.after_push(encoded).ordered(c + 1),
        v.after_push(encoded).messages(c + 1) == v.messages(c).push(
            (v.seq, written(v.slots[v.tail as int].2, encoded)),
        ),
{
    let n = v.slots.len() as int;
    let h = v.head as int;
    let w = v.after_push(encoded);
    assert(v.slots[slot_at(h, c as int, n)].0 == SlotState::EMPTY);
    assert forall|i: int| 0 <= i < n implies #[trigger] w.slots[slot_at(h, i, n)].0 == (if i < c
        + 1 {
        SlotState::FULL
    } else {
        SlotState::EMPTY
    }) by {
        assert(v.slots[slot_at(h, i, n)].0 == (if i < c {
            SlotState::FULL
        } else {
            SlotState::EMPTY
        }));
        if i != c {
            if i < c {
                crate::ipc::lemma_slots_apart(h, i, c as int, n);
            } else {
                crate::ipc::lemma_slots_apart(h, c as int, i, n);
            }
        }
    }
    assert forall|i: int| 0 <= i < w.slots.len() implies (#[trigger] w.slots[i]).2.len()
        == w.slot_size by {}
    assert forall|i: int| 0 <= i < c + 1 implies #[trigger] w.messages(c + 1)[i] == v.messages(
        c,
    ).push((v.seq, written(v.slots[v.tail as int].2, encoded)))[i] by {
        if i < c {
            crate::ipc::lemma_slots_apart(h, i, c as int, n);
        }
    }
    assert(w.messages(c + 1) =~= v.messages(c).push(
        (v.seq, written(v.slots[v.tail as int].2, encoded)),
    ));
}

/// Law: what a pop takes: on a ring holding `c > 0` messages in order, the head slot is
/// full and holds the oldest message, and taking it leaves the others in order.
pub proof fn lemma_pop_takes_front(v: RingQueueView, c: nat)
    requires
        v.wf(),
        v.ordered(c),
        c > 0,
    ensures
        v.slots[v.head as int].0 is FULL,
        (v.slots[v.head as int].1, v.slots[v.head as int].2) == v.messages(c)[0],
        v.after_pop().wf(),
        v.after_pop().ordered((c - 1) as nat),
        v.after_pop().messages((c - 1) as nat) == v.messages(c).drop_first(),
{
    let n = v.slots.len() as int;
    let h = v.head as int;
    let w = v.after_pop();
    assert(slot_at(h, 0, n) == h);
    assert(v.slots[slot_at(h, 0, n)].0 == SlotState::FULL);
    assert forall|i: int| 0 <= i < n implies #[trigger] w.slots[slot_at(w.head as int, i, n)].0
        == (if i < c - 1 {
        SlotState::FULL
    } else {
        SlotState::EMPTY
    }) by {
        if i + 1 < n {
            assert(slot_at(w.head as int, i, n) == slot_at(h, i + 1, n));
            assert(v.slots[slot_at(h, i + 1, n)].0 == (if i + 1 < c {
                SlotState::FULL
            } else {
                SlotState::EMPTY
            }));
            crate::ipc::lemma_slots_apart(h, 0, i + 1, n);
        } else {
            assert(slot_at(w.head as int, i, n) == h);
        }
    }
    assert forall|i: int| 0 <= i < w.slots.len() implies (#[trigger] w.slots[i]).2.len()
        == w.slot_size by {}
    assert forall|i: int| 0 <= i < c - 1 implies #[trigger] w.messages((c - 1) as nat)[i]
        == v.messages(c).drop_first()[i] by {
        assert(slot_at(w.head as int, i, n) == slot_at(h, i + 1, n));
        crate::ipc::lemma_slots_apart(h, 0, i + 1, n);
    }
    assert(w.messages((c - 1) as nat) =~= v.messages(c).drop_first());
}

/// Law: a ring whose slots are all empty or full has nothing to clear: recovery leaves
/// it as it is.
pub proof fn lemma_recover_ordered(v: RingQueueView, c: nat)
    requires
        v.wf(),
        v.ordered(c),
    ensures
        v.recovered() == v,
{
    let n = v.slots.len() as int;
    let h = v.head as int;
    assert forall|j: int| 0 <= j < n implies #[trigger] v.recovered().slots[j] == v.slots[j] by {
        let i = if j >= h {
            j - h
        } else {
            j + n - h
        };
        assert(slot_at(h, i, n) == j);
        assert(v.slots[slot_at(h, i, n)].0 == (if i < c {
            SlotState::FULL
        } else {
            SlotState::EMPTY
        }));
    }
    assert(v.recovered().slots =~= v.slots);
}

} // verus!

verus! {

/// Law: what a pop gives back of a push: on an empty ring in order, a push followed by
/// a pop gives the id the push took and the slot's bytes with the message written over
/// their start, and leaves the ring empty and in order.
pub proof fn lemma_push_then_pop(v: RingQueueView, encoded: Seq<u8>)
    requires
        v.wf(),
        v.ordered(0),
    ensures
        v.after_push(encoded).slots[v.after_push(encoded).head as int].0 is FULL,
        v.after_push(encoded).slots[v.after_push(encoded).head as int].1 == v.seq,
        v.after_push(encoded).slots[v.after_push(encoded).head as int].2 == written(
            v.slots[v.tail as int].2,
            encoded,
        ),
        v.after_push(encoded).after_pop().ordered(0),
{
    lemma_push_appends(v, 0, encoded);
    let w = v.after_push(encoded);
    lemma_pop_takes_front(w, 1);
    assert(v.messages(0).push((v.seq, written(v.slots[v.tail as int].2, encoded)))[0] == (
    v.seq, written(v.slots[v.tail as int].2, encoded)));
}

} // verus!

verus! {

/// The bytes of the ring's positions and id counter in shared memory.
pub const RING_HEADER_SIZE: usize = 24;

/// The bytes in front of a ring slot's data in shared memory.
pub const RING_SLOT_HEADER_SIZE: usize = 16;

/// The word that stands for a slot state in shared memory.
pub open spec fn ring_state_code(s: SlotState) -> u32 {
    match s {
        SlotState::EMPTY => 0,
        SlotState::INPROGRESS => 1,
        SlotState::FULL => 2,
    }
}

/// The slot state a word stands for, if any.
pub open spec fn ring_state_of(c: u32) -> Option<SlotState> {
    if c == 0 {
        Some(SlotState::EMPTY)
    } else if c == 1 {
        Some(SlotState::INPROGRESS)
    } else if c == 2 {
        Some(SlotState::FULL)
    } else {
        None
    }
}

/// The bytes of a ring slot in shared memory: its state word, a word of padding, its
/// request id, then its data.
pub open spec fn ring_slot_bytes(s: SlotView) -> Seq<u8> {
    u32_le(ring_state_code(s.0)) + u32_le(0) + u64_le(s.1) + s.2
}

/// The slot that bytes in shared memory hold, where the state word stands for a state.
pub open spec fn ring_slot_of_bytes(b: Seq<u8>) -> Option<SlotView> {
    match ring_state_of(u32_at(b, 0) as u32) {
        Some(st) => Some((st, u64_at(b, 8) as u64, b.subrange(RING_SLOT_HEADER_SIZE as int, b.len() as int))),
        None => None,
    }
}

/// Law: a ring slot read back from its bytes is the slot written.
pub proof fn lemma_ring_slot_round_trip(s: SlotView)
    ensures
        ring_slot_of_bytes(ring_slot_bytes(s)) == Some(s),
        ring_slot_bytes(s).len() == RING_SLOT_HEADER_SIZE + s.2.len(),
{
    let b = ring_slot_bytes(s);
    lemma_u32_len(ring_state_code(s.0));
    lemma_u32_len(0);
    lemma_u64_len(s.1);
    assert(b.subrange(0, 4) =~= u32_le(ring_state_code(s.0)));
    assert(b.subrange(8, 16) =~= u64_le(s.1));
    lemma_u32_in(b, 0, ring_state_code(s.0));
    lemma_u64_in(b, 8, s.1);
    assert(b.subrange(16, b.len() as int) =~= s.2);
}

impl RingSlot {
    /// The bytes of the slot in shared memory.
    pub fn to_bytes(&self) -> (r: Vec<u8>)
        ensures
            r@ == ring_slot_bytes((self.state, self.request_id, self.data@)),
    {
        let code: u32 = match self.state {
            SlotState::EMPTY => 0,
            SlotState::INPROGRESS => 1,
            SlotState::FULL => 2,
        };
        let mut r: Vec<u8> = Vec::new();
        push_u32(&mut r, code);
        push_u32(&mut r, 0);
        push_u64(&mut r, self.request_id);
        push_bytes(&mut r, self.data.as_slice());
        r
    }

    /// The slot that bytes in shared memory hold, where the state word stands for a
    /// state.
    pub fn from_bytes(b: &[u8]) -> (r: Option<RingSlot>)
        requires
            b@.len() >= RING_SLOT_HEADER_SIZE,
        ensures
            match ring_slot_of_bytes(b@) {
                Some(s) => r matches Some(x) && (x.state, x.request_id, x.data@) == s,
                None => r is None,
            },
    {
        let code = read_u32(b, 0);
        let state = if code == 0 {
            SlotState::EMPTY
        } else if code == 1 {
            SlotState::INPROGRESS
        } else if code == 2 {
            SlotState::FULL
        } else {
            return None;
        };
        Some(RingSlot { state, request_id: read_u64(b, 8), data: copy_range(b, RING_SLOT_HEADER_SIZE, b.len()) })
    }
}

/// The bytes of a ring's positions and id counter in shared memory.
pub open spec fn ring_header_bytes(v: RingQueueView) -> Seq<u8> {
    u64_le(v.head as u64) + u64_le(v.tail as u64) + u64_le(v.seq)
}

impl RingQueue {
    /// The bytes of the ring's positions and id counter in shared memory.
    pub fn header_bytes(&self) -> (r: Vec<u8>)
        ensures
            r@ == ring_header_bytes(self@),
    {
        let mut r: Vec<u8> = Vec::new();
        push_u64(&mut r, self.head as u64);
        push_u64(&mut r, self.tail as u64);
        push_u64(&mut r, self.seq);
        r
    }

    /// The ring that header bytes and slots read from shared memory make, where they
    /// agree; `None` where they do not.
    pub fn assemble(header: &[u8], slot_size: usize, slots: Vec<RingSlot>) -> (r: Option<RingQueue>)
        requires
            header@.len() >= RING_HEADER_SIZE,
        ensures
            match r {
                Some(q) => q.wf() && q@ == (RingQueueView {
                    head: u64_at(header@, 0) as nat,
                    tail: u64_at(header@, 8) as nat,
                    seq: u64_at(header@, 16) as u64,
                    slot_size: slot_size as nat,
                    slots: slots@.map_values(|s: RingSlot| (s.state, s.request_id, s.data@)),
                }),
                None => u64_at(header@, 0) > usize::MAX || u64_at(header@, 8) > usize::MAX || !(
                RingQueueView {
                    head: u64_at(header@, 0) as nat,
                    tail: u64_at(header@, 8) as nat,
                    seq: u64_at(header@, 16) as u64,
                    slot_size: slot_size as nat,
                    slots: slots@.map_values(|s: RingSlot| (s.state, s.request_id, s.data@)),
                }).wf(),
            },
    {
        let head = read_u64(header, 0);
        let tail = read_u64(header, 8);
        let seq = read_u64(header, 16);
        if head > usize::MAX as u64 || tail > usize::MAX as u64 {
            return None;
        }
        RingQueue::from_parts(head as usize, tail as usize, seq, slot_size, slots)
    }
}

/// Law: the positions and id counter read back from a ring's header bytes are the
/// ring's.
pub proof fn lemma_ring_header_round_trip(v: RingQueueView)
    requires
        v.head <= u64::MAX,
        v.tail <= u64::MAX,
    ensures
        ring_header_bytes(v).len() == RING_HEADER_SIZE,
        u64_at(ring_header_bytes(v), 0) == v.head,
        u64_at(ring_header_bytes(v), 8) == v.tail,
        u64_at(ring_header_bytes(v), 16) == v.seq,
{
    let b = ring_header_bytes(v);
    lemma_u64_len(v.head as u64);
    lemma_u64_len(v.tail as u64);
    lemma_u64_len(v.seq);
    assert(b.subrange(0, 8) =~= u64_le(v.head as u64));
    assert(b.subrange(8, 16) =~= u64_le(v.tail as u64));
    assert(b.subrange(16, 24) =~= u64_le(v.seq));
    lemma_u64_in(b, 0, v.head as u64);
    lemma_u64_in(b, 8, v.tail as u64);
    lemma_u64_in(b, 16, v.seq);
}

} // verus!
