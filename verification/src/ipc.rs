//! The cross-process message queue: its errors, its messages and their ids, references
//! to large data kept in files, and the ring of fixed-size slots in which messages wait,
//! each a length and the message's bytes.
use vstd::prelude::*;
use vstd::utf8::encode_utf8;
use crate::text::{decimal, push_decimal};
use crate::message::unix_time_secs;
use crate::layout::{u32_le, u32_at, push_u32, read_u32, lemma_u32_in, lemma_u32_len};

verus! {

/// Errors of shared memory and of the queue.
#[derive(Debug)]
pub enum SharedMemoryError {
    CreationFailed(String),
    AccessFailed(String),
    LockFailed(String),
    InvalidSize,
    InvalidName,
    CorruptedData(String),
    SerializationFailed(String),
    DeserializationFailed(String),
    QueueFull,
    QueueEmpty,
    SystemCallFailed(String),
    MmapFailed(String),
}

impl SharedMemoryError {
    /// The text of the error.
    pub open spec fn spec_message(&self) -> Seq<char> {
        match self {
            SharedMemoryError::CreationFailed(s) => "创建失败: "@ + s@,
            SharedMemoryError::AccessFailed(s) => "访问失败: "@ + s@,
            SharedMemoryError::LockFailed(s) => "锁操作失败: "@ + s@,
            SharedMemoryError::InvalidSize => "无效的大小"@,
            SharedMemoryError::InvalidName => "无效的名称"@,
            SharedMemoryError::CorruptedData(s) => "数据损坏: "@ + s@,
            SharedMemoryError::SerializationFailed(s) => "序列化失败: "@ + s@,
            SharedMemoryError::DeserializationFailed(s) => "反序列化失败: "@ + s@,
            SharedMemoryError::QueueFull => "队列已满"@,
            SharedMemoryError::QueueEmpty => "队列为空"@,
            SharedMemoryError::SystemCallFailed(s) => "系统调用失败: "@ + s@,
            SharedMemoryError::MmapFailed(s) => "内存映射失败: "@ + s@,
        }
    }

    /// The text of the error.
    pub fn message(&self) -> (m: String)
        ensures
            m@ == self.spec_message(),
    {
        let (head, detail): (&str, Option<&String>) = match self {
            SharedMemoryError::CreationFailed(s) => ("创建失败: ", Some(s)),
            SharedMemoryError::AccessFailed(s) => ("访问失败: ", Some(s)),
            SharedMemoryError::LockFailed(s) => ("锁操作失败: ", Some(s)),
            SharedMemoryError::InvalidSize => ("无效的大小", None),
            SharedMemoryError::InvalidName => ("无效的名称", None),
            SharedMemoryError::CorruptedData(s) => ("数据损坏: ", Some(s)),
            SharedMemoryError::SerializationFailed(s) => ("序列化失败: ", Some(s)),
            SharedMemoryError::DeserializationFailed(s) => ("反序列化失败: ", Some(s)),
            SharedMemoryError::QueueFull => ("队列已满", None),
            SharedMemoryError::QueueEmpty => ("队列为空", None),
            SharedMemoryError::SystemCallFailed(s) => ("系统调用失败: ", Some(s)),
            SharedMemoryError::MmapFailed(s) => ("内存映射失败: ", Some(s)),
        };
        let mut m = String::from_str(head);
        if let Some(s) = detail {
            m.append(s.as_str());
        }
        m
    }

    /// Whether the error is `QueueFull`.
    pub fn is_queue_full(&self) -> (b: bool)
        ensures
            b == (*self is QueueFull),
    {
        match self {
            SharedMemoryError::QueueFull => true,
            _ => false,
        }
    }

    /// Whether the error is `QueueEmpty`.
    pub fn is_queue_empty(&self) -> (b: bool)
        ensures
            b == (*self is QueueEmpty),
    {
        match self {
            SharedMemoryError::QueueEmpty => true,
            _ => false,
        }
    }
}

/// The generator of ids: the state after `seed` is `seed * 1103515245 + 12345`, modulo
/// 2^64.
pub open spec fn lcg_next(seed: u64) -> u64 {
    ((seed as nat * 1103515245 + 12345) % 0x1_0000_0000_0000_0000) as u64
}

/// Lemma: the generator's step is a wrapping multiplication followed by a wrapping
/// addition.
proof fn lemma_lcg_step(cur: u64)
    ensures
        vstd::wrapping::u64_specs::wrapping_add(
            vstd::wrapping::u64_specs::wrapping_mul(cur, 1103515245),
            12345,
        ) == lcg_next(cur),
{
    let m: int = 0x1_0000_0000_0000_0000;
    let p: int = cur as int * 1103515245;
    let a = vstd::wrapping::u64_specs::wrapping_mul(cur, 1103515245);
    assert(a as int == p % m);
    vstd::arithmetic::div_mod::lemma_add_mod_noop(p, 12345, m);
    vstd::arithmetic::div_mod::lemma_small_mod(12345, m as nat);
    if a as int + 12345 > u64::MAX {
        vstd::arithmetic::div_mod::lemma_small_mod((a as int + 12345 - m) as nat, m as nat);
        vstd::arithmetic::div_mod::lemma_mod_sub_multiples_vanish(a as int + 12345, m);
    } else {
        vstd::arithmetic::div_mod::lemma_small_mod((a as int + 12345) as nat, m as nat);
    }
}

/// The next number of the generator whose state is `seed`; the state moves on to it.
pub fn random(seed: &mut u64) -> (r: u64)
    ensures
        r == lcg_next(*old(seed)),
        *final(seed) == r,
{
    let cur = *seed;
    let a = cur.wrapping_mul(1103515245);
    let next = a.wrapping_add(12345);
    proof {
        lemma_lcg_step(cur);
    }
    *seed = next;
    next
}

/// A message of the queue: its id, its bytes and the time it was made (seconds since
/// the Unix epoch).
#[derive(Debug)]
pub struct Message {
    pub id: u64,
    pub data: Vec<u8>,
    pub timestamp: u64,
}

/// The UTF-8 bytes of a string.
fn utf8_bytes(s: &String) -> (v: Vec<u8>)
    ensures
        v@ == encode_utf8(s@),
{
    let bytes = s.as_str().as_bytes();
    let mut v: Vec<u8> = Vec::new();
    let mut i: usize = 0;
    while i < bytes.len()
        invariant
            i <= bytes@.len(),
            v@ == bytes@.subrange(0, i as int),
        decreases bytes@.len() - i,
    {
        v.push(bytes[i]);
        i = i + 1;
        assert(v@ =~= bytes@.subrange(0, i as int));
    }
    assert(v@ =~= bytes@);
    v
}

impl Message {
    /// A message with the UTF-8 bytes of `data`, made at `timestamp`, whose id is the
    /// next number of the generator `seed`; the binary data is not kept.
    pub fn with_timestamp(data: String, _binary_data: Vec<u8>, seed: &mut u64, timestamp: u64) -> (m: Message)
        ensures
            m.id == lcg_next(*old(seed)),
            *final(seed) == m.id,
            m.data@ == encode_utf8(data@),
            m.timestamp == timestamp,
    {
        let id = random(seed);
        Message { id, data: utf8_bytes(&data), timestamp }
    }

    /// A message made now (the time is 0 where the clock reads earlier than the Unix
    /// epoch); see `with_timestamp`.
    pub fn new(data: String, _binary_data: Vec<u8>, seed: &mut u64) -> (m: Message)
        ensures
            m.id == lcg_next(*old(seed)),
            *final(seed) == m.id,
            m.data@ == encode_utf8(data@),
    {
        let timestamp = match unix_time_secs() {
            Some(t) => t,
            None => 0,
        };
        Message::with_timestamp(data, _binary_data, seed, timestamp)
    }
}

/// Where large data is kept.
#[derive(Debug)]
pub enum DataStorageType {
    SharedMemory,
    File(String),
}

/// A reference to large data: its id, its size and where it is kept.
#[derive(Debug)]
pub struct LargeDataReference {
    pub id: String,
    pub size: usize,
    pub storage_type: DataStorageType,
}

/// Keeps large data in files under a base directory.
pub struct LargeDataManager {
    base_path: String,
}

/// The id of the large data numbered `n`.
pub open spec fn large_data_id(n: u64) -> Seq<char> {
    "large_data_"@ + decimal(n as nat)
}

impl LargeDataManager {
    /// A manager keeping files under `base_path`.
    pub fn new(base_path: String) -> (m: LargeDataManager)
        ensures
            m.base_path() == base_path@,
    {
        LargeDataManager { base_path }
    }

    /// The base directory.
    pub closed spec fn base_path(&self) -> Seq<char> {
        self.base_path@
    }

    /// Where data of `size` bytes numbered `n` is stored: id `large_data_<n>`, in the
    /// file of that name under the base directory.
    pub fn store_reference(&self, n: u64, size: usize) -> (r: LargeDataReference)
        ensures
            r.id@ == large_data_id(n),
            r.size == size,
            r.storage_type matches DataStorageType::File(p) && p@ == self.base_path() + "/"@
                + large_data_id(n),
    {
        let mut id = String::from_str("large_data_");
        push_decimal(&mut id, n);
        let mut path = self.base_path.clone();
        path.append("/");
        path.append(id.as_str());
        LargeDataReference { id, size, storage_type: DataStorageType::File(path) }
    }

    /// The file that holds the data a reference names; data in shared memory cannot be
    /// loaded.
    pub fn load_path(&self, reference: &LargeDataReference) -> (r: Result<String, SharedMemoryError>)
        ensures
            match reference.storage_type {
                DataStorageType::File(p) => r matches Ok(q) && q@ == p@,
                DataStorageType::SharedMemory => r matches Err(SharedMemoryError::AccessFailed(m))
                    && m@ == "SharedMemory storage not implemented"@,
            },
    {
        match &reference.storage_type {
            DataStorageType::File(p) => Ok(p.clone()),
            DataStorageType::SharedMemory => Err(
                SharedMemoryError::AccessFailed(
                    String::from_str("SharedMemory storage not implemented"),
                ),
            ),
        }
    }
}

/// The header of a queue: its capacity, where reading and writing stand, how many
/// messages it holds, and its lock word.
#[derive(Debug)]
pub struct QueueHeader {
    pub capacity: u32,
    pub head: u32,
    pub tail: u32,
    pub message_count: u32,
    pub lock: u32,
}

impl QueueHeader {
    /// The header of an empty, unlocked queue of `capacity` messages.
    pub fn new(capacity: u32) -> (h: QueueHeader)
        ensures
            h.capacity == capacity,
            h.head == 0,
            h.tail == 0,
            h.message_count == 0,
            h.lock == 0,
    {
        QueueHeader { capacity, head: 0, tail: 0, message_count: 0, lock: 0 }
    }
}

/// The bytes of a queue's header: capacity, head, tail, message count and lock word,
/// four bytes each, least significant first.
pub open spec fn header_bytes(h: QueueHeader) -> Seq<u8> {
    u32_le(h.capacity) + u32_le(h.head) + u32_le(h.tail) + u32_le(h.message_count) + u32_le(
        h.lock,
    )
}

impl QueueHeader {
    /// The bytes of the header.
    pub fn to_bytes(&self) -> (r: Vec<u8>)
        ensures
            r@ == header_bytes(*self),
    {
        let mut r: Vec<u8> = Vec::new();
        push_u32(&mut r, self.capacity);
        push_u32(&mut r, self.head);
        push_u32(&mut r, self.tail);
        push_u32(&mut r, self.message_count);
        push_u32(&mut r, self.lock);
        r
    }

    /// The header the first bytes of `b` hold.
    pub fn from_bytes(b: &[u8]) -> (h: QueueHeader)
        requires
            b@.len() >= HEADER_SIZE,
        ensures
            h.capacity == u32_at(b@, 0),
            h.head == u32_at(b@, 4),
            h.tail == u32_at(b@, 8),
            h.message_count == u32_at(b@, 12),
            h.lock == u32_at(b@, 16),
    {
        QueueHeader {
            capacity: read_u32(b, 0),
            head: read_u32(b, 4),
            tail: read_u32(b, 8),
            message_count: read_u32(b, 12),
            lock: read_u32(b, 16),
        }
    }
}

/// Law: a header read back from its bytes is the header written.
pub proof fn lemma_header_round_trip(h: QueueHeader)
    ensures
        header_bytes(h).len() == HEADER_SIZE,
        u32_at(header_bytes(h), 0) == h.capacity,
        u32_at(header_bytes(h), 4) == h.head,
        u32_at(header_bytes(h), 8) == h.tail,
        u32_at(header_bytes(h), 12) == h.message_count,
        u32_at(header_bytes(h), 16) == h.lock,
{
    let b = header_bytes(h);
    lemma_u32_len(h.capacity);
    lemma_u32_len(h.head);
    lemma_u32_len(h.tail);
    lemma_u32_len(h.message_count);
    lemma_u32_len(h.lock);
    assert(b.subrange(0, 4) =~= u32_le(h.capacity));
    assert(b.subrange(4, 8) =~= u32_le(h.head));
    assert(b.subrange(8, 12) =~= u32_le(h.tail));
    assert(b.subrange(12, 16) =~= u32_le(h.message_count));
    assert(b.subrange(16, 20) =~= u32_le(h.lock));
    lemma_u32_in(b, 0, h.capacity);
    lemma_u32_in(b, 4, h.head);
    lemma_u32_in(b, 8, h.tail);
    lemma_u32_in(b, 12, h.message_count);
    lemma_u32_in(b, 16, h.lock);
}

/// What the status of a queue reports.
#[derive(Debug)]
pub struct QueueStatus {
    pub capacity: u32,
    pub message_count: u32,
    pub head: u32,
    pub tail: u32,
}

/// How many failed attempts to take a queue's lock are tolerated.
pub const LOCK_ATTEMPTS: u32 = 10000;

/// What to do after an attempt to take a queue's lock, with `attempts` failed ones
/// before it: go on where it succeeded; else try again, unless more than
/// `LOCK_ATTEMPTS` attempts have failed.
pub fn after_lock_attempt(acquired: bool, attempts: u32) -> (r: Result<Option<u32>, SharedMemoryError>)
    requires
        attempts <= LOCK_ATTEMPTS,
    ensures
        acquired ==> r == Ok::<Option<u32>, SharedMemoryError>(None),
        !acquired && attempts + 1 <= LOCK_ATTEMPTS ==> r == Ok::<Option<u32>, SharedMemoryError>(
            Some((attempts + 1) as u32),
        ),
        !acquired && attempts + 1 > LOCK_ATTEMPTS ==> (r matches Err(SharedMemoryError::LockFailed(m))
            && m@ == "获取锁超时"@),
{
    if acquired {
        Ok(None)
    } else if attempts + 1 > LOCK_ATTEMPTS {
        Err(SharedMemoryError::LockFailed(String::from_str("获取锁超时")))
    } else {
        Ok(Some(attempts + 1))
    }
}

/// What a non-blocking receive answers: a message, nothing where the queue is empty,
/// or the error.
pub fn try_receive_outcome<T>(r: Result<T, SharedMemoryError>) -> (o: Result<Option<T>, SharedMemoryError>)
    ensures
        match r {
            Ok(m) => o == Ok::<Option<T>, SharedMemoryError>(Some(m)),
            Err(SharedMemoryError::QueueEmpty) => o == Ok::<Option<T>, SharedMemoryError>(None),
            Err(e) => o == Err::<Option<T>, SharedMemoryError>(e),
        },
{
    match r {
        Ok(m) => Ok(Some(m)),
        Err(SharedMemoryError::QueueEmpty) => Ok(None),
        Err(e) => Err(e),
    }
}

} // verus!

verus! {

/// The bytes each slot of a queue takes: a 4-byte length, then the message.
pub const MESSAGE_SIZE: usize = 4096;

/// The bytes of a queue's header, in front of its slots.
pub const HEADER_SIZE: usize = 20;

/// The four bytes of `n`, least significant first.
pub open spec fn le32(n: u32) -> Seq<u8> {
    seq![(n % 256) as u8, ((n / 256) % 256) as u8, ((n / 65536) % 256) as u8, ((n / 16777216) % 256) as u8]
}

/// The number the four bytes at `off` hold, least significant first.
pub open spec fn le32_at(region: Seq<u8>, off: int) -> int {
    region[off] + 256 * region[off + 1] + 65536 * region[off + 2] + 16777216 * region[off + 3]
}

/// Lemma: the four bytes of a number hold that number.
proof fn lemma_le32(n: u32)
    ensures
        (n % 256) as u8 + 256 * ((n / 256) % 256) as u8 + 65536 * ((n / 65536) % 256) as u8
            + 16777216 * ((n / 16777216) % 256) as u8 == n,
{
    assert((n % 256) + 256 * ((n / 256) % 256) + 65536 * ((n / 65536) % 256) + 16777216 * ((n
        / 16777216) % 256) == n) by (bit_vector);
}

/// The slot `i` places after `head` in a ring of `cap` slots.
pub open spec fn slot_at(head: int, i: int, cap: int) -> int {
    if head + i < cap {
        head + i
    } else {
        head + i - cap
    }
}

/// The slot after `s` in a ring of `cap` slots.
pub open spec fn next_slot(s: int, cap: int) -> int {
    if s + 1 == cap {
        0
    } else {
        s + 1
    }
}

/// The region after a message is written at `off`: its length, then its bytes.
pub open spec fn write_frame(region: Seq<u8>, off: int, bytes: Seq<u8>) -> Seq<u8> {
    Seq::new(
        region.len(),
        |k: int|
            if off <= k < off + 4 {
                le32(bytes.len() as u32)[k - off]
            } else if off + 4 <= k < off + 4 + bytes.len() {
                bytes[k - off - 4]
            } else {
                region[k]
            },
    )
}

/// The message a slot holds: as many bytes after its length as the length says.
pub open spec fn payload(region: Seq<u8>, slot: int) -> Seq<u8> {
    region.subrange(slot * 4096 + 4, slot * 4096 + 4 + le32_at(region, slot * 4096))
}

/// A queue as the logic sees it: its capacity, where reading and writing stand, how
/// many messages it holds, and the bytes of its slots (with the four bytes past the
/// last slot that a message of full slot size runs into).
pub struct RingView {
    pub capacity: nat,
    pub head: nat,
    pub tail: nat,
    pub count: nat,
    pub region: Seq<u8>,
}

impl RingView {
    /// Whether the positions agree with each other and the region with the capacity.
    pub open spec fn wf(self) -> bool {
        &&& self.count <= self.capacity
        &&& self.capacity <= u32::MAX
        &&& self.region.len() == self.capacity * 4096 + 4
        &&& if self.capacity > 0 {
            &&& self.head < self.capacity
            &&& self.tail < self.capacity
            &&& self.tail == slot_at(self.head as int, self.count as int, self.capacity as int)
        } else {
            self.head == 0 && self.tail == 0
        }
    }

    /// The messages waiting, oldest first.
    pub open spec fn frames(self) -> Seq<Seq<u8>> {
        Seq::new(
            self.count,
            |i: int| payload(self.region, slot_at(self.head as int, i, self.capacity as int)),
        )
    }

    /// Whether each waiting message fits its slot.
    pub open spec fn all_fit(self) -> bool {
        forall|i: int|
            0 <= i < self.count ==> #[trigger] le32_at(
                self.region,
                slot_at(self.head as int, i, self.capacity as int) * 4096,
            ) <= 4092
    }

    /// The queue after `bytes` is written at the tail.
    pub open spec fn after_send(self, bytes: Seq<u8>) -> RingView {
        RingView {
            tail: next_slot(self.tail as int, self.capacity as int) as nat,
            count: self.count + 1,
            region: write_frame(self.region, self.tail as int * 4096, bytes),
            ..self
        }
    }

    /// The queue after the message at the head is taken.
    pub open spec fn after_receive(self) -> RingView {
        RingView {
            head: next_slot(self.head as int, self.capacity as int) as nat,
            count: (self.count - 1) as nat,
            ..self
        }
    }
}

/// Lemma: two different slots of a ring are different places.
pub proof fn lemma_slots_apart(head: int, i: int, j: int, cap: int)
    requires
        0 <= head < cap,
        0 <= i < j <= cap,
        i < cap,
        j < cap || i > 0,
    ensures
        slot_at(head, i, cap) != slot_at(head, j, cap),
        0 <= slot_at(head, i, cap) < cap,
{
}

/// Lemma: writing a message that fits its slot leaves every other slot's message as it
/// was, and the slot written holds the message.
proof fn lemma_write_frame(region: Seq<u8>, t: int, bytes: Seq<u8>, s: int, cap: int)
    requires
        region.len() == cap * 4096 + 4,
        0 <= t < cap,
        0 <= s < cap,
        bytes.len() <= 4092,
        s != t ==> le32_at(region, s * 4096) <= 4092,
    ensures
        s != t ==> le32_at(write_frame(region, t * 4096, bytes), s * 4096) == le32_at(
            region,
            s * 4096,
        ),
        s != t ==> payload(write_frame(region, t * 4096, bytes), s) == payload(region, s),
        le32_at(write_frame(region, t * 4096, bytes), t * 4096) == bytes.len(),
        payload(write_frame(region, t * 4096, bytes), t) == bytes,
{
    let w = write_frame(region, t * 4096, bytes);
    lemma_le32(bytes.len() as u32);
    assert(w[t * 4096] == le32(bytes.len() as u32)[0]);
    assert(w[t * 4096 + 1] == le32(bytes.len() as u32)[1]);
    assert(w[t * 4096 + 2] == le32(bytes.len() as u32)[2]);
    assert(w[t * 4096 + 3] == le32(bytes.len() as u32)[3]);
    assert(payload(w, t) =~= bytes);
    if s != t {
        assert(w[s * 4096] == region[s * 4096]);
        assert(w[s * 4096 + 1] == region[s * 4096 + 1]);
        assert(w[s * 4096 + 2] == region[s * 4096 + 2]);
        assert(w[s * 4096 + 3] == region[s * 4096 + 3]);
        assert(payload(w, s) =~= payload(region, s));
    }
}

/// Law: what a send adds: sending a message that fits its slot to a queue that is not
/// full puts it behind the messages waiting.
pub proof fn lemma_send_appends(v: RingView, bytes: Seq<u8>)
    requires
        v.wf(),
        v.all_fit(),
        v.count < v.capacity,
        bytes.len() <= 4092,
    ensures
        v.after_send(bytes).wf(),
        v.after_send(bytes).all_fit(),
        v.after_send(bytes).frames() == v.frames().push(bytes),
{
    let w = v.after_send(bytes);
    let cap = v.capacity as int;
    let t = v.tail as int;
    assert forall|i: int| 0 <= i < v.count implies slot_at(v.head as int, i, cap) != t by {
        lemma_slots_apart(v.head as int, i, v.count as int, cap);
    }
    assert forall|i: int| 0 <= i < w.count implies #[trigger] le32_at(
        w.region,
        slot_at(w.head as int, i, cap) * 4096,
    ) <= 4092 by {
        let s = slot_at(v.head as int, i, cap);
        if i < v.count {
            assert(le32_at(v.region, s * 4096) <= 4092);
        }
        lemma_write_frame(v.region, t, bytes, s, cap);
    }
    assert forall|i: int| 0 <= i < w.count implies #[trigger] w.frames()[i] == v.frames().push(
        bytes,
    )[i] by {
        let s = slot_at(v.head as int, i, cap);
        if i < v.count {
            assert(le32_at(v.region, s * 4096) <= 4092);
        }
        lemma_write_frame(v.region, t, bytes, s, cap);
    }
    assert(w.frames() =~= v.frames().push(bytes));
}

/// Law: what a receive takes: the message at the head of a non-empty queue is the
/// oldest waiting, and taking it leaves the others in order.
pub proof fn lemma_receive_takes_front(v: RingView)
    requires
        v.wf(),
        v.all_fit(),
        v.count > 0,
    ensures
        le32_at(v.region, v.head as int * 4096) <= 4092,
        payload(v.region, v.head as int) == v.frames()[0],
        v.after_receive().wf(),
        v.after_receive().all_fit(),
        v.after_receive().frames() == v.frames().drop_first(),
{
    let w = v.after_receive();
    let cap = v.capacity as int;
    assert(slot_at(v.head as int, 0, cap) == v.head);
    assert(le32_at(v.region, slot_at(v.head as int, 0, cap) * 4096) <= 4092);
    assert forall|i: int| 0 <= i < w.count implies slot_at(w.head as int, i, cap) == slot_at(
        v.head as int,
        i + 1,
        cap,
    ) by {}
    assert forall|i: int| 0 <= i < w.count implies #[trigger] le32_at(
        w.region,
        slot_at(w.head as int, i, cap) * 4096,
    ) <= 4092 by {
        assert(le32_at(v.region, slot_at(v.head as int, i + 1, cap) * 4096) <= 4092);
    }
    assert(w.frames() =~= v.frames().drop_first());
}

/// One operation on a queue: a send of these bytes, or a receive.
pub enum RingOp {
    Send(Seq<u8>),
    Receive,
}

/// The queue after one operation, as `send_frame` and a `receive_frame` followed (where
/// it gave a message) by `commit_receive` leave it: a send changes nothing on a full queue
/// or for bytes longer than a slot; a receive changes nothing on an empty queue or where
/// the head's length does not fit its slot.
pub open spec fn ring_step(v: RingView, op: RingOp) -> RingView {
    match op {
        RingOp::Send(b) => if v.count < v.capacity && b.len() <= 4096 {
            v.after_send(b)
        } else {
            v
        },
        RingOp::Receive => if v.count > 0 && le32_at(v.region, v.head as int * 4096) <= 4092 {
            v.after_receive()
        } else {
            v
        },
    }
}

/// The queue after a series of operations.
pub open spec fn ring_run(v: RingView, ops: Seq<RingOp>) -> RingView
    decreases ops.len(),
{
    if ops.len() == 0 {
        v
    } else {
        ring_step(ring_run(v, ops.drop_last()), ops.last())
    }
}

/// The messages the receives of a series of operations give, in order.
pub open spec fn ring_received(v: RingView, ops: Seq<RingOp>) -> Seq<Seq<u8>>
    decreases ops.len(),
{
    if ops.len() == 0 {
        Seq::empty()
    } else {
        let before = ring_run(v, ops.drop_last());
        let got = ring_received(v, ops.drop_last());
        match ops.last() {
            RingOp::Receive => if before.count > 0 && le32_at(before.region, before.head as int * 4096)
                <= 4092 {
                got.push(payload(before.region, before.head as int))
            } else {
                got
            },
            RingOp::Send(_) => got,
        }
    }
}

/// A first-in first-out queue of at most `cap` messages after a series of operations:
/// a send appends where there is room, a receive takes the oldest where there is one.
pub open spec fn fifo_run(q: Seq<Seq<u8>>, cap: nat, ops: Seq<RingOp>) -> Seq<Seq<u8>>
    decreases ops.len(),
{
    if ops.len() == 0 {
        q
    } else {
        let p = fifo_run(q, cap, ops.drop_last());
        match ops.last() {
            RingOp::Send(b) => if p.len() < cap {
                p.push(b)
            } else {
                p
            },
            RingOp::Receive => if p.len() > 0 {
                p.drop_first()
            } else {
                p
            },
        }
    }
}

/// What the receives of a series of operations on a first-in first-out queue give.
pub open spec fn fifo_received(q: Seq<Seq<u8>>, cap: nat, ops: Seq<RingOp>) -> Seq<Seq<u8>>
    decreases ops.len(),
{
    if ops.len() == 0 {
        Seq::empty()
    } else {
        let p = fifo_run(q, cap, ops.drop_last());
        let got = fifo_received(q, cap, ops.drop_last());
        match ops.last() {
            RingOp::Receive => if p.len() > 0 {
                got.push(p[0])
            } else {
                got
            },
            RingOp::Send(_) => got,
        }
    }
}

/// Law: the queue is first in, first out over any series of sends and receives: where
/// every message sent fits its slot, the messages waiting and the messages received are
/// those of a first-in first-out queue of the same capacity.
pub proof fn lemma_ring_fifo(v: RingView, ops: Seq<RingOp>)
    requires
        v.wf(),
        v.all_fit(),
        forall|i: int| 0 <= i < ops.len() ==> (#[trigger] ops[i] matches RingOp::Send(b) ==> b.len()
            <= 4092),
    ensures
        ring_run(v, ops).wf(),
        ring_run(v, ops).all_fit(),
        ring_run(v, ops).frames() == fifo_run(v.frames(), v.capacity, ops),
        ring_received(v, ops) == fifo_received(v.frames(), v.capacity, ops),
        ring_run(v, ops).capacity == v.capacity,
    decreases ops.len(),
{
    if ops.len() > 0 {
        let pre = ops.drop_last();
        assert forall|i: int| 0 <= i < pre.len() implies (#[trigger] pre[i] matches RingOp::Send(b)
            ==> b.len() <= 4092) by {
            assert(pre[i] == ops[i]);
        }
        lemma_ring_fifo(v, pre);
        let w = ring_run(v, pre);
        assert(ops[ops.len() - 1] == ops.last());
        match ops.last() {
            RingOp::Send(b) => {
                if w.count < w.capacity && b.len() <= 4096 {
                    lemma_send_appends(w, b);
                }
            },
            RingOp::Receive => {
                if w.count > 0 {
                    lemma_receive_takes_front(w);
                }
            },
        }
    }
}

/// Law: what a receive gives back of a send: a message that fits its slot, sent to an
/// empty queue, is what the next receive gives, and taking it leaves the queue empty.
pub proof fn lemma_send_then_receive(v: RingView, bytes: Seq<u8>)
    requires
        v.wf(),
        v.count == 0,
        v.capacity > 0,
        bytes.len() <= 4092,
    ensures
        le32_at(v.after_send(bytes).region, v.after_send(bytes).head as int * 4096) <= 4092,
        payload(v.after_send(bytes).region, v.after_send(bytes).head as int) == bytes,
        v.after_send(bytes).after_receive().count == 0,
        v.after_send(bytes).after_receive().frames() == Seq::<Seq<u8>>::empty(),
{
    assert(v.all_fit());
    lemma_send_appends(v, bytes);
    let w = v.after_send(bytes);
    assert(v.frames() =~= Seq::<Seq<u8>>::empty());
    lemma_receive_takes_front(w);
    assert(w.frames()[0] == bytes);
    assert(w.after_receive().frames() =~= Seq::<Seq<u8>>::empty());
}

} // verus!

verus! {

/// Writes a message at `off`: its length (four bytes, least significant first), then
/// its bytes.
fn put_frame(region: &mut Vec<u8>, off: usize, bytes: &[u8])
    requires
        bytes@.len() <= 4096,
        off + 4 + bytes@.len() <= old(region)@.len(),
    ensures
        final(region)@ == write_frame(old(region)@, off as int, bytes@),
{
    let rlen = region.len();
    let len: u32 = bytes.len() as u32;
    let ghost before = region@;
    let ghost target = write_frame(before, off as int, bytes@);
    region.set(off, (len % 256) as u8);
    region.set(off + 1, ((len / 256) % 256) as u8);
    region.set(off + 2, ((len / 65536) % 256) as u8);
    region.set(off + 3, ((len / 16777216) % 256) as u8);
    let mut i: usize = 0;
    while i < bytes.len()
        invariant
            i <= bytes@.len() <= 4096,
            off + 4 + bytes@.len() <= before.len(),
            before.len() == rlen,
            region@.len() == rlen,
            len == bytes@.len(),
            target == write_frame(before, off as int, bytes@),
            forall|k: int|
                0 <= k < before.len() ==> #[trigger] region@[k] == (if off <= k < off + 4 + i {
                    target[k]
                } else {
                    before[k]
                }),
        decreases bytes@.len() - i,
    {
        region.set(off + 4 + i, bytes[i]);
        i = i + 1;
    }
    assert(region@ =~= target);
}

/// A queue of messages in fixed-size slots: its header and the bytes of its slots.
pub struct MessageRing {
    header: QueueHeader,
    region: Vec<u8>,
}

impl View for MessageRing {
    type V = RingView;

    closed spec fn view(&self) -> RingView {
        RingView {
            capacity: self.header.capacity as nat,
            head: self.header.head as nat,
            tail: self.header.tail as nat,
            count: self.header.message_count as nat,
            region: self.region@,
        }
    }
}

impl MessageRing {
    /// Whether the ring's positions and region agree.
    pub open spec fn wf(&self) -> bool {
        self@.wf()
    }

    /// An empty queue of `capacity` slots, all bytes zero.
    pub fn new(capacity: u32) -> (r: MessageRing)
        requires
            capacity * 4096 + 4 <= usize::MAX,
        ensures
            r.wf(),
            r@.capacity == capacity,
            r@.head == 0,
            r@.tail == 0,
            r@.count == 0,
            r@.region == Seq::new((capacity * 4096 + 4) as nat, |k: int| 0u8),
    {
        let n: usize = (capacity as usize) * 4096 + 4;
        let mut region: Vec<u8> = Vec::new();
        let mut i: usize = 0;
        while i < n
            invariant
                i <= n,
                region@ == Seq::new(i as nat, |k: int| 0u8),
            decreases n - i,
        {
            region.push(0);
            i = i + 1;
            assert(region@ =~= Seq::new(i as nat, |k: int| 0u8));
        }
        MessageRing { header: QueueHeader::new(capacity), region }
    }

    /// A queue over a header and the bytes of its slots, where they agree; `None`
    /// where they do not.
    pub fn from_parts(header: QueueHeader, region: Vec<u8>) -> (r: Option<MessageRing>)
        ensures
            match r {
                Some(q) => q.wf() && q@.capacity == header.capacity && q@.head == header.head
                    && q@.tail == header.tail && q@.count == header.message_count && q@.region
                    == region@,
                None => !(RingView {
                    capacity: header.capacity as nat,
                    head: header.head as nat,
                    tail: header.tail as nat,
                    count: header.message_count as nat,
                    region: region@,
                }).wf(),
            },
    {
        let cap = header.capacity;
        let ok_len = (cap as u64) * 4096 + 4 == region.len() as u64;
        let ok_pos = if cap > 0 {
            header.head < cap && header.tail < cap && header.message_count <= cap && (if (
            header.head as u64) + (header.message_count as u64) < cap as u64 {
                header.tail as u64 == header.head as u64 + header.message_count as u64
            } else {
                header.tail as u64 == header.head as u64 + header.message_count as u64 - cap as u64
            })
        } else {
            header.head == 0 && header.tail == 0 && header.message_count == 0
        };
        if ok_len && ok_pos {
            Some(MessageRing { header, region })
        } else {
            None
        }
    }

    /// The header and the bytes of the slots.
    pub fn into_parts(self) -> (r: (QueueHeader, Vec<u8>))
        ensures
            r.0.capacity == self@.capacity,
            r.0.head == self@.head,
            r.0.tail == self@.tail,
            r.0.message_count == self@.count,
            r.1@ == self@.region,
    {
        (self.header, self.region)
    }

    /// Writes a message at the tail: refused with `QueueFull` when the queue is full and
    /// with `InvalidSize` when the message is longer than a slot.
    pub fn send_frame(&mut self, bytes: &[u8]) -> (r: Result<(), SharedMemoryError>)
        requires
            old(self).wf(),
        ensures
            final(self).wf(),
            old(self)@.count >= old(self)@.capacity ==> (r matches Err(SharedMemoryError::QueueFull)
                && final(self)@ == old(self)@),
            old(self)@.count < old(self)@.capacity && bytes@.len() > 4096 ==> (r matches Err(
                SharedMemoryError::InvalidSize,
            ) && final(self)@ == old(self)@),
            old(self)@.count < old(self)@.capacity && bytes@.len() <= 4096 ==> r is Ok
                && final(self)@ == old(self)@.after_send(bytes@),
    {
        let cap = self.header.capacity;
        let count = self.header.message_count;
        if count >= cap {
            return Err(SharedMemoryError::QueueFull);
        }
        if bytes.len() > MESSAGE_SIZE {
            return Err(SharedMemoryError::InvalidSize);
        }
        let tail = self.header.tail;
        let rlen = self.region.len();
        assert(tail * 4096 + 4096 <= cap * 4096);
        let off: usize = (tail as usize) * 4096;
        put_frame(&mut self.region, off, bytes);
        self.header.tail = if tail + 1 == cap {
            0
        } else {
            tail + 1
        };
        self.header.message_count = count + 1;
        Ok(())
    }

    /// The message at the head, not yet taken: `QueueEmpty` when none waits, and
    /// `CorruptedData` when its length does not fit a slot.
    pub fn receive_frame(&self) -> (r: Result<Vec<u8>, SharedMemoryError>)
        requires
            self.wf(),
        ensures
            self@.count == 0 ==> r matches Err(SharedMemoryError::QueueEmpty),
            self@.count > 0 && le32_at(self@.region, self@.head as int * 4096) > 4092 ==> (r matches Err(
                SharedMemoryError::CorruptedData(m),
            ) && m@ == "消息长度无效"@),
            self@.count > 0 && le32_at(self@.region, self@.head as int * 4096) <= 4092 ==> (r matches Ok(
                v,
            ) && v@ == payload(self@.region, self@.head as int)),
    {
        if self.header.message_count == 0 {
            return Err(SharedMemoryError::QueueEmpty);
        }
        let rlen = self.region.len();
        assert(self.header.head * 4096 + 4096 <= self.header.capacity * 4096);
        let off: usize = (self.header.head as usize) * 4096;
        let len: u32 = self.region[off] as u32 + (self.region[off + 1] as u32) * 256 + (
        self.region[off + 2] as u32) * 65536 + (self.region[off + 3] as u32) * 16777216;
        if len as usize > MESSAGE_SIZE - 4 {
            return Err(SharedMemoryError::CorruptedData(String::from_str("消息长度无效")));
        }
        let n = len as usize;
        let mut v: Vec<u8> = Vec::new();
        let mut i: usize = 0;
        while i < n
            invariant
                i <= n <= 4092,
                off + 4 + n <= self.region@.len(),
                self.region@.len() == rlen,
                v@ == self.region@.subrange(off + 4, off + 4 + i),
            decreases n - i,
        {
            v.push(self.region[off + 4 + i]);
            i = i + 1;
            assert(v@ =~= self.region@.subrange(off + 4, off + 4 + i));
        }
        Ok(v)
    }

    /// Takes the message at the head.
    pub fn commit_receive(&mut self)
        requires
            old(self).wf(),
            old(self)@.count > 0,
        ensures
            final(self).wf(),
            final(self)@ == old(self)@.after_receive(),
    {
        let head = self.header.head;
        self.header.head = if head + 1 == self.header.capacity {
            0
        } else {
            head + 1
        };
        self.header.message_count = self.header.message_count - 1;
    }

    /// The capacity, the number of messages waiting, and where reading and writing
    /// stand.
    pub fn status(&self) -> (s: QueueStatus)
        ensures
            s.capacity == self@.capacity,
            s.message_count == self@.count,
            s.head == self@.head,
            s.tail == self@.tail,
    {
        QueueStatus {
            capacity: self.header.capacity,
            message_count: self.header.message_count,
            head: self.header.head,
            tail: self.header.tail,
        }
    }

    /// Whether no message waits.
    pub fn is_empty(&self) -> (b: bool)
        ensures
            b == (self@.count == 0),
    {
        self.header.message_count == 0
    }
}

} // verus!
