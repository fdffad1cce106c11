//! The mailbox: a set of boxes of fixed sizes (1 MiB to 100 MiB), each of which is
//! claimed for writing, filled, read and emptied again. A header holds a magic word,
//! the layout version, the number of boxes, a lock word and the next box id; every box
//! has metadata (id, state, size, data length, data offset) and a data area.
use vstd::prelude::*;
use crate::text::{decimal, push_decimal};
use vstd::slice::slice_to_vec;
use crate::layout::{u32_le, u32_at, push_u32, read_u32, lemma_u32_in, lemma_u32_len};

verus! {

/// The state of a box.
#[derive(Debug, Clone, Copy, PartialEq, Eq, Structural)]
pub enum BoxState {
    Empty,
    Writing,
    Full,
    Reading,
}

/// The state byte of a box state.
pub open spec fn box_state_code(s: BoxState) -> u8 {
    match s {
        BoxState::Empty => 0,
        BoxState::Writing => 1,
        BoxState::Full => 2,
        BoxState::Reading => 3,
    }
}

/// The box state a state byte stands for; bytes that stand for no state read as
/// `Empty`.
pub open spec fn box_state_of(b: u8) -> BoxState {
    if b == 1 {
        BoxState::Writing
    } else if b == 2 {
        BoxState::Full
    } else if b == 3 {
        BoxState::Reading
    } else {
        BoxState::Empty
    }
}

impl BoxState {
    /// The state byte of this state.
    pub fn code(&self) -> (b: u8)
        ensures
            b == box_state_code(*self),
    {
        match self {
            BoxState::Empty => 0,
            BoxState::Writing => 1,
            BoxState::Full => 2,
            BoxState::Reading => 3,
        }
    }

    /// The state a state byte stands for; unknown bytes read as `Empty`.
    pub fn from_code(b: u8) -> (s: BoxState)
        ensures
            s == box_state_of(b),
    {
        if b == 1 {
            BoxState::Writing
        } else if b == 2 {
            BoxState::Full
        } else if b == 3 {
            BoxState::Reading
        } else {
            BoxState::Empty
        }
    }
}

/// The sizes of boxes, in MiB.
#[derive(Debug, Clone, Copy, PartialEq, Eq, Hash, Structural)]
pub enum BoxSize {
    Size1M,
    Size2M,
    Size3M,
    Size4M,
    Size5M,
    Size6M,
    Size7M,
    Size8M,
    Size9M,
    Size10M,
    Size20M,
    Size50M,
    Size100M,
}

/// The size of a box kind in MiB.
pub open spec fn size_mb(s: BoxSize) -> u32 {
    match s {
        BoxSize::Size1M => 1,
        BoxSize::Size2M => 2,
        BoxSize::Size3M => 3,
        BoxSize::Size4M => 4,
        BoxSize::Size5M => 5,
        BoxSize::Size6M => 6,
        BoxSize::Size7M => 7,
        BoxSize::Size8M => 8,
        BoxSize::Size9M => 9,
        BoxSize::Size10M => 10,
        BoxSize::Size20M => 20,
        BoxSize::Size50M => 50,
        BoxSize::Size100M => 100,
    }
}

/// The size of a box kind in bytes.
pub open spec fn size_bytes(s: BoxSize) -> nat {
    (size_mb(s) * 1024 * 1024) as nat
}

/// The box kind a number of MiB stands for; other numbers read as 1 MiB.
pub open spec fn size_of_mb(mb: u32) -> BoxSize {
    if mb == 2 {
        BoxSize::Size2M
    } else if mb == 3 {
        BoxSize::Size3M
    } else if mb == 4 {
        BoxSize::Size4M
    } else if mb == 5 {
        BoxSize::Size5M
    } else if mb == 6 {
        BoxSize::Size6M
    } else if mb == 7 {
        BoxSize::Size7M
    } else if mb == 8 {
        BoxSize::Size8M
    } else if mb == 9 {
        BoxSize::Size9M
    } else if mb == 10 {
        BoxSize::Size10M
    } else if mb == 20 {
        BoxSize::Size20M
    } else if mb == 50 {
        BoxSize::Size50M
    } else if mb == 100 {
        BoxSize::Size100M
    } else {
        BoxSize::Size1M
    }
}

/// Lemma: a box kind's number of MiB reads back as that kind.
pub proof fn lemma_size_mb_round_trip(s: BoxSize)
    ensures
        size_of_mb(size_mb(s)) == s,
{
}

impl BoxSize {
    /// The size in MiB.
    pub fn mb(&self) -> (m: u32)
        ensures
            m == size_mb(*self),
    {
        match self {
            BoxSize::Size1M => 1,
            BoxSize::Size2M => 2,
            BoxSize::Size3M => 3,
            BoxSize::Size4M => 4,
            BoxSize::Size5M => 5,
            BoxSize::Size6M => 6,
            BoxSize::Size7M => 7,
            BoxSize::Size8M => 8,
            BoxSize::Size9M => 9,
            BoxSize::Size10M => 10,
            BoxSize::Size20M => 20,
            BoxSize::Size50M => 50,
            BoxSize::Size100M => 100,
        }
    }

    /// The box kind of a number of MiB; other numbers give 1 MiB.
    pub fn from_mb(mb: u32) -> (s: BoxSize)
        ensures
            s == size_of_mb(mb),
    {
        if mb == 2 {
            BoxSize::Size2M
        } else if mb == 3 {
            BoxSize::Size3M
        } else if mb == 4 {
            BoxSize::Size4M
        } else if mb == 5 {
            BoxSize::Size5M
        } else if mb == 6 {
            BoxSize::Size6M
        } else if mb == 7 {
            BoxSize::Size7M
        } else if mb == 8 {
            BoxSize::Size8M
        } else if mb == 9 {
            BoxSize::Size9M
        } else if mb == 10 {
            BoxSize::Size10M
        } else if mb == 20 {
            BoxSize::Size20M
        } else if mb == 50 {
            BoxSize::Size50M
        } else if mb == 100 {
            BoxSize::Size100M
        } else {
            BoxSize::Size1M
        }
    }

    /// The size in bytes.
    pub fn bytes(&self) -> (b: usize)
        ensures
            b == size_bytes(*self),
    {
        let m = self.mb() as usize;
        m * 1024 * 1024
    }

    /// Every box kind, smallest first.
    pub fn all_sizes() -> (v: Vec<BoxSize>)
        ensures
            v@ == seq![
                BoxSize::Size1M,
                BoxSize::Size2M,
                BoxSize::Size3M,
                BoxSize::Size4M,
                BoxSize::Size5M,
                BoxSize::Size6M,
                BoxSize::Size7M,
                BoxSize::Size8M,
                BoxSize::Size9M,
                BoxSize::Size10M,
                BoxSize::Size20M,
                BoxSize::Size50M,
                BoxSize::Size100M,
            ],
    {
        let mut v = Vec::new();
        v.push(BoxSize::Size1M);
        v.push(BoxSize::Size2M);
        v.push(BoxSize::Size3M);
        v.push(BoxSize::Size4M);
        v.push(BoxSize::Size5M);
        v.push(BoxSize::Size6M);
        v.push(BoxSize::Size7M);
        v.push(BoxSize::Size8M);
        v.push(BoxSize::Size9M);
        v.push(BoxSize::Size10M);
        v.push(BoxSize::Size20M);
        v.push(BoxSize::Size50M);
        v.push(BoxSize::Size100M);
        assert(v@ =~= seq![
            BoxSize::Size1M,
            BoxSize::Size2M,
            BoxSize::Size3M,
            BoxSize::Size4M,
            BoxSize::Size5M,
            BoxSize::Size6M,
            BoxSize::Size7M,
            BoxSize::Size8M,
            BoxSize::Size9M,
            BoxSize::Size10M,
            BoxSize::Size20M,
            BoxSize::Size50M,
            BoxSize::Size100M,
        ]);
        v
    }
}

/// How many boxes of each kind a mailbox has. Each kind occurs at most once; the kinds
/// keep the order in which they were first given a count.
#[derive(Debug, Clone)]
pub struct BoxConfig {
    entries: Vec<(BoxSize, usize)>,
}

/// The position of box kind `s` among `entries`, if it is there.
pub open spec fn entry_pos(entries: Seq<(BoxSize, usize)>, s: BoxSize) -> Option<int>
    decreases entries.len(),
{
    if entries.len() == 0 {
        None
    } else if entries.last().0 == s {
        Some(entries.len() - 1)
    } else {
        entry_pos(entries.drop_last(), s)
    }
}

/// The count of box kind `s` in `entries`: 0 when it is not there.
pub open spec fn entry_count(entries: Seq<(BoxSize, usize)>, s: BoxSize) -> nat {
    match entry_pos(entries, s) {
        Some(i) => entries[i].1 as nat,
        None => 0,
    }
}

/// The sum of all counts.
pub open spec fn counts_total(entries: Seq<(BoxSize, usize)>) -> nat
    decreases entries.len(),
{
    if entries.len() == 0 {
        0
    } else {
        counts_total(entries.drop_last()) + (entries.last().1 as nat)
    }
}

/// The memory the data areas of all boxes take.
pub open spec fn data_total(entries: Seq<(BoxSize, usize)>) -> nat
    decreases entries.len(),
{
    if entries.len() == 0 {
        0
    } else {
        data_total(entries.drop_last()) + (entries.last().1 as nat) * size_bytes(entries.last().0)
    }
}

/// Whether each box kind occurs at most once.
pub open spec fn distinct_kinds(entries: Seq<(BoxSize, usize)>) -> bool {
    forall|i: int, j: int|
        0 <= i < j < entries.len() ==> #[trigger] entries[i].0 != #[trigger] entries[j].0
}

/// Lemma: a kind found among the entries sits at the position found.
proof fn lemma_entry_pos(entries: Seq<(BoxSize, usize)>, s: BoxSize)
    ensures
        entry_pos(entries, s) matches Some(i) ==> 0 <= i < entries.len() && entries[i].0 == s,
        entry_pos(entries, s) is None ==> forall|i: int|
            0 <= i < entries.len() ==> #[trigger] entries[i].0 != s,
    decreases entries.len(),
{
    if entries.len() > 0 && entries.last().0 != s {
        lemma_entry_pos(entries.drop_last(), s);
        assert forall|i: int| 0 <= i < entries.len() - 1 implies entries.drop_last()[i]
            == entries[i] by {}
    }
}

/// Lemma: a kind that no entry has is not found.
proof fn lemma_entry_pos_absent(entries: Seq<(BoxSize, usize)>, s: BoxSize)
    requires
        forall|i: int| 0 <= i < entries.len() ==> #[trigger] entries[i].0 != s,
    ensures
        entry_pos(entries, s) is None,
    decreases entries.len(),
{
    if entries.len() > 0 {
        let d = entries.drop_last();
        assert forall|i: int| 0 <= i < d.len() implies #[trigger] d[i].0 != s by {
            assert(d[i] == entries[i]);
        }
        lemma_entry_pos_absent(d, s);
    }
}

/// Lemma: with distinct kinds, the position of the kind at position `i` is `i`.
proof fn lemma_entry_pos_distinct(entries: Seq<(BoxSize, usize)>, i: int)
    requires
        distinct_kinds(entries),
        0 <= i < entries.len(),
    ensures
        entry_pos(entries, entries[i].0) == Some(i),
    decreases entries.len(),
{
    if i < entries.len() - 1 {
        let d = entries.drop_last();
        assert(distinct_kinds(d)) by {
            assert forall|a: int, b: int| 0 <= a < b < d.len() implies #[trigger] d[a].0
                != #[trigger] d[b].0 by {
                assert(d[a] == entries[a] && d[b] == entries[b]);
            }
        }
        assert(d[i] == entries[i]);
        lemma_entry_pos_distinct(d, i);
        assert(entries.last().0 != entries[i].0);
    }
}

impl View for BoxConfig {
    type V = Seq<(BoxSize, usize)>;

    closed spec fn view(&self) -> Seq<(BoxSize, usize)> {
        self.entries@
    }
}

impl BoxConfig {
    /// Whether each box kind occurs at most once.
    pub open spec fn wf(&self) -> bool {
        distinct_kinds(self@)
    }

    /// An empty configuration.
    pub fn new() -> (c: BoxConfig)
        ensures
            c@ == Seq::<(BoxSize, usize)>::empty(),
            c.wf(),
    {
        BoxConfig { entries: Vec::new() }
    }

    /// The position of kind `size` among the entries.
    fn position(&self, size: BoxSize) -> (r: Option<usize>)
        ensures
            r == match entry_pos(self@, size) {
                Some(i) => Some(i as usize),
                None => None::<usize>,
            },
            r matches Some(i) ==> i < self@.len() && self@[i as int].0 == size,
    {
        proof {
            lemma_entry_pos(self@, size);
        }
        let mut i = self.entries.len();
        assert(self@.subrange(0, i as int) =~= self@);
        while i > 0
            invariant
                i <= self.entries.len(),
                entry_pos(self@, size) == entry_pos(self@.subrange(0, i as int), size),
            decreases i,
        {
            let ghost sub = self@.subrange(0, i as int);
            assert(sub.drop_last() =~= self@.subrange(0, i - 1));
            if self.entries[i - 1].0 == size {
                return Some(i - 1);
            }
            i = i - 1;
        }
        None
    }

    /// Sets the count of kind `size`: a kind already present keeps its place, a new
    /// kind goes last.
    pub fn set_count(&mut self, size: BoxSize, count: usize) -> (r: &mut Self)
        requires
            old(self).wf(),
        ensures
            r.wf(),
            *final(self) == *final(r),
            r@ == match entry_pos(old(self)@, size) {
                Some(i) => old(self)@.update(i, (size, count)),
                None => old(self)@.push((size, count)),
            },
    {
        proof {
            lemma_entry_pos(self@, size);
        }
        match self.position(size) {
            Some(i) => {
                self.entries.set(i, (size, count));
                assert(distinct_kinds(self@)) by {
                    assert forall|a: int, b: int|
                        0 <= a < b < self@.len() implies #[trigger] self@[a].0
                        != #[trigger] self@[b].0 by {
                        assert(old(self)@[a].0 == self@[a].0 && old(self)@[b].0 == self@[b].0);
                    }
                }
            },
            None => {
                self.entries.push((size, count));
                assert(distinct_kinds(self@)) by {
                    assert forall|a: int, b: int|
                        0 <= a < b < self@.len() implies #[trigger] self@[a].0
                        != #[trigger] self@[b].0 by {
                        if b < old(self)@.len() {
                            assert(old(self)@[a] == self@[a] && old(self)@[b] == self@[b]);
                        } else {
                            assert(old(self)@[a] == self@[a]);
                        }
                    }
                }
            },
        }
        self
    }

    /// The count of kind `size`; 0 for a kind never given a count.
    pub fn get_count(&self, size: BoxSize) -> (c: usize)
        ensures
            c == entry_count(self@, size),
    {
        proof {
            lemma_entry_pos(self@, size);
        }
        let n = self.entries.len();
        let p = self.position(size);
        match p {
            Some(i) => {
                assert(entry_pos(self@, size) == Some(i as int));
                self.entries[i].1
            },
            None => 0,
        }
    }

    /// The number of boxes of all kinds.
    pub fn total_count(&self) -> (t: usize)
        requires
            counts_total(self@) <= usize::MAX,
        ensures
            t == counts_total(self@),
    {
        let mut t: usize = 0;
        let mut i: usize = 0;
        while i < self.entries.len()
            invariant
                i <= self.entries.len(),
                counts_total(self@) <= usize::MAX,
                t == counts_total(self@.subrange(0, i as int)),
            decreases self.entries.len() - i,
        {
            assert(self@.subrange(0, i + 1).drop_last() =~= self@.subrange(0, i as int));
            proof {
                lemma_counts_prefix(self@, i + 1);
            }
            t = t + self.entries[i].1;
            i = i + 1;
        }
        assert(self@.subrange(0, i as int) =~= self@);
        t
    }

    /// The kinds that were given a count, in the order they were first given one.
    pub fn configured_sizes(&self) -> (v: Vec<BoxSize>)
        ensures
            v@ == self@.map_values(|e: (BoxSize, usize)| e.0),
    {
        let mut v: Vec<BoxSize> = Vec::new();
        let mut i: usize = 0;
        while i < self.entries.len()
            invariant
                i <= self.entries.len(),
                v@ == self@.subrange(0, i as int).map_values(|e: (BoxSize, usize)| e.0),
            decreases self.entries.len() - i,
        {
            v.push(self.entries[i].0);
            i = i + 1;
            assert(v@ =~= self@.subrange(0, i as int).map_values(|e: (BoxSize, usize)| e.0));
        }
        assert(self@.subrange(0, i as int) =~= self@);
        v
    }

    /// The configuration used by default: ten boxes of 1 MiB, five of 2 MiB, two of
    /// 5 MiB and one of 10 MiB.
    pub fn default_config() -> (c: BoxConfig)
        ensures
            c.wf(),
            c@ == seq![
                (BoxSize::Size1M, 10usize),
                (BoxSize::Size2M, 5usize),
                (BoxSize::Size5M, 2usize),
                (BoxSize::Size10M, 1usize),
            ],
    {
        let mut config = BoxConfig::new();
        proof { lemma_entry_pos_absent(config@, BoxSize::Size1M); }
        config.set_count(BoxSize::Size1M, 10);
        assert(config@ =~= seq![(BoxSize::Size1M, 10usize)]);
        proof { lemma_entry_pos_absent(config@, BoxSize::Size2M); }
        config.set_count(BoxSize::Size2M, 5);
        assert(config@ =~= seq![(BoxSize::Size1M, 10usize), (BoxSize::Size2M, 5usize)]);
        proof { lemma_entry_pos_absent(config@, BoxSize::Size5M); }
        config.set_count(BoxSize::Size5M, 2);
        assert(config@ =~= seq![
            (BoxSize::Size1M, 10usize),
            (BoxSize::Size2M, 5usize),
            (BoxSize::Size5M, 2usize),
        ]);
        proof { lemma_entry_pos_absent(config@, BoxSize::Size10M); }
        config.set_count(BoxSize::Size10M, 1);
        assert(config@ =~= seq![
            (BoxSize::Size1M, 10usize),
            (BoxSize::Size2M, 5usize),
            (BoxSize::Size5M, 2usize),
            (BoxSize::Size10M, 1usize),
        ]);
        config
    }
}

/// Lemma: a prefix of the entries adds up to no more than all of them.
proof fn lemma_counts_prefix(entries: Seq<(BoxSize, usize)>, i: int)
    requires
        0 <= i <= entries.len(),
    ensures
        counts_total(entries.subrange(0, i)) <= counts_total(entries),
    decreases entries.len() - i,
{
    if i < entries.len() {
        lemma_counts_prefix(entries, i + 1);
        assert(entries.subrange(0, i + 1).drop_last() =~= entries.subrange(0, i));
    } else {
        assert(entries.subrange(0, i) =~= entries);
    }
}

impl Default for BoxConfig {
    fn default() -> (c: BoxConfig)
        ensures
            c.wf(),
            c@ == seq![
                (BoxSize::Size1M, 10usize),
                (BoxSize::Size2M, 5usize),
                (BoxSize::Size5M, 2usize),
                (BoxSize::Size10M, 1usize),
            ],
    {
        BoxConfig::default_config()
    }
}


/// The magic word of a mailbox header ("MAIL").
pub const MAILBOX_MAGIC: u32 = 0x4D41494C;

/// The layout version of a mailbox header.
pub const MAILBOX_VERSION: u32 = 1;

/// The bytes a mailbox header takes.
pub const HEADER_SIZE: usize = 20;

/// The bytes the metadata of one box takes.
pub const METADATA_SIZE: usize = 20;

/// The metadata of one box.
#[derive(Debug, Clone, Copy, PartialEq, Eq, Structural)]
pub struct BoxMetadata {
    /// The id of the box.
    pub id: u32,
    /// The state byte.
    pub state: u8,
    /// The size of the box in MiB.
    pub size: u32,
    /// The length of the data the box holds.
    pub data_length: u32,
    /// The offset of the box's data area in the mailbox memory.
    pub data_ptr: u32,
}

impl BoxMetadata {
    /// The metadata of an empty box.
    pub fn new(id: u32, size: BoxSize, data_offset: u32) -> (m: BoxMetadata)
        ensures
            m == (BoxMetadata {
                id,
                state: 0,
                size: size_mb(size),
                data_length: 0,
                data_ptr: data_offset,
            }),
    {
        BoxMetadata { id, state: 0, size: size.mb(), data_length: 0, data_ptr: data_offset }
    }

    /// The state of the box.
    pub fn get_state(&self) -> (s: BoxState)
        ensures
            s == box_state_of(self.state),
    {
        BoxState::from_code(self.state)
    }

    /// Sets the state of the box.
    pub fn set_state(&mut self, state: BoxState)
        ensures
            *final(self) == (BoxMetadata { state: box_state_code(state), ..*old(self) }),
    {
        self.state = state.code();
    }

    /// The id of the box.
    pub fn get_id(&self) -> (id: u32)
        ensures
            id == self.id,
    {
        self.id
    }

    /// The size kind of the box.
    pub fn get_size(&self) -> (s: BoxSize)
        ensures
            s == size_of_mb(self.size),
    {
        BoxSize::from_mb(self.size)
    }

    /// The length of the data the box holds.
    pub fn get_data_length(&self) -> (l: u32)
        ensures
            l == self.data_length,
    {
        self.data_length
    }

    /// Sets the length of the data the box holds.
    pub fn set_data_length(&mut self, length: u32)
        ensures
            *final(self) == (BoxMetadata { data_length: length, ..*old(self) }),
    {
        self.data_length = length;
    }

    /// The offset of the box's data area.
    pub fn get_data_offset(&self) -> (o: u32)
        ensures
            o == self.data_ptr,
    {
        self.data_ptr
    }
}

/// The header after one call of `next_id`: the counter moves on by one and wraps at the
/// end of `u32`; nothing else changes.
pub open spec fn after_next_id(h: MailboxHeader) -> MailboxHeader {
    MailboxHeader {
        next_box_id: if h.next_box_id == u32::MAX {
            0
        } else {
            (h.next_box_id + 1) as u32
        },
        ..h
    }
}

/// The header after `k` successive calls of `next_id`.
pub open spec fn after_next_ids(h: MailboxHeader, k: nat) -> MailboxHeader
    decreases k,
{
    if k == 0 {
        h
    } else {
        after_next_id(after_next_ids(h, (k - 1) as nat))
    }
}

/// The ids that `k` successive calls of `next_id` return, in the order of the calls.
pub open spec fn next_ids(h: MailboxHeader, k: nat) -> Seq<u32>
    decreases k,
{
    if k == 0 {
        Seq::empty()
    } else {
        next_ids(h, (k - 1) as nat).push(after_next_ids(h, (k - 1) as nat).next_box_id)
    }
}

/// Law: while the counter does not reach the end of `u32`, successive calls of `next_id`
/// hand out the counter's value and the values after it, one by one, so the ids of one
/// header are distinct and increasing; after `k` calls the counter has moved on by `k`.
pub proof fn lemma_next_ids(h: MailboxHeader, k: nat)
    requires
        h.next_box_id + k <= u32::MAX,
    ensures
        after_next_ids(h, k) == (MailboxHeader { next_box_id: (h.next_box_id + k) as u32, ..h }),
        next_ids(h, k).len() == k,
        forall|i: int| 0 <= i < k ==> #[trigger] next_ids(h, k)[i] == h.next_box_id + i,
        forall|i: int, j: int| 0 <= i < j < k ==> next_ids(h, k)[i] < next_ids(h, k)[j],
    decreases k,
{
    if k > 0 {
        lemma_next_ids(h, (k - 1) as nat);
    }
}

/// The header of a mailbox.
#[derive(Debug, Clone, Copy, PartialEq, Eq, Structural)]
pub struct MailboxHeader {
    /// The magic word.
    pub magic: u32,
    /// The layout version.
    pub version: u32,
    /// The number of boxes.
    pub total_boxes: u32,
    /// The lock word: 0 free, 1 taken.
    pub lock: u32,
    /// The next box id to be handed out.
    pub next_box_id: u32,
}

impl MailboxHeader {
    /// A fresh header for `total_boxes` boxes: unlocked, ids starting at 1.
    pub fn new(total_boxes: u32) -> (h: MailboxHeader)
        ensures
            h == (MailboxHeader {
                magic: MAILBOX_MAGIC,
                version: MAILBOX_VERSION,
                total_boxes,
                lock: 0,
                next_box_id: 1,
            }),
    {
        MailboxHeader {
            magic: MAILBOX_MAGIC,
            version: MAILBOX_VERSION,
            total_boxes,
            lock: 0,
            next_box_id: 1,
        }
    }

    /// Whether the header carries the magic word and the layout version.
    pub fn is_valid(&self) -> (b: bool)
        ensures
            b == (self.magic == MAILBOX_MAGIC && self.version == MAILBOX_VERSION),
    {
        self.magic == MAILBOX_MAGIC && self.version == MAILBOX_VERSION
    }

    /// Takes the lock if it is free; tells whether it did.
    pub fn try_lock(&mut self) -> (b: bool)
        ensures
            b == (old(self).lock == 0),
            b ==> *final(self) == (MailboxHeader { lock: 1, ..*old(self) }),
            !b ==> *final(self) == *old(self),
    {
        if self.lock == 0 {
            self.lock = 1;
            true
        } else {
            false
        }
    }

    /// Frees the lock.
    pub fn unlock(&mut self)
        ensures
            *final(self) == (MailboxHeader { lock: 0, ..*old(self) }),
    {
        self.lock = 0;
    }

    /// Hands out the next box id; the counter wraps at the end of `u32`.
    pub fn next_id(&mut self) -> (id: u32)
        ensures
            id == old(self).next_box_id,
            *final(self) == after_next_id(*old(self)),
    {
        let id = self.next_box_id;
        self.next_box_id = if id == u32::MAX { 0 } else { id + 1 };
        id
    }

    /// The number of boxes.
    pub fn get_total_boxes(&self) -> (t: u32)
        ensures
            t == self.total_boxes,
    {
        self.total_boxes
    }
}

/// The metadata of `c` empty boxes of kind `s`, with ids from `id` on and data areas
/// laid out one after the other from `offset` on.
pub open spec fn box_run(s: BoxSize, c: nat, id: nat, offset: nat) -> Seq<BoxMetadata> {
    Seq::new(
        c,
        |k: int|
            BoxMetadata {
                id: (id + k) as u32,
                state: 0,
                size: size_mb(s),
                data_length: 0,
                data_ptr: (offset + k * size_bytes(s)) as u32,
            },
    )
}

/// The metadata of the boxes of a configuration: kind after kind in the configuration's
/// order, ids from 1 on, data areas from `data_start` on.
pub open spec fn box_layout(entries: Seq<(BoxSize, usize)>, data_start: nat) -> Seq<BoxMetadata>
    decreases entries.len(),
{
    if entries.len() == 0 {
        Seq::empty()
    } else {
        let d = entries.drop_last();
        box_layout(d, data_start) + box_run(
            entries.last().0,
            entries.last().1 as nat,
            counts_total(d) + 1,
            data_start + data_total(d),
        )
    }
}

/// The positions `from`, `from + 1`, ... of `c` boxes.
pub open spec fn index_run(from: nat, c: nat) -> Seq<usize> {
    Seq::new(c, |k: int| (from + k) as usize)
}

/// The index of boxes by kind that a configuration gives: each kind with boxes, in the
/// configuration's order, with the positions of its boxes.
pub open spec fn index_layout(entries: Seq<(BoxSize, usize)>) -> Seq<(BoxSize, Seq<usize>)>
    decreases entries.len(),
{
    if entries.len() == 0 {
        Seq::empty()
    } else {
        let d = entries.drop_last();
        if entries.last().1 > 0 {
            index_layout(d).push(
                (entries.last().0, index_run(counts_total(d), entries.last().1 as nat)),
            )
        } else {
            index_layout(d)
        }
    }
}

/// The memory a mailbox of a configuration takes before rounding: the header, the
/// metadata of every box and every data area.
pub open spec fn raw_memory_size(entries: Seq<(BoxSize, usize)>) -> nat {
    (HEADER_SIZE + counts_total(entries) * METADATA_SIZE + data_total(entries)) as nat
}

/// A size rounded up to whole pages of 4096 bytes.
pub open spec fn page_round(n: nat) -> nat {
    ((n + 4095) / 4096 * 4096) as nat
}

/// Whether the sizes of a configuration can be computed and laid out: the memory with
/// a page's slack fits `usize`, and the ids fit `u32`.
pub open spec fn config_fits(entries: Seq<(BoxSize, usize)>) -> bool {
    &&& raw_memory_size(entries) + 4095 <= usize::MAX
    &&& counts_total(entries) < u32::MAX
}

/// Lemma: the counts and data sizes of a prefix of the entries are no larger than
/// those of all of them.
proof fn lemma_totals_prefix(entries: Seq<(BoxSize, usize)>, i: int)
    requires
        0 <= i <= entries.len(),
    ensures
        counts_total(entries.subrange(0, i)) <= counts_total(entries),
        data_total(entries.subrange(0, i)) <= data_total(entries),
    decreases entries.len() - i,
{
    if i < entries.len() {
        lemma_totals_prefix(entries, i + 1);
        assert(entries.subrange(0, i + 1).drop_last() =~= entries.subrange(0, i));
    } else {
        assert(entries.subrange(0, i) =~= entries);
    }
}

/// Errors of mailbox operations.
#[derive(Debug, Clone, Copy, PartialEq, Eq, Structural)]
pub enum MailboxError {
    /// The mailbox has no box of this kind.
    InvalidBoxSize(BoxSize),
    /// Every box of this kind is in use.
    NoEmptyBox(BoxSize),
    /// No box has this id.
    BoxNotFound(u32),
    /// The box is not being written.
    NotWriting(u32),
    /// The data does not fit the box.
    DataTooLarge(usize, usize),
    /// The box holds no data to read.
    NotFull(u32),
    /// The box is not being read.
    NotReading(u32),
    /// The lock stayed taken through every attempt.
    LockTimeout,
    /// The memory of the configuration cannot be laid out.
    LayoutFailed,
}

/// The name of a box kind as `Debug` prints it.
pub open spec fn size_name(s: BoxSize) -> Seq<char> {
    match s {
        BoxSize::Size1M => "Size1M"@,
        BoxSize::Size2M => "Size2M"@,
        BoxSize::Size3M => "Size3M"@,
        BoxSize::Size4M => "Size4M"@,
        BoxSize::Size5M => "Size5M"@,
        BoxSize::Size6M => "Size6M"@,
        BoxSize::Size7M => "Size7M"@,
        BoxSize::Size8M => "Size8M"@,
        BoxSize::Size9M => "Size9M"@,
        BoxSize::Size10M => "Size10M"@,
        BoxSize::Size20M => "Size20M"@,
        BoxSize::Size50M => "Size50M"@,
        BoxSize::Size100M => "Size100M"@,
    }
}

/// The name of a box kind as `Debug` prints it.
fn size_name_of(s: BoxSize) -> (r: &'static str)
    ensures
        r@ == size_name(s),
{
    match s {
        BoxSize::Size1M => "Size1M",
        BoxSize::Size2M => "Size2M",
        BoxSize::Size3M => "Size3M",
        BoxSize::Size4M => "Size4M",
        BoxSize::Size5M => "Size5M",
        BoxSize::Size6M => "Size6M",
        BoxSize::Size7M => "Size7M",
        BoxSize::Size8M => "Size8M",
        BoxSize::Size9M => "Size9M",
        BoxSize::Size10M => "Size10M",
        BoxSize::Size20M => "Size20M",
        BoxSize::Size50M => "Size50M",
        BoxSize::Size100M => "Size100M",
    }
}

impl MailboxError {
    /// The text of the error.
    pub open spec fn spec_message(&self) -> Seq<char> {
        match *self {
            MailboxError::InvalidBoxSize(s) => "Invalid box size: "@ + size_name(s),
            MailboxError::NoEmptyBox(s) => "No empty box available for size: "@ + size_name(s),
            MailboxError::BoxNotFound(id) => "Box not found: "@ + decimal(id as nat),
            MailboxError::NotWriting(id) => "Box "@ + decimal(id as nat)
                + " is not in writing state"@,
            MailboxError::DataTooLarge(l, m) => "Data too large: "@ + decimal(l as nat) + " > "@
                + decimal(m as nat),
            MailboxError::NotFull(id) => "Box "@ + decimal(id as nat) + " is not full"@,
            MailboxError::NotReading(id) => "Box "@ + decimal(id as nat)
                + " is not in reading state"@,
            MailboxError::LockTimeout => "Failed to acquire lock after 100000 attempts"@,
            MailboxError::LayoutFailed => "Failed to create layout: invalid parameters to Layout::from_size_align"@,
        }
    }

    /// The text of the error.
    pub fn message(&self) -> (m: String)
        ensures
            m@ == self.spec_message(),
    {
        match *self {
            MailboxError::InvalidBoxSize(s) => {
                let mut m = String::from_str("Invalid box size: ");
                m.append(size_name_of(s));
                m
            },
            MailboxError::NoEmptyBox(s) => {
                let mut m = String::from_str("No empty box available for size: ");
                m.append(size_name_of(s));
                m
            },
            MailboxError::BoxNotFound(id) => {
                let mut m = String::from_str("Box not found: ");
                push_decimal(&mut m, id as u64);
                m
            },
            MailboxError::NotWriting(id) => {
                let mut m = String::from_str("Box ");
                push_decimal(&mut m, id as u64);
                m.append(" is not in writing state");
                m
            },
            MailboxError::DataTooLarge(l, x) => {
                let mut m = String::from_str("Data too large: ");
                push_decimal(&mut m, l as u64);
                m.append(" > ");
                push_decimal(&mut m, x as u64);
                m
            },
            MailboxError::NotFull(id) => {
                let mut m = String::from_str("Box ");
                push_decimal(&mut m, id as u64);
                m.append(" is not full");
                m
            },
            MailboxError::NotReading(id) => {
                let mut m = String::from_str("Box ");
                push_decimal(&mut m, id as u64);
                m.append(" is not in reading state");
                m
            },
            MailboxError::LockTimeout => String::from_str(
                "Failed to acquire lock after 100000 attempts",
            ),
            MailboxError::LayoutFailed => String::from_str(
                "Failed to create layout: invalid parameters to Layout::from_size_align",
            ),
        }
    }
}


/// The boxes of a mailbox, as mathematical values.
pub struct MailboxView {
    /// The header.
    pub header: MailboxHeader,
    /// The metadata of every box, in memory order.
    pub boxes: Seq<BoxMetadata>,
    /// The data every box holds.
    pub contents: Seq<Seq<u8>>,
    /// The positions of the boxes of each kind.
    pub index: Seq<(BoxSize, Seq<usize>)>,
}

/// The first box at or after position `k` with id `id`.
pub open spec fn find_box_from(boxes: Seq<BoxMetadata>, id: u32, k: int) -> Option<int>
    decreases boxes.len() - k,
{
    if k < 0 || k >= boxes.len() {
        None
    } else if boxes[k].id == id {
        Some(k)
    } else {
        find_box_from(boxes, id, k + 1)
    }
}

/// The first entry of the index at or after `k` for kind `s`.
pub open spec fn index_for_from(index: Seq<(BoxSize, Seq<usize>)>, s: BoxSize, k: int) -> Option<
    int,
>
    decreases index.len() - k,
{
    if k < 0 || k >= index.len() {
        None
    } else if index[k].0 == s {
        Some(k)
    } else {
        index_for_from(index, s, k + 1)
    }
}

/// The first box among `list[k..]` whose state reads `Empty`.
pub open spec fn first_empty_from(boxes: Seq<BoxMetadata>, list: Seq<usize>, k: int) -> Option<int>
    decreases list.len() - k,
{
    if k < 0 || k >= list.len() {
        None
    } else if box_state_of(boxes[list[k] as int].state) == BoxState::Empty {
        Some(list[k] as int)
    } else {
        first_empty_from(boxes, list, k + 1)
    }
}

impl MailboxView {
    /// Well-formedness: data for every box, data lengths that match, index positions
    /// that name boxes.
    pub open spec fn wf(self) -> bool {
        &&& self.boxes.len() == self.contents.len()
        &&& forall|i: int|
            0 <= i < self.boxes.len() ==> (#[trigger] self.contents[i]).len()
                == self.boxes[i].data_length
        &&& forall|e: int, k: int|
            0 <= e < self.index.len() && 0 <= k < self.index[e].1.len() ==> #[trigger] self.index[e].1[k]
                < self.boxes.len()
        &&& forall|e: int, k: int|
            0 <= e < self.index.len() && 0 <= k < self.index[e].1.len() ==> size_of_mb(
                self.boxes[#[trigger] self.index[e].1[k] as int].size,
            ) == self.index[e].0
    }

    /// The position of the box with id `id`.
    pub open spec fn position(self, id: u32) -> Option<int> {
        find_box_from(self.boxes, id, 0)
    }

    /// The box that `get_empty_box(s)` claims, or its error.
    pub open spec fn empty_box_for(self, s: BoxSize) -> Result<int, MailboxError> {
        match index_for_from(self.index, s, 0) {
            None => Err(MailboxError::InvalidBoxSize(s)),
            Some(e) => match first_empty_from(self.boxes, self.index[e].1, 0) {
                Some(i) => Ok(i),
                None => Err(MailboxError::NoEmptyBox(s)),
            },
        }
    }

    /// The mailbox with the state byte of box `i` replaced.
    pub open spec fn with_box_state(self, i: int, code: u8) -> MailboxView {
        MailboxView {
            boxes: self.boxes.update(i, BoxMetadata { state: code, ..self.boxes[i] }),
            ..self
        }
    }

    /// What `write_data(id, data)` answers.
    pub open spec fn write_result(self, id: u32, data: Seq<u8>) -> Result<(), MailboxError> {
        match self.position(id) {
            None => Err(MailboxError::BoxNotFound(id)),
            Some(i) => if box_state_of(self.boxes[i].state) != BoxState::Writing {
                Err(MailboxError::NotWriting(id))
            } else if data.len() > size_bytes(size_of_mb(self.boxes[i].size)) {
                Err(
                    MailboxError::DataTooLarge(
                        data.len() as usize,
                        size_bytes(size_of_mb(self.boxes[i].size)) as usize,
                    ),
                )
            } else {
                Ok(())
            },
        }
    }

    /// The mailbox after box `i` took `data`: its length recorded, and full.
    pub open spec fn after_write(self, i: int, data: Seq<u8>) -> MailboxView {
        MailboxView {
            boxes: self.boxes.update(
                i,
                BoxMetadata { state: 2, data_length: data.len() as u32, ..self.boxes[i] },
            ),
            contents: self.contents.update(i, data),
            ..self
        }
    }

    /// What a state change of box `id` that needs the state `from` answers.
    pub open spec fn step_result(self, id: u32, from: BoxState) -> Result<int, MailboxError> {
        match self.position(id) {
            None => Err(MailboxError::BoxNotFound(id)),
            Some(i) => if box_state_of(self.boxes[i].state) != from {
                if from == BoxState::Full {
                    Err(MailboxError::NotFull(id))
                } else {
                    Err(MailboxError::NotReading(id))
                }
            } else {
                Ok(i)
            },
        }
    }

    /// The mailbox after the read of box `i` ended: no data, and empty.
    pub open spec fn after_finish(self, i: int) -> MailboxView {
        MailboxView {
            boxes: self.boxes.update(i, BoxMetadata { state: 0, data_length: 0, ..self.boxes[i] }),
            contents: self.contents.update(i, Seq::empty()),
            ..self
        }
    }
}


/// Lemma: what finding a box by id finds.
proof fn lemma_find_box_from(boxes: Seq<BoxMetadata>, id: u32, k: int)
    requires
        0 <= k,
    ensures
        find_box_from(boxes, id, k) matches Some(j) ==> k <= j < boxes.len() && boxes[j].id == id,
        find_box_from(boxes, id, k) is None ==> forall|j: int|
            k <= j < boxes.len() ==> #[trigger] boxes[j].id != id,
    decreases boxes.len() - k,
{
    if k < boxes.len() && boxes[k].id != id {
        lemma_find_box_from(boxes, id, k + 1);
    }
}

/// Lemma: what finding an index entry by kind finds.
proof fn lemma_index_for_from(index: Seq<(BoxSize, Seq<usize>)>, s: BoxSize, k: int)
    requires
        0 <= k,
    ensures
        index_for_from(index, s, k) matches Some(j) ==> k <= j < index.len() && index[j].0 == s,
    decreases index.len() - k,
{
    if k < index.len() && index[k].0 != s {
        lemma_index_for_from(index, s, k + 1);
    }
}

/// Lemma: the box that a search for an empty box finds is listed and reads `Empty`.
proof fn lemma_first_empty_from(boxes: Seq<BoxMetadata>, list: Seq<usize>, k: int)
    requires
        0 <= k,
        forall|j: int| 0 <= j < list.len() ==> #[trigger] list[j] < boxes.len(),
    ensures
        first_empty_from(boxes, list, k) matches Some(i) ==> 0 <= i < boxes.len() && box_state_of(
            boxes[i].state,
        ) == BoxState::Empty && exists|q: int| 0 <= q < list.len() && list[q] == i,
    decreases list.len() - k,
{
    if k < list.len() && box_state_of(boxes[list[k] as int].state) != BoxState::Empty {
        lemma_first_empty_from(boxes, list, k + 1);
    }
}

/// How many boxes read as state `s`.
pub open spec fn count_boxes(boxes: Seq<BoxMetadata>, s: BoxState) -> nat
    decreases boxes.len(),
{
    if boxes.len() == 0 {
        0
    } else {
        count_boxes(boxes.drop_last(), s) + if box_state_of(boxes.last().state) == s {
            1nat
        } else {
            0nat
        }
    }
}

/// The number of boxes of each kind, kinds in the order their first box comes.
pub open spec fn size_tally(boxes: Seq<BoxMetadata>) -> Seq<(BoxSize, usize)>
    decreases boxes.len(),
{
    if boxes.len() == 0 {
        Seq::empty()
    } else {
        let t = size_tally(boxes.drop_last());
        let k = size_of_mb(boxes.last().size);
        match entry_pos(t, k) {
            Some(p) => t.update(p, (k, (t[p].1 + 1) as usize)),
            None => t.push((k, 1usize)),
        }
    }
}

/// Counts of a mailbox's boxes.
#[derive(Debug, Clone, PartialEq, Eq)]
pub struct MailboxStats {
    /// All boxes.
    pub total_count: usize,
    /// Boxes that read as `Empty`.
    pub empty_count: usize,
    /// Boxes that are `Writing`.
    pub writing_count: usize,
    /// Boxes that are `Full`.
    pub full_count: usize,
    /// Boxes that are `Reading`.
    pub reading_count: usize,
    /// The number of boxes of each kind.
    pub size_counts: Vec<(BoxSize, usize)>,
}

/// A token that the mailbox lock is held.
#[derive(Debug)]
pub struct MailboxLock {
    held: bool,
}

/// What to do after an attempt to take the mailbox lock.
#[derive(Debug, Clone, Copy, PartialEq, Eq, Structural)]
pub enum LockStep {
    /// The lock is taken.
    Acquired,
    /// The lock was busy; yield the processor and try again with this attempt count.
    Yield(u32),
    /// The lock was busy; sleep a microsecond and try again with this attempt count.
    Sleep(u32),
    /// The lock stayed busy through every attempt.
    GiveUp,
}

/// What the attempt after `attempts` failed ones does when the lock is busy: up to
/// 100000 attempts, yielding for the first thousand and sleeping after.
pub open spec fn lock_backoff(attempts: u32) -> LockStep {
    if attempts + 1 > 100000 {
        LockStep::GiveUp
    } else if attempts + 1 < 1000 {
        LockStep::Yield((attempts + 1) as u32)
    } else {
        LockStep::Sleep((attempts + 1) as u32)
    }
}

/// The boxes of a mailbox and their data.
pub struct BoxStore {
    header: MailboxHeader,
    boxes: Vec<BoxMetadata>,
    contents: Vec<Vec<u8>>,
    index: Vec<(BoxSize, Vec<usize>)>,
}

impl View for BoxStore {
    type V = MailboxView;

    closed spec fn view(&self) -> MailboxView {
        MailboxView {
            header: self.header,
            boxes: self.boxes@,
            contents: self.contents@.map_values(|c: Vec<u8>| c@),
            index: self.index@.map_values(|e: (BoxSize, Vec<usize>)| (e.0, e.1@)),
        }
    }
}

impl BoxStore {
    /// Lays out the boxes of a configuration: kind after kind, ids from 1 on, data
    /// areas one after the other after the header and metadata; every box empty.
    fn initialize(config: &BoxConfig) -> (st: BoxStore)
        requires
            config.wf(),
            config_fits(config@),
        ensures
            st@.wf(),
            st@.header == MailboxHeader::new_spec(counts_total(config@) as u32),
            st@.boxes == box_layout(
                config@,
                (HEADER_SIZE + counts_total(config@) * METADATA_SIZE) as nat,
            ),
            st@.contents == Seq::new(counts_total(config@), |i: int| Seq::<u8>::empty()),
            st@.index == index_layout(config@),
    {
        let total = config.total_count();
        let header = MailboxHeader::new(total as u32);
        let data_start: usize = HEADER_SIZE + total * METADATA_SIZE;
        let ghost es = config@;
        let mut boxes: Vec<BoxMetadata> = Vec::new();
        let mut contents: Vec<Vec<u8>> = Vec::new();
        let mut index: Vec<(BoxSize, Vec<usize>)> = Vec::new();
        let mut box_id: u32 = 1;
        let mut data_offset: usize = data_start;
        let sizes = config.configured_sizes();
        let mut e: usize = 0;
        while e < sizes.len()
            invariant
                es == config@,
                config_fits(es),
                total == counts_total(es),
                data_start == HEADER_SIZE + total * METADATA_SIZE,
                sizes@ == es.map_values(|x: (BoxSize, usize)| x.0),
                distinct_kinds(es),
                e <= sizes.len(),
                boxes@ == box_layout(es.subrange(0, e as int), data_start as nat),
                contents@.len() == boxes@.len(),
                forall|i: int| 0 <= i < contents@.len() ==> (#[trigger] contents@[i])@.len() == 0,
                forall|i: int| 0 <= i < boxes@.len() ==> (#[trigger] boxes@[i]).data_length == 0,
                index@.map_values(|x: (BoxSize, Vec<usize>)| (x.0, x.1@)) == index_layout(
                    es.subrange(0, e as int),
                ),
                boxes@.len() == counts_total(es.subrange(0, e as int)),
                box_id == counts_total(es.subrange(0, e as int)) + 1,
                data_offset == data_start + data_total(es.subrange(0, e as int)),
            decreases sizes.len() - e,
        {
            let size = sizes[e];
            proof {
                lemma_entry_pos_distinct(es, e as int);
                lemma_totals_prefix(es, e + 1);
                assert(es.subrange(0, e + 1).drop_last() =~= es.subrange(0, e as int));
                assert(es.subrange(0, e + 1).last() == es[e as int]);
            }
            let count = config.get_count(size);
            assert(count == es[e as int].1);
            let ghost before = boxes@;
            let ghost first = boxes@.len();
            let mut indices: Vec<usize> = Vec::new();
            let mut k: usize = 0;
            while k < count
                invariant
                    k <= count,
                    count == es[e as int].1,
                    size == es[e as int].0,
                    boxes@ == before + box_run(
                        size,
                        k as nat,
                        counts_total(es.subrange(0, e as int)) + 1,
                        (data_start + data_total(es.subrange(0, e as int))) as nat,
                    ),
                    before.len() == first,
                    first == counts_total(es.subrange(0, e as int)),
                    contents@.len() == boxes@.len(),
                    forall|i: int| 0 <= i < contents@.len() ==> (#[trigger] contents@[i])@.len() == 0,
                    forall|i: int| 0 <= i < boxes@.len() ==> (#[trigger] boxes@[i]).data_length == 0,
                    indices@ == index_run(first, k as nat),
                    box_id == first + k + 1,
                    data_offset == data_start + data_total(es.subrange(0, e as int)) + k
                        * size_bytes(size),
                    counts_total(es.subrange(0, e + 1)) <= counts_total(es),
                    data_total(es.subrange(0, e + 1)) <= data_total(es),
                    counts_total(es.subrange(0, e + 1)) == first + count,
                    data_total(es.subrange(0, e + 1)) == data_total(es.subrange(0, e as int))
                        + count * size_bytes(size),
                    config_fits(es),
                    total == counts_total(es),
                    data_start == HEADER_SIZE + total * METADATA_SIZE,
                decreases count - k,
            {
                proof {
                    assert(k * size_bytes(size) <= count * size_bytes(size)) by (nonlinear_arith)
                        requires
                            k < count,
                    ;
                    assert((k + 1) * size_bytes(size) == k * size_bytes(size) + size_bytes(size))
                        by (nonlinear_arith);
                    assert((k + 1) * size_bytes(size) <= count * size_bytes(size))
                        by (nonlinear_arith)
                        requires
                            k < count,
                    ;
                }
                let m = BoxMetadata::new(box_id, size, data_offset as u32);
                boxes.push(m);
                contents.push(Vec::new());
                indices.push(boxes.len() - 1);
                box_id = box_id + 1;
                data_offset = data_offset + size.bytes();
                k = k + 1;
                assert(boxes@ =~= before + box_run(
                    size,
                    k as nat,
                    counts_total(es.subrange(0, e as int)) + 1,
                    (data_start + data_total(es.subrange(0, e as int))) as nat,
                ));
                assert(indices@ =~= index_run(first, k as nat));
            }
            if count > 0 {
                index.push((size, indices));
            }
            e = e + 1;
            assert(index@.map_values(|x: (BoxSize, Vec<usize>)| (x.0, x.1@)) =~= index_layout(
                es.subrange(0, e as int),
            ));
        }
        assert(es.subrange(0, e as int) =~= es);
        let st = BoxStore { header, boxes, contents, index };
        assert forall|i: int| 0 <= i < st@.contents.len() implies #[trigger] st@.contents[i]
            =~= Seq::<u8>::empty() by {
            assert(st@.contents[i] == contents@[i]@);
        }
        assert(st@.contents =~= Seq::new(counts_total(config@), |i: int| Seq::<u8>::empty()));
        proof {
            lemma_index_layout_bounds(es);
            lemma_layout_kinds(es, data_start as nat);
        }
        st
    }
}

/// Lemma: the positions that the index of a configuration lists name boxes of it.
proof fn lemma_index_layout_bounds(entries: Seq<(BoxSize, usize)>)
    ensures
        forall|e: int, k: int|
            0 <= e < index_layout(entries).len() && 0 <= k < index_layout(entries)[e].1.len()
                ==> #[trigger] index_layout(entries)[e].1[k] < counts_total(entries),
    decreases entries.len(),
{
    if entries.len() > 0 {
        let d = entries.drop_last();
        lemma_index_layout_bounds(d);
        let il = index_layout(entries);
        let dl = index_layout(d);
        assert forall|e: int, k: int| 0 <= e < il.len() && 0 <= k < il[e].1.len() implies #[trigger] il[e].1[k]
            < counts_total(entries) by {
            if e < dl.len() {
                assert(il[e] == dl[e]);
            }
        }
    }
}

impl MailboxHeader {
    /// The header that `new` builds.
    pub open spec fn new_spec(total_boxes: u32) -> MailboxHeader {
        MailboxHeader {
            magic: MAILBOX_MAGIC,
            version: MAILBOX_VERSION,
            total_boxes,
            lock: 0,
            next_box_id: 1,
        }
    }
}


impl BoxStore {
    /// The position of the first box with id `id`.
    fn position(&self, id: u32) -> (r: Option<usize>)
        ensures
            r == match self@.position(id) {
                Some(i) => Some(i as usize),
                None => None::<usize>,
            },
            r matches Some(i) ==> i < self@.boxes.len(),
            self@.position(id) matches Some(j) ==> 0 <= j < self@.boxes.len() && self@.boxes[j].id
                == id,
            self@.boxes.len() <= usize::MAX,
    {
        proof {
            lemma_find_box_from(self@.boxes, id, 0);
        }
        let mut k: usize = 0;
        while k < self.boxes.len()
            invariant
                k <= self.boxes.len(),
                self@.position(id) == find_box_from(self@.boxes, id, k as int),
            decreases self.boxes.len() - k,
        {
            if self.boxes[k].id == id {
                return Some(k);
            }
            k = k + 1;
        }
        None
    }

    /// The position in the index of the entry for kind `size`.
    fn index_entry(&self, size: BoxSize) -> (r: Option<usize>)
        ensures
            r == match index_for_from(self@.index, size, 0) {
                Some(i) => Some(i as usize),
                None => None::<usize>,
            },
            r matches Some(i) ==> i < self@.index.len() && self@.index[i as int].0 == size,
            index_for_from(self@.index, size, 0) matches Some(j) ==> 0 <= j < self@.index.len(),
            self@.index.len() <= usize::MAX,
    {
        proof {
            lemma_index_for_from(self@.index, size, 0);
        }
        let mut k: usize = 0;
        while k < self.index.len()
            invariant
                k <= self.index.len(),
                index_for_from(self@.index, size, 0) == index_for_from(self@.index, size, k as int),
            decreases self.index.len() - k,
        {
            if self.index[k].0 == size {
                return Some(k);
            }
            k = k + 1;
        }
        None
    }

    /// Claims the first empty box of kind `size`: it becomes `Writing`; answers its id.
    fn get_empty_box(&mut self, size: BoxSize) -> (r: Result<u32, MailboxError>)
        requires
            old(self)@.wf(),
        ensures
            final(self)@.wf(),
            match old(self)@.empty_box_for(size) {
                Ok(i) => r == Ok::<u32, MailboxError>(old(self)@.boxes[i].id) && final(self)@
                    == old(self)@.with_box_state(i, 1),
                Err(e) => r == Err::<u32, MailboxError>(e) && final(self)@ == old(self)@,
            },
    {
        let er = self.index_entry(size);
        if er.is_none() {
            return Err(MailboxError::InvalidBoxSize(size));
        }
        let e = er.unwrap();
        assert(index_for_from(self@.index, size, 0) == Some(e as int));
        let ghost list = self@.index[e as int].1;
        let n = self.index[e].1.len();
        proof {
            lemma_first_empty_from(self@.boxes, list, 0);
        }
        let mut k: usize = 0;
        while k < n
            invariant
                self@ == old(self)@,
                self@.wf(),
                e < self@.index.len(),
                index_for_from(self@.index, size, 0) == Some(e as int),
                list == self@.index[e as int].1,
                n == list.len(),
                k <= n,
                first_empty_from(self@.boxes, list, 0) == first_empty_from(self@.boxes, list, k as int),
            decreases n - k,
        {
            let i = self.index[e].1[k];
            assert(i < self@.boxes.len());
            if self.boxes[i].state != 1 && self.boxes[i].state != 2 && self.boxes[i].state != 3 {
                let ghost before = self@;
                assert(first_empty_from(before.boxes, list, k as int) == Some(i as int));
                self.boxes[i].state = 1;
                assert(self@.boxes =~= before.with_box_state(i as int, 1).boxes);
                assert(self@.contents =~= before.contents);
                assert(self@.index =~= before.index);
                assert(self@ == before.with_box_state(i as int, 1));
                assert(index_for_from(before.index, size, 0) == Some(e as int));
                assert(before.empty_box_for(size) == Ok::<int, MailboxError>(i as int));
                return Ok(self.boxes[i].id);
            }
            k = k + 1;
        }
        Err(MailboxError::NoEmptyBox(size))
    }

    /// The metadata of the box with id `box_id`.
    fn find_box_by_id(&self, box_id: u32) -> (r: Result<&BoxMetadata, MailboxError>)
        ensures
            match self@.position(box_id) {
                Some(i) => r matches Ok(m) && *m == self@.boxes[i],
                None => r == Err::<&BoxMetadata, MailboxError>(MailboxError::BoxNotFound(box_id)),
            },
    {
        let p = self.position(box_id);
        match p {
            Some(i) => {
                Ok(&self.boxes[i])
            },
            None => Err(MailboxError::BoxNotFound(box_id)),
        }
    }

    /// Puts `data` into the box with id `box_id`, which must be `Writing` and large
    /// enough; the box becomes `Full`.
    fn write_data(&mut self, box_id: u32, data: &[u8]) -> (r: Result<(), MailboxError>)
        requires
            old(self)@.wf(),
        ensures
            final(self)@.wf(),
            r == old(self)@.write_result(box_id, data@),
            r is Ok ==> final(self)@ == old(self)@.after_write(
                old(self)@.position(box_id).unwrap(),
                data@,
            ),
            r is Err ==> final(self)@ == old(self)@,
    {
        let i = match self.position(box_id) {
            Some(i) => i,
            None => return Err(MailboxError::BoxNotFound(box_id)),
        };
        if self.boxes[i].get_state() != BoxState::Writing {
            return Err(MailboxError::NotWriting(box_id));
        }
        let max_size = self.boxes[i].get_size().bytes();
        if data.len() > max_size {
            return Err(MailboxError::DataTooLarge(data.len(), max_size));
        }
        let ghost before = self@;
        let stored = slice_to_vec(data);
        self.contents.set(i, stored);
        self.boxes[i].data_length = data.len() as u32;
        self.boxes[i].state = 2;
        assert(self@.boxes =~= before.after_write(i as int, data@).boxes);
        assert(self@.contents =~= before.after_write(i as int, data@).contents);
        Ok(())
    }

    /// Turns the box with id `box_id` from `Full` to `Reading`.
    fn start_reading(&mut self, box_id: u32) -> (r: Result<(), MailboxError>)
        requires
            old(self)@.wf(),
        ensures
            final(self)@.wf(),
            match old(self)@.step_result(box_id, BoxState::Full) {
                Ok(i) => r is Ok && final(self)@ == old(self)@.with_box_state(i, 3),
                Err(e) => r == Err::<(), MailboxError>(e) && final(self)@ == old(self)@,
            },
    {
        let i = match self.position(box_id) {
            Some(i) => i,
            None => return Err(MailboxError::BoxNotFound(box_id)),
        };
        if self.boxes[i].get_state() != BoxState::Full {
            return Err(MailboxError::NotFull(box_id));
        }
        let ghost before = self@;
        self.boxes[i].state = 3;
        assert(self@.boxes =~= before.with_box_state(i as int, 3).boxes);
        Ok(())
    }

    /// The data of the box with id `box_id`, which must be `Reading`.
    fn read_data(&self, box_id: u32) -> (r: Result<Vec<u8>, MailboxError>)
        requires
            self@.wf(),
        ensures
            match self@.step_result(box_id, BoxState::Reading) {
                Ok(i) => r matches Ok(d) && d@ == self@.contents[i],
                Err(e) => r == Err::<Vec<u8>, MailboxError>(e),
            },
    {
        let i = match self.position(box_id) {
            Some(i) => i,
            None => return Err(MailboxError::BoxNotFound(box_id)),
        };
        if self.boxes[i].get_state() != BoxState::Reading {
            return Err(MailboxError::NotReading(box_id));
        }
        let d = slice_to_vec(self.contents[i].as_slice());
        Ok(d)
    }

    /// Ends the read of the box with id `box_id`, which must be `Reading`: it holds no
    /// data any more and is `Empty`.
    fn finish_reading(&mut self, box_id: u32) -> (r: Result<(), MailboxError>)
        requires
            old(self)@.wf(),
        ensures
            final(self)@.wf(),
            match old(self)@.step_result(box_id, BoxState::Reading) {
                Ok(i) => r is Ok && final(self)@ == old(self)@.after_finish(i),
                Err(e) => r == Err::<(), MailboxError>(e) && final(self)@ == old(self)@,
            },
    {
        let i = match self.position(box_id) {
            Some(i) => i,
            None => return Err(MailboxError::BoxNotFound(box_id)),
        };
        if self.boxes[i].get_state() != BoxState::Reading {
            return Err(MailboxError::NotReading(box_id));
        }
        let ghost before = self@;
        self.contents.set(i, Vec::new());
        self.boxes[i].data_length = 0;
        self.boxes[i].state = 0;
        assert(self@.boxes =~= before.after_finish(i as int).boxes);
        assert(self@.contents =~= before.after_finish(i as int).contents);
        Ok(())
    }

    /// One attempt to take the lock after `attempts` failed ones.
    fn lock_step(&mut self, attempts: u32) -> (r: LockStep)
        ensures
            old(self)@.header.lock == 0 ==> r == LockStep::Acquired && final(self)@ == (
            MailboxView { header: MailboxHeader { lock: 1, ..old(self)@.header }, ..old(self)@ }),
            old(self)@.header.lock != 0 ==> r == lock_backoff(attempts) && final(self)@ == old(
                self,
            )@,
    {
        if self.header.try_lock() {
            return LockStep::Acquired;
        }
        if attempts >= 100000 {
            LockStep::GiveUp
        } else if attempts + 1 < 1000 {
            LockStep::Yield(attempts + 1)
        } else {
            LockStep::Sleep(attempts + 1)
        }
    }

    /// Frees the lock.
    fn unlock(&mut self)
        ensures
            final(self)@ == (MailboxView {
                header: MailboxHeader { lock: 0, ..old(self)@.header },
                ..old(self)@
            }),
    {
        self.header.unlock();
    }

    /// Counts the boxes one by one: by state, and by kind in the order the kinds first
    /// come.
    fn stats_by_box(&self) -> (st: MailboxStats)
        requires
            self@.wf(),
        ensures
            st.total_count == self@.boxes.len(),
            st.empty_count == count_boxes(self@.boxes, BoxState::Empty),
            st.writing_count == count_boxes(self@.boxes, BoxState::Writing),
            st.full_count == count_boxes(self@.boxes, BoxState::Full),
            st.reading_count == count_boxes(self@.boxes, BoxState::Reading),
            st.size_counts@ == size_tally(self@.boxes),
    {
        let n = self.boxes.len();
        let ghost bs = self@.boxes;
        let mut empty: usize = 0;
        let mut writing: usize = 0;
        let mut full: usize = 0;
        let mut reading: usize = 0;
        let mut tally: Vec<(BoxSize, usize)> = Vec::new();
        let mut i: usize = 0;
        while i < n
            invariant
                n == bs.len(),
                bs == self@.boxes,
                i <= n,
                empty == count_boxes(bs.subrange(0, i as int), BoxState::Empty),
                writing == count_boxes(bs.subrange(0, i as int), BoxState::Writing),
                full == count_boxes(bs.subrange(0, i as int), BoxState::Full),
                reading == count_boxes(bs.subrange(0, i as int), BoxState::Reading),
                empty + writing + full + reading == i,
                tally@ == size_tally(bs.subrange(0, i as int)),
                forall|p: int| 0 <= p < tally@.len() ==> #[trigger] tally@[p].1 <= i,
            decreases n - i,
        {
            let ghost prev = bs.subrange(0, i as int);
            let ghost next = bs.subrange(0, i + 1);
            assert(next.drop_last() =~= prev);
            assert(next.last() == bs[i as int]);
            match self.boxes[i].get_state() {
                BoxState::Empty => empty = empty + 1,
                BoxState::Writing => writing = writing + 1,
                BoxState::Full => full = full + 1,
                BoxState::Reading => reading = reading + 1,
            }
            let kind = self.boxes[i].get_size();
            let mut tk = BoxConfig { entries: tally };
            proof {
                lemma_entry_pos(tk@, kind);
            }
            let tn = tk.entries.len();
            match tk.position(kind) {
                Some(p) => {
                    let c = tk.entries[p].1;
                    tk.entries.set(p, (kind, c + 1));
                },
                None => {
                    tk.entries.push((kind, 1));
                },
            }
            tally = tk.entries;
            i = i + 1;
        }
        assert(bs.subrange(0, n as int) =~= bs);
        MailboxStats {
            total_count: n,
            empty_count: empty,
            writing_count: writing,
            full_count: full,
            reading_count: reading,
            size_counts: tally,
        }
    }
}

/// Law: every box is counted under exactly one state.
pub proof fn lemma_box_counts_partition(boxes: Seq<BoxMetadata>)
    ensures
        count_boxes(boxes, BoxState::Empty) + count_boxes(boxes, BoxState::Writing) + count_boxes(
            boxes,
            BoxState::Full,
        ) + count_boxes(boxes, BoxState::Reading) == boxes.len(),
    decreases boxes.len(),
{
    if boxes.len() > 0 {
        lemma_box_counts_partition(boxes.drop_last());
    }
}


/// The boxes that the index lists, entry after entry.
pub open spec fn listed_boxes(boxes: Seq<BoxMetadata>, index: Seq<(BoxSize, Seq<usize>)>) -> Seq<
    BoxMetadata,
>
    decreases index.len(),
{
    if index.len() == 0 {
        Seq::empty()
    } else {
        listed_boxes(boxes, index.drop_last()) + index.last().1.map_values(
            |j: usize| boxes[j as int],
        )
    }
}

/// The number of boxes in each entry of the index.
pub open spec fn index_sizes(index: Seq<(BoxSize, Seq<usize>)>) -> Seq<(BoxSize, usize)> {
    index.map_values(|e: (BoxSize, Seq<usize>)| (e.0, e.1.len() as usize))
}

/// The index that reading the boxes back builds: each kind in the order its first box
/// comes, with the positions of its boxes in order.
pub open spec fn rebuilt_index(boxes: Seq<BoxMetadata>) -> Seq<(BoxSize, Seq<usize>)>
    decreases boxes.len(),
{
    if boxes.len() == 0 {
        Seq::empty()
    } else {
        let t = rebuilt_index(boxes.drop_last());
        let k = size_of_mb(boxes.last().size);
        let j = (boxes.len() - 1) as usize;
        match index_kind_pos(t, k) {
            Some(p) => t.update(p, (k, t[p].1.push(j))),
            None => t.push((k, seq![j])),
        }
    }
}

/// The position of the entry for kind `s` in an index.
pub open spec fn index_kind_pos(index: Seq<(BoxSize, Seq<usize>)>, s: BoxSize) -> Option<int>
    decreases index.len(),
{
    if index.len() == 0 {
        None
    } else if index.last().0 == s {
        Some(index.len() - 1)
    } else {
        index_kind_pos(index.drop_last(), s)
    }
}

/// Lemma: an entry found by kind is that kind's.
proof fn lemma_index_kind_pos(index: Seq<(BoxSize, Seq<usize>)>, s: BoxSize)
    ensures
        index_kind_pos(index, s) matches Some(p) ==> 0 <= p < index.len() && index[p].0 == s,
    decreases index.len(),
{
    if index.len() > 0 && index.last().0 != s {
        lemma_index_kind_pos(index.drop_last(), s);
    }
}

/// Lemma: the positions a rebuilt index lists name boxes.
proof fn lemma_rebuilt_index_bounds(boxes: Seq<BoxMetadata>)
    ensures
        forall|e: int, k: int|
            0 <= e < rebuilt_index(boxes).len() && 0 <= k < rebuilt_index(boxes)[e].1.len()
                ==> #[trigger] rebuilt_index(boxes)[e].1[k] < boxes.len(),
    decreases boxes.len(),
{
    if boxes.len() > 0 {
        let d = boxes.drop_last();
        lemma_rebuilt_index_bounds(d);
        let t = rebuilt_index(d);
        let k = size_of_mb(boxes.last().size);
        lemma_index_kind_pos(t, k);
        let r = rebuilt_index(boxes);
        assert forall|e: int, q: int| 0 <= e < r.len() && 0 <= q < r[e].1.len() implies #[trigger] r[e].1[q]
            < boxes.len() by {
            if e < t.len() {
                if index_kind_pos(t, k) == Some(e) {
                    if q < t[e].1.len() {
                        assert(r[e].1[q] == t[e].1[q]);
                    }
                } else {
                    assert(r[e] == t[e]);
                }
            }
        }
    }
}


/// Lemma: the boxes a prefix of the index lists are no more than all it lists.
proof fn lemma_listed_prefix(boxes: Seq<BoxMetadata>, index: Seq<(BoxSize, Seq<usize>)>, i: int)
    requires
        0 <= i <= index.len(),
    ensures
        listed_boxes(boxes, index.subrange(0, i)).len() <= listed_boxes(boxes, index).len(),
    decreases index.len() - i,
{
    if i < index.len() {
        lemma_listed_prefix(boxes, index, i + 1);
        assert(index.subrange(0, i + 1).drop_last() =~= index.subrange(0, i));
    } else {
        assert(index.subrange(0, i) =~= index);
    }
}

/// The number of positions the index lists.
pub open spec fn index_total(index: Seq<(BoxSize, Seq<usize>)>) -> nat
    decreases index.len(),
{
    if index.len() == 0 {
        0
    } else {
        index_total(index.drop_last()) + index.last().1.len()
    }
}

/// Lemma: the index lists as many boxes as it holds positions.
proof fn lemma_listed_len(boxes: Seq<BoxMetadata>, index: Seq<(BoxSize, Seq<usize>)>)
    ensures
        listed_boxes(boxes, index).len() == index_total(index),
    decreases index.len(),
{
    if index.len() > 0 {
        lemma_listed_len(boxes, index.drop_last());
    }
}

/// Lemma: replacing the list of one entry changes the total by the difference in length.
proof fn lemma_index_total_update(index: Seq<(BoxSize, Seq<usize>)>, p: int, e: (BoxSize, Seq<usize>))
    requires
        0 <= p < index.len(),
    ensures
        index_total(index.update(p, e)) + index[p].1.len() == index_total(index) + e.1.len(),
    decreases index.len(),
{
    let u = index.update(p, e);
    if p == index.len() - 1 {
        assert(u.drop_last() =~= index.drop_last());
    } else {
        lemma_index_total_update(index.drop_last(), p, e);
        assert(u.drop_last() =~= index.drop_last().update(p, e));
    }
}

/// Lemma: a rebuilt index lists every box once.
proof fn lemma_rebuilt_total(boxes: Seq<BoxMetadata>)
    ensures
        index_total(rebuilt_index(boxes)) == boxes.len(),
    decreases boxes.len(),
{
    if boxes.len() > 0 {
        let d = boxes.drop_last();
        lemma_rebuilt_total(d);
        let t = rebuilt_index(d);
        let k = size_of_mb(boxes.last().size);
        lemma_index_kind_pos(t, k);
        match index_kind_pos(t, k) {
            Some(p) => {
                lemma_index_total_update(t, p, (k, t[p].1.push((boxes.len() - 1) as usize)));
            },
            None => {
                assert(t.push((k, seq![(boxes.len() - 1) as usize])).drop_last() =~= t);
            },
        }
    }
}

/// Lemma: the index of a configuration lists every box once.
proof fn lemma_layout_total(entries: Seq<(BoxSize, usize)>)
    ensures
        index_total(index_layout(entries)) == counts_total(entries),
    decreases entries.len(),
{
    if entries.len() > 0 {
        let d = entries.drop_last();
        lemma_layout_total(d);
        if entries.last().1 > 0 {
            let x = (entries.last().0, index_run(counts_total(d), entries.last().1 as nat));
            assert(index_layout(d).push(x).drop_last() =~= index_layout(d));
        }
    }
}


/// Lemma: a configuration lays out as many boxes as it counts.
proof fn lemma_layout_len(entries: Seq<(BoxSize, usize)>, data_start: nat)
    ensures
        box_layout(entries, data_start).len() == counts_total(entries),
    decreases entries.len(),
{
    if entries.len() > 0 {
        lemma_layout_len(entries.drop_last(), data_start);
    }
}

/// Lemma: the boxes that the index of a configuration lists under a kind are of that
/// kind.
proof fn lemma_layout_kinds(entries: Seq<(BoxSize, usize)>, data_start: nat)
    requires
        counts_total(entries) <= usize::MAX,
    ensures
        forall|e: int, k: int|
            0 <= e < index_layout(entries).len() && 0 <= k < index_layout(entries)[e].1.len()
                ==> size_of_mb(
                box_layout(entries, data_start)[#[trigger] index_layout(entries)[e].1[k] as int].size,
            ) == index_layout(entries)[e].0,
    decreases entries.len(),
{
    if entries.len() > 0 {
        let d = entries.drop_last();
        lemma_counts_prefix(entries, entries.len() - 1);
        assert(entries.subrange(0, entries.len() - 1) =~= d);
        lemma_layout_kinds(d, data_start);
        lemma_layout_len(d, data_start);
        lemma_index_layout_bounds(d);
        let il = index_layout(entries);
        let dl = index_layout(d);
        let bl = box_layout(entries, data_start);
        let db = box_layout(d, data_start);
        assert forall|e: int, k: int|
            0 <= e < il.len() && 0 <= k < il[e].1.len() implies size_of_mb(
            bl[#[trigger] il[e].1[k] as int].size,
        ) == il[e].0 by {
            if e < dl.len() {
                assert(il[e] == dl[e]);
                assert(bl[dl[e].1[k] as int] == db[dl[e].1[k] as int]);
            } else {
                let x = entries.last();
                assert(x.1 > 0);
                assert(e == dl.len());
                assert(il[e].1[k] == counts_total(d) + k);
                assert(bl[il[e].1[k] as int] == box_run(
                    x.0,
                    x.1 as nat,
                    counts_total(d) + 1,
                    data_start + data_total(d),
                )[k]);
                lemma_size_mb_round_trip(x.0);
            }
        }
    }
}

/// Lemma: the boxes that a rebuilt index lists under a kind are of that kind.
proof fn lemma_rebuilt_kinds(boxes: Seq<BoxMetadata>)
    requires
        boxes.len() <= usize::MAX,
    ensures
        forall|e: int, k: int|
            0 <= e < rebuilt_index(boxes).len() && 0 <= k < rebuilt_index(boxes)[e].1.len()
                ==> size_of_mb(boxes[#[trigger] rebuilt_index(boxes)[e].1[k] as int].size)
                == rebuilt_index(boxes)[e].0,
    decreases boxes.len(),
{
    if boxes.len() > 0 {
        let d = boxes.drop_last();
        lemma_rebuilt_kinds(d);
        lemma_rebuilt_index_bounds(d);
        assert(boxes[boxes.len() - 1] == boxes.last());
        let t = rebuilt_index(d);
        let kind = size_of_mb(boxes.last().size);
        lemma_index_kind_pos(t, kind);
        let r = rebuilt_index(boxes);
        assert forall|e: int, q: int|
            0 <= e < r.len() && 0 <= q < r[e].1.len() implies size_of_mb(
            boxes[#[trigger] r[e].1[q] as int].size,
        ) == r[e].0 by {
            if e < t.len() {
                if index_kind_pos(t, kind) == Some(e) {
                    if q < t[e].1.len() {
                        assert(r[e].1[q] == t[e].1[q]);
                        assert(boxes[t[e].1[q] as int] == d[t[e].1[q] as int]);
                    }
                } else {
                    assert(r[e] == t[e]);
                    assert(boxes[t[e].1[q] as int] == d[t[e].1[q] as int]);
                }
            }
        }
    }
}

impl BoxStore {
    /// Rebuilds the store from the header and the boxes read back from memory.
    fn attach(header: MailboxHeader, boxes: Vec<BoxMetadata>, contents: Vec<Vec<u8>>) -> (st:
        BoxStore)
        requires
            boxes@.len() == contents@.len(),
            forall|i: int|
                0 <= i < boxes@.len() ==> (#[trigger] contents@[i])@.len() == boxes@[i].data_length,
        ensures
            st@.wf(),
            st@.header == header,
            st@.boxes == boxes@,
            st@.contents == contents@.map_values(|c: Vec<u8>| c@),
            st@.index == rebuilt_index(boxes@),
    {
        let n = boxes.len();
        let mut index: Vec<(BoxSize, Vec<usize>)> = Vec::new();
        let mut i: usize = 0;
        while i < n
            invariant
                n == boxes@.len(),
                i <= n,
                index@.map_values(|x: (BoxSize, Vec<usize>)| (x.0, x.1@)) == rebuilt_index(
                    boxes@.subrange(0, i as int),
                ),
            decreases n - i,
        {
            let ghost prev = boxes@.subrange(0, i as int);
            let ghost next = boxes@.subrange(0, i + 1);
            assert(next.drop_last() =~= prev);
            let kind = boxes[i].get_size();
            let ghost t = rebuilt_index(prev);
            proof {
                lemma_index_kind_pos(t, kind);
            }
            let mut p: usize = index.len();
            assert(t.subrange(0, p as int) =~= t);
            while p > 0 && index[p - 1].0 != kind
                invariant
                    p <= index@.len(),
                    index@.map_values(|x: (BoxSize, Vec<usize>)| (x.0, x.1@)) == t,
                    index_kind_pos(t, kind) == index_kind_pos(t.subrange(0, p as int), kind),
                decreases p,
            {
                assert(t.subrange(0, p as int).drop_last() =~= t.subrange(0, p - 1));
                p = p - 1;
            }
            if p > 0 {
                assert(t.subrange(0, p as int).last() == t[p - 1]);
                let ghost before = index@;
                let mut entry = index.remove(p - 1);
                entry.1.push(i);
                index.insert(p - 1, entry);
                assert(index@.map_values(|x: (BoxSize, Vec<usize>)| (x.0, x.1@)) =~= t.update(
                    p - 1,
                    (kind, t[p - 1].1.push(i)),
                ));
            } else {
                assert(t.subrange(0, p as int) =~= Seq::<(BoxSize, Seq<usize>)>::empty());
                let mut l: Vec<usize> = Vec::new();
                l.push(i);
                index.push((kind, l));
                assert(index@.map_values(|x: (BoxSize, Vec<usize>)| (x.0, x.1@)) =~= t.push(
                    (kind, seq![i]),
                ));
            }
            i = i + 1;
        }
        assert(boxes@.subrange(0, n as int) =~= boxes@);
        proof {
            lemma_rebuilt_index_bounds(boxes@);
            lemma_rebuilt_kinds(boxes@);
        }
        BoxStore { header, boxes, contents, index }
    }

    /// Counts the boxes that the index lists: in all, by state, and by kind.
    fn stats_by_index(&self) -> (st: MailboxStats)
        requires
            self@.wf(),
            listed_boxes(self@.boxes, self@.index).len() <= usize::MAX,
        ensures
            st.total_count == listed_boxes(self@.boxes, self@.index).len(),
            st.empty_count == count_boxes(listed_boxes(self@.boxes, self@.index), BoxState::Empty),
            st.writing_count == count_boxes(
                listed_boxes(self@.boxes, self@.index),
                BoxState::Writing,
            ),
            st.full_count == count_boxes(listed_boxes(self@.boxes, self@.index), BoxState::Full),
            st.reading_count == count_boxes(
                listed_boxes(self@.boxes, self@.index),
                BoxState::Reading,
            ),
            st.size_counts@ == index_sizes(self@.index),
    {
        let ghost bs = self@.boxes;
        let ghost ix = self@.index;
        let mut total: usize = 0;
        let mut empty: usize = 0;
        let mut writing: usize = 0;
        let mut full: usize = 0;
        let mut reading: usize = 0;
        let mut sizes: Vec<(BoxSize, usize)> = Vec::new();
        let mut e: usize = 0;
        while e < self.index.len()
            invariant
                self@.wf(),
                bs == self@.boxes,
                ix == self@.index,
                e <= ix.len(),
                total == listed_boxes(bs, ix.subrange(0, e as int)).len(),
                empty == count_boxes(listed_boxes(bs, ix.subrange(0, e as int)), BoxState::Empty),
                writing == count_boxes(listed_boxes(bs, ix.subrange(0, e as int)), BoxState::Writing),
                full == count_boxes(listed_boxes(bs, ix.subrange(0, e as int)), BoxState::Full),
                reading == count_boxes(listed_boxes(bs, ix.subrange(0, e as int)), BoxState::Reading),
                listed_boxes(bs, ix).len() <= usize::MAX,
                sizes@ == index_sizes(ix.subrange(0, e as int)),
            decreases ix.len() - e,
        {
            let ghost before = listed_boxes(bs, ix.subrange(0, e as int));
            assert(ix.subrange(0, e + 1).drop_last() =~= ix.subrange(0, e as int));
            let n = self.index[e].1.len();
            let ghost list = ix[e as int].1;
            proof {
                lemma_listed_prefix(bs, ix, e + 1);
                assert(ix.subrange(0, e + 1).last() == ix[e as int]);
            }
            let mut k: usize = 0;
            while k < n
                invariant
                    self@.wf(),
                    bs == self@.boxes,
                    ix == self@.index,
                    e < ix.len(),
                    list == ix[e as int].1,
                    n == list.len(),
                    k <= n,
                    total == before.len() + k,
                    empty == count_boxes(before + list.subrange(0, k as int).map_values(|j: usize| bs[j as int]), BoxState::Empty),
                    writing == count_boxes(before + list.subrange(0, k as int).map_values(|j: usize| bs[j as int]), BoxState::Writing),
                    full == count_boxes(before + list.subrange(0, k as int).map_values(|j: usize| bs[j as int]), BoxState::Full),
                    reading == count_boxes(before + list.subrange(0, k as int).map_values(|j: usize| bs[j as int]), BoxState::Reading),
                    listed_boxes(bs, ix).len() <= usize::MAX,
                    before.len() + n <= listed_boxes(bs, ix.subrange(0, e + 1)).len(),
                    listed_boxes(bs, ix.subrange(0, e + 1)).len() <= listed_boxes(bs, ix).len(),
                decreases n - k,
            {
                let j = self.index[e].1[k];
                let ghost cur = before + list.subrange(0, k as int).map_values(|j: usize| bs[j as int]);
                let ghost nxt = before + list.subrange(0, k + 1).map_values(|j: usize| bs[j as int]);
                assert(nxt.drop_last() =~= cur);
                assert(nxt.last() == bs[j as int]);
                assert(cur.len() == before.len() + k);
                proof {
                    lemma_box_counts_partition(cur);
                }
                match self.boxes[j].get_state() {
                    BoxState::Empty => empty = empty + 1,
                    BoxState::Writing => writing = writing + 1,
                    BoxState::Full => full = full + 1,
                    BoxState::Reading => reading = reading + 1,
                }
                proof {
                    lemma_box_counts_partition(cur);
                }
                total = total + 1;
                k = k + 1;
            }
            assert(list.subrange(0, n as int) =~= list);
            sizes.push((self.index[e].0, n));
            e = e + 1;
            assert(sizes@ =~= index_sizes(ix.subrange(0, e as int)));
        }
        assert(ix.subrange(0, e as int) =~= ix);
        MailboxStats {
            total_count: total,
            empty_count: empty,
            writing_count: writing,
            full_count: full,
            reading_count: reading,
            size_counts: sizes,
        }
    }
}


/// The memory a mailbox of a configuration takes, rounded up to whole pages.
fn page_rounded_size(config: &BoxConfig) -> (n: usize)
    requires
        config.wf(),
        config_fits(config@),
    ensures
        n == page_round(raw_memory_size(config@)),
        n == raw_memory_size(config@) || n == raw_memory_size(config@) + 4095 || n
            <= raw_memory_size(config@) + 4095,
{
    let raw = raw_size(config);
    (raw + 4095) / 4096 * 4096
}

/// The memory a mailbox of a configuration takes before rounding.
fn raw_size(config: &BoxConfig) -> (n: usize)
    requires
        config.wf(),
        config_fits(config@),
    ensures
        n == raw_memory_size(config@),
{
    let ghost es = config@;
    proof {
        lemma_counts_prefix(es, es.len() as int);
        assert(es.subrange(0, es.len() as int) =~= es);
    }
    let total = config.total_count();
    let mut data: usize = 0;
    let sizes = config.configured_sizes();
    let mut e: usize = 0;
    while e < sizes.len()
        invariant
            es == config@,
            config_fits(es),
            total == counts_total(es),
            sizes@ == es.map_values(|x: (BoxSize, usize)| x.0),
            distinct_kinds(es),
            e <= sizes.len(),
            data == data_total(es.subrange(0, e as int)),
        decreases sizes.len() - e,
    {
        proof {
            lemma_entry_pos_distinct(es, e as int);
            lemma_totals_prefix(es, e + 1);
            assert(es.subrange(0, e + 1).drop_last() =~= es.subrange(0, e as int));
            assert(es.subrange(0, e + 1).last() == es[e as int]);
        }
        let size = sizes[e];
        let count = config.get_count(size);
        data = data + count * size.bytes();
        e = e + 1;
    }
    assert(es.subrange(0, e as int) =~= es);
    HEADER_SIZE + total * METADATA_SIZE + data
}

/// Lemma: the default configuration fits, and lays out 18 boxes.
pub proof fn lemma_default_config_fits()
    ensures
        ({
            let es = seq![
                (BoxSize::Size1M, 10usize),
                (BoxSize::Size2M, 5usize),
                (BoxSize::Size5M, 2usize),
                (BoxSize::Size10M, 1usize),
            ];
            &&& config_fits(es)
            &&& counts_total(es) == 18
            &&& data_total(es) == 41943040
            &&& distinct_kinds(es)
        }),
{
    let es = seq![
        (BoxSize::Size1M, 10usize),
        (BoxSize::Size2M, 5usize),
        (BoxSize::Size5M, 2usize),
        (BoxSize::Size10M, 1usize),
    ];
    reveal_with_fuel(counts_total, 5);
    reveal_with_fuel(data_total, 5);
    assert(es.drop_last().drop_last().drop_last().drop_last() =~= Seq::<(BoxSize, usize)>::empty());
    assert(counts_total(es) == 18);
    assert(data_total(es) == 41943040);
}

/// A mailbox in the memory of one process.
pub struct SharedMailbox {
    memory_size: usize,
    store: BoxStore,
}

impl View for SharedMailbox {
    type V = MailboxView;

    closed spec fn view(&self) -> MailboxView {
        self.store@
    }
}

impl SharedMailbox {
    /// Well-formedness of the mailbox.
    pub open spec fn wf(&self) -> bool {
        self@.wf()
    }

    /// The memory the mailbox takes.
    pub closed spec fn memory_size(&self) -> nat {
        self.memory_size as nat
    }

    /// The memory a mailbox of a configuration takes: header, metadata and data areas,
    /// rounded up to whole pages of 4096 bytes.
    pub fn calculate_memory_size(config: &BoxConfig) -> (n: usize)
        requires
            config.wf(),
            config_fits(config@),
        ensures
            n == page_round(raw_memory_size(config@)),
    {
        page_rounded_size(config)
    }

    /// A mailbox with the boxes of a configuration, all empty: kind after kind in the
    /// configuration's order, ids from 1 on. Memory sizes beyond `isize::MAX` cannot be
    /// laid out.
    pub fn new(config: BoxConfig) -> (r: Result<SharedMailbox, MailboxError>)
        requires
            config.wf(),
            config_fits(config@),
        ensures
            page_round(raw_memory_size(config@)) > isize::MAX ==> r == Err::<
                SharedMailbox,
                MailboxError,
            >(MailboxError::LayoutFailed),
            page_round(raw_memory_size(config@)) <= isize::MAX ==> (r matches Ok(m) && m.wf()
                && m.memory_size() == page_round(raw_memory_size(config@)) && m@.header
                == MailboxHeader::new_spec(counts_total(config@) as u32) && m@.boxes
                == box_layout(config@, (HEADER_SIZE + counts_total(config@) * METADATA_SIZE) as nat)
                && m@.contents == Seq::new(counts_total(config@), |i: int| Seq::<u8>::empty())
                && m@.index == index_layout(config@)),
    {
        let total_size = Self::calculate_memory_size(&config);
        if total_size > isize::MAX as usize {
            return Err(MailboxError::LayoutFailed);
        }
        let store = BoxStore::initialize(&config);
        Ok(SharedMailbox { memory_size: total_size, store })
    }

    /// A mailbox with the default configuration.
    pub fn new_with_default() -> (r: Result<SharedMailbox, MailboxError>)
        ensures
            r matches Ok(m) && m.wf() && m@.boxes.len() == 18 && m@.index == index_layout(
                seq![
                    (BoxSize::Size1M, 10usize),
                    (BoxSize::Size2M, 5usize),
                    (BoxSize::Size5M, 2usize),
                    (BoxSize::Size10M, 1usize),
                ],
            ) && m@.boxes == box_layout(
                seq![
                    (BoxSize::Size1M, 10usize),
                    (BoxSize::Size2M, 5usize),
                    (BoxSize::Size5M, 2usize),
                    (BoxSize::Size10M, 1usize),
                ],
                380,
            ),
    {
        proof {
            lemma_default_config_fits();
        }
        let config = BoxConfig::default();
        proof {
            lemma_layout_len(config@, 380);
            assert(page_round(raw_memory_size(config@)) <= isize::MAX);
        }
        SharedMailbox::new(config)
    }

    /// One attempt to take the lock after `attempts` failed ones: taken when free;
    /// otherwise what to do next.
    pub fn lock_step(&mut self, attempts: u32) -> (r: LockStep)
        requires
            old(self).wf(),
        ensures
            final(self).wf(),
            old(self)@.header.lock == 0 ==> r == LockStep::Acquired && final(self)@ == (
            MailboxView { header: MailboxHeader { lock: 1, ..old(self)@.header }, ..old(self)@ }),
            old(self)@.header.lock != 0 ==> r == lock_backoff(attempts) && final(self)@ == old(
                self,
            )@,
    {
        self.store.lock_step(attempts)
    }

    /// Takes the lock when it is free: the token of the lock.
    pub fn lock(&mut self) -> (r: Result<MailboxLock, MailboxError>)
        requires
            old(self).wf(),
        ensures
            final(self).wf(),
            old(self)@.header.lock == 0 ==> r is Ok && final(self)@ == (MailboxView {
                header: MailboxHeader { lock: 1, ..old(self)@.header },
                ..old(self)@
            }),
            old(self)@.header.lock != 0 ==> r == Err::<MailboxLock, MailboxError>(
                MailboxError::LockTimeout,
            ) && final(self)@ == old(self)@,
    {
        match self.store.lock_step(0) {
            LockStep::Acquired => Ok(MailboxLock { held: true }),
            _ => Err(MailboxError::LockTimeout),
        }
    }

    /// Gives the lock back.
    pub fn unlock(&mut self, lock: MailboxLock)
        requires
            old(self).wf(),
        ensures
            final(self).wf(),
            final(self)@ == (MailboxView {
                header: MailboxHeader { lock: 0, ..old(self)@.header },
                ..old(self)@
            }),
    {
        self.store.unlock();
    }

    /// Claims the first empty box of kind `size`; it becomes `Writing`.
    pub fn get_empty_box(&mut self, size: BoxSize) -> (r: Result<u32, MailboxError>)
        requires
            old(self).wf(),
        ensures
            final(self).wf(),
            match old(self)@.empty_box_for(size) {
                Ok(i) => r == Ok::<u32, MailboxError>(old(self)@.boxes[i].id) && final(self)@
                    == old(self)@.with_box_state(i, 1),
                Err(e) => r == Err::<u32, MailboxError>(e) && final(self)@ == old(self)@,
            },
    {
        self.store.get_empty_box(size)
    }

    /// The metadata of the box with id `box_id`.
    pub fn find_box_by_id(&self, box_id: u32) -> (r: Result<&BoxMetadata, MailboxError>)
        ensures
            match self@.position(box_id) {
                Some(i) => r matches Ok(m) && *m == self@.boxes[i],
                None => r == Err::<&BoxMetadata, MailboxError>(MailboxError::BoxNotFound(box_id)),
            },
    {
        self.store.find_box_by_id(box_id)
    }

    /// Puts `data` into a `Writing` box that is large enough; the box becomes `Full`.
    pub fn write_data(&mut self, box_id: u32, data: &[u8]) -> (r: Result<(), MailboxError>)
        requires
            old(self).wf(),
        ensures
            final(self).wf(),
            r == old(self)@.write_result(box_id, data@),
            r is Ok ==> final(self)@ == old(self)@.after_write(
                old(self)@.position(box_id).unwrap(),
                data@,
            ),
            r is Err ==> final(self)@ == old(self)@,
    {
        self.store.write_data(box_id, data)
    }

    /// The data of a `Reading` box.
    pub fn read_data(&self, box_id: u32) -> (r: Result<Vec<u8>, MailboxError>)
        requires
            self.wf(),
        ensures
            match self@.step_result(box_id, BoxState::Reading) {
                Ok(i) => r matches Ok(d) && d@ == self@.contents[i],
                Err(e) => r == Err::<Vec<u8>, MailboxError>(e),
            },
    {
        self.store.read_data(box_id)
    }

    /// Turns a `Full` box into a `Reading` one.
    pub fn start_reading(&mut self, box_id: u32) -> (r: Result<(), MailboxError>)
        requires
            old(self).wf(),
        ensures
            final(self).wf(),
            match old(self)@.step_result(box_id, BoxState::Full) {
                Ok(i) => r is Ok && final(self)@ == old(self)@.with_box_state(i, 3),
                Err(e) => r == Err::<(), MailboxError>(e) && final(self)@ == old(self)@,
            },
    {
        self.store.start_reading(box_id)
    }

    /// Ends the read of a `Reading` box: it holds no data and is `Empty` again.
    pub fn finish_reading(&mut self, box_id: u32) -> (r: Result<(), MailboxError>)
        requires
            old(self).wf(),
        ensures
            final(self).wf(),
            match old(self)@.step_result(box_id, BoxState::Reading) {
                Ok(i) => r is Ok && final(self)@ == old(self)@.after_finish(i),
                Err(e) => r == Err::<(), MailboxError>(e) && final(self)@ == old(self)@,
            },
    {
        self.store.finish_reading(box_id)
    }

    /// Counts the boxes: in all, by state, and by kind.
    pub fn get_stats(&self) -> (st: MailboxStats)
        requires
            self.wf(),
        ensures
            st.total_count == self@.boxes.len(),
            st.empty_count == count_boxes(self@.boxes, BoxState::Empty),
            st.writing_count == count_boxes(self@.boxes, BoxState::Writing),
            st.full_count == count_boxes(self@.boxes, BoxState::Full),
            st.reading_count == count_boxes(self@.boxes, BoxState::Reading),
            st.size_counts@ == size_tally(self@.boxes),
    {
        self.store.stats_by_box()
    }
}

/// A mailbox in memory that processes share.
pub struct SharedMemoryMailbox {
    memory_size: usize,
    store: BoxStore,
}

impl View for SharedMemoryMailbox {
    type V = MailboxView;

    closed spec fn view(&self) -> MailboxView {
        self.store@
    }
}

impl SharedMemoryMailbox {
    /// Well-formedness: the index lists every box once.
    pub open spec fn wf(&self) -> bool {
        self@.wf() && index_total(self@.index) == self@.boxes.len()
    }

    /// The memory the mailbox takes.
    pub closed spec fn memory_size(&self) -> nat {
        self.memory_size as nat
    }

    /// The memory a shared mailbox of a configuration takes: header, metadata and data
    /// areas, not rounded.
    pub fn calculate_memory_size(config: &BoxConfig) -> (n: usize)
        requires
            config.wf(),
            config_fits(config@),
        ensures
            n == raw_memory_size(config@),
    {
        raw_size(config)
    }

    /// A fresh shared mailbox with the boxes of a configuration, all empty.
    pub fn create(config: &BoxConfig) -> (m: SharedMemoryMailbox)
        requires
            config.wf(),
            config_fits(config@),
        ensures
            m.wf(),
            m.memory_size() == raw_memory_size(config@),
            m@.header == MailboxHeader::new_spec(counts_total(config@) as u32),
            m@.boxes == box_layout(
                config@,
                (HEADER_SIZE + counts_total(config@) * METADATA_SIZE) as nat,
            ),
            m@.contents == Seq::new(counts_total(config@), |i: int| Seq::<u8>::empty()),
            m@.index == index_layout(config@),
    {
        let size = raw_size(config);
        let store = BoxStore::initialize(config);
        proof {
            lemma_layout_total(config@);
            lemma_layout_len(config@, (HEADER_SIZE + counts_total(config@) * METADATA_SIZE) as nat);
        }
        SharedMemoryMailbox { memory_size: size, store }
    }

    /// A shared mailbox of memory that already holds one: the header, the metadata of
    /// its boxes and their data, with the index rebuilt from the boxes.
    pub fn attach(
        memory_size: usize,
        header: MailboxHeader,
        boxes: Vec<BoxMetadata>,
        contents: Vec<Vec<u8>>,
    ) -> (m: SharedMemoryMailbox)
        requires
            boxes@.len() == contents@.len(),
            forall|i: int|
                0 <= i < boxes@.len() ==> (#[trigger] contents@[i])@.len() == boxes@[i].data_length,
        ensures
            m.wf(),
            m.memory_size() == memory_size,
            m@.header == header,
            m@.boxes == boxes@,
            m@.contents == contents@.map_values(|c: Vec<u8>| c@),
            m@.index == rebuilt_index(boxes@),
    {
        let store = BoxStore::attach(header, boxes, contents);
        proof {
            lemma_rebuilt_total(store@.boxes);
        }
        SharedMemoryMailbox { memory_size, store }
    }

    /// The header, the metadata of the boxes and their data, to write back to memory.
    pub fn into_parts(self) -> (r: (MailboxHeader, Vec<BoxMetadata>, Vec<Vec<u8>>))
        ensures
            r.0 == self@.header,
            r.1@ == self@.boxes,
            r.2@.map_values(|c: Vec<u8>| c@) == self@.contents,
    {
        (self.store.header, self.store.boxes, self.store.contents)
    }

    /// One attempt to take the lock after `attempts` failed ones.
    pub fn lock_step(&mut self, attempts: u32) -> (r: LockStep)
        requires
            old(self).wf(),
        ensures
            final(self).wf(),
            old(self)@.header.lock == 0 ==> r == LockStep::Acquired && final(self)@ == (
            MailboxView { header: MailboxHeader { lock: 1, ..old(self)@.header }, ..old(self)@ }),
            old(self)@.header.lock != 0 ==> r == lock_backoff(attempts) && final(self)@ == old(
                self,
            )@,
    {
        self.store.lock_step(attempts)
    }

    /// Takes the lock when it is free: the token of the lock.
    pub fn lock(&mut self) -> (r: Result<MailboxLock, MailboxError>)
        requires
            old(self).wf(),
        ensures
            final(self).wf(),
            old(self)@.header.lock == 0 ==> r is Ok && final(self)@ == (MailboxView {
                header: MailboxHeader { lock: 1, ..old(self)@.header },
                ..old(self)@
            }),
            old(self)@.header.lock != 0 ==> r == Err::<MailboxLock, MailboxError>(
                MailboxError::LockTimeout,
            ) && final(self)@ == old(self)@,
    {
        match self.store.lock_step(0) {
            LockStep::Acquired => Ok(MailboxLock { held: true }),
            _ => Err(MailboxError::LockTimeout),
        }
    }

    /// Gives the lock back.
    pub fn unlock(&mut self, lock: MailboxLock)
        requires
            old(self).wf(),
        ensures
            final(self).wf(),
            final(self)@ == (MailboxView {
                header: MailboxHeader { lock: 0, ..old(self)@.header },
                ..old(self)@
            }),
    {
        self.store.unlock();
    }

    /// Claims the first empty box of kind `size`; it becomes `Writing`.
    pub fn get_empty_box(&mut self, size: BoxSize) -> (r: Result<u32, MailboxError>)
        requires
            old(self).wf(),
        ensures
            final(self).wf(),
            match old(self)@.empty_box_for(size) {
                Ok(i) => r == Ok::<u32, MailboxError>(old(self)@.boxes[i].id) && final(self)@
                    == old(self)@.with_box_state(i, 1),
                Err(e) => r == Err::<u32, MailboxError>(e) && final(self)@ == old(self)@,
            },
    {
        self.store.get_empty_box(size)
    }

    /// The metadata of the box with id `box_id`.
    pub fn find_box_by_id(&self, box_id: u32) -> (r: Result<&BoxMetadata, MailboxError>)
        ensures
            match self@.position(box_id) {
                Some(i) => r matches Ok(m) && *m == self@.boxes[i],
                None => r == Err::<&BoxMetadata, MailboxError>(MailboxError::BoxNotFound(box_id)),
            },
    {
        self.store.find_box_by_id(box_id)
    }

    /// Puts `data` into a `Writing` box that is large enough; the box becomes `Full`.
    pub fn write_data(&mut self, box_id: u32, data: &[u8]) -> (r: Result<(), MailboxError>)
        requires
            old(self).wf(),
        ensures
            final(self).wf(),
            r == old(self)@.write_result(box_id, data@),
            r is Ok ==> final(self)@ == old(self)@.after_write(
                old(self)@.position(box_id).unwrap(),
                data@,
            ),
            r is Err ==> final(self)@ == old(self)@,
    {
        let r = self.store.write_data(box_id, data);
        proof {
            lemma_find_box_from(old(self)@.boxes, box_id, 0);
        }
        assert(self@.index == old(self)@.index);
        assert(self@.boxes.len() == old(self)@.boxes.len());
        r
    }

    /// Turns a `Full` box into a `Reading` one.
    pub fn start_reading(&mut self, box_id: u32) -> (r: Result<(), MailboxError>)
        requires
            old(self).wf(),
        ensures
            final(self).wf(),
            match old(self)@.step_result(box_id, BoxState::Full) {
                Ok(i) => r is Ok && final(self)@ == old(self)@.with_box_state(i, 3),
                Err(e) => r == Err::<(), MailboxError>(e) && final(self)@ == old(self)@,
            },
    {
        self.store.start_reading(box_id)
    }

    /// The data of a `Reading` box.
    pub fn read_data(&self, box_id: u32) -> (r: Result<Vec<u8>, MailboxError>)
        requires
            self.wf(),
        ensures
            match self@.step_result(box_id, BoxState::Reading) {
                Ok(i) => r matches Ok(d) && d@ == self@.contents[i],
                Err(e) => r == Err::<Vec<u8>, MailboxError>(e),
            },
    {
        self.store.read_data(box_id)
    }

    /// Ends the read of a `Reading` box: it holds no data and is `Empty` again.
    pub fn finish_reading(&mut self, box_id: u32) -> (r: Result<(), MailboxError>)
        requires
            old(self).wf(),
        ensures
            final(self).wf(),
            match old(self)@.step_result(box_id, BoxState::Reading) {
                Ok(i) => r is Ok && final(self)@ == old(self)@.after_finish(i),
                Err(e) => r == Err::<(), MailboxError>(e) && final(self)@ == old(self)@,
            },
    {
        let r = self.store.finish_reading(box_id);
        proof {
            lemma_find_box_from(old(self)@.boxes, box_id, 0);
        }
        assert(self@.index == old(self)@.index);
        assert(self@.boxes.len() == old(self)@.boxes.len());
        r
    }

    /// Counts the boxes the index lists: in all, by state, and by kind.
    pub fn get_stats(&self) -> (st: MailboxStats)
        requires
            self.wf(),
        ensures
            st.total_count == self@.boxes.len(),
            st.empty_count == count_boxes(listed_boxes(self@.boxes, self@.index), BoxState::Empty),
            st.writing_count == count_boxes(
                listed_boxes(self@.boxes, self@.index),
                BoxState::Writing,
            ),
            st.full_count == count_boxes(listed_boxes(self@.boxes, self@.index), BoxState::Full),
            st.reading_count == count_boxes(
                listed_boxes(self@.boxes, self@.index),
                BoxState::Reading,
            ),
            st.size_counts@ == index_sizes(self@.index),
    {
        proof {
            lemma_listed_len(self@.boxes, self@.index);
        }
        let n = self.store.boxes.len();
        self.store.stats_by_index()
    }
}


/// Lemma: boxes whose ids are unchanged are found at the same positions.
proof fn lemma_find_same_ids(a: Seq<BoxMetadata>, b: Seq<BoxMetadata>, id: u32, k: int)
    requires
        a.len() == b.len(),
        forall|j: int| 0 <= j < a.len() ==> #[trigger] a[j].id == b[j].id,
    ensures
        find_box_from(a, id, k) == find_box_from(b, id, k),
    decreases a.len() - k,
{
    if 0 <= k < a.len() && a[k].id != id {
        lemma_find_same_ids(a, b, id, k + 1);
    }
}

/// Law: what a read gives back of a write. Data put into a `Writing` box that it fits
/// is, once the box is `Full` and then `Reading`, the data read back; ending the read
/// leaves the box empty and without data.
pub proof fn lemma_box_round_trip(m: MailboxView, id: u32, data: Seq<u8>)
    requires
        m.wf(),
        m.position(id) is Some,
        box_state_of(m.boxes[m.position(id).unwrap()].state) == BoxState::Writing,
        data.len() <= size_bytes(size_of_mb(m.boxes[m.position(id).unwrap()].size)),
        data.len() <= u32::MAX,
    ensures
        ({
            let i = m.position(id).unwrap();
            let w = m.after_write(i, data);
            let r = w.with_box_state(i, 3);
            let f = r.after_finish(i);
            &&& m.write_result(id, data) == Ok::<(), MailboxError>(())
            &&& w.wf()
            &&& w.step_result(id, BoxState::Full) == Ok::<int, MailboxError>(i)
            &&& r.step_result(id, BoxState::Reading) == Ok::<int, MailboxError>(i)
            &&& r.contents[i] == data
            &&& f.wf()
            &&& box_state_of(f.boxes[i].state) == BoxState::Empty
            &&& f.contents[i].len() == 0
        }),
{
    lemma_find_box_from(m.boxes, id, 0);
    let i = m.position(id).unwrap();
    let w = m.after_write(i, data);
    let r = w.with_box_state(i, 3);
    let f = r.after_finish(i);
    lemma_find_same_ids(m.boxes, w.boxes, id, 0);
    lemma_find_same_ids(m.boxes, r.boxes, id, 0);
    assert forall|j: int| 0 <= j < w.boxes.len() implies (#[trigger] w.contents[j]).len()
        == w.boxes[j].data_length by {
        if j != i {
            assert(w.contents[j] == m.contents[j]);
        }
    }
    assert forall|e: int, k: int|
        0 <= e < w.index.len() && 0 <= k < w.index[e].1.len() implies size_of_mb(
        w.boxes[#[trigger] w.index[e].1[k] as int].size,
    ) == w.index[e].0 by {
        assert(m.index[e].1[k] < m.boxes.len());
    }
    assert forall|j: int| 0 <= j < f.boxes.len() implies (#[trigger] f.contents[j]).len()
        == f.boxes[j].data_length by {
        if j != i {
            assert(f.contents[j] == m.contents[j]);
        }
    }
    assert forall|e: int, k: int|
        0 <= e < f.index.len() && 0 <= k < f.index[e].1.len() implies size_of_mb(
        f.boxes[#[trigger] f.index[e].1[k] as int].size,
    ) == f.index[e].0 by {
        assert(m.index[e].1[k] < m.boxes.len());
    }
}

/// Law: a box that is claimed for writing is of the kind asked for, and was empty; it
/// is the only box whose state changes.
pub proof fn lemma_claimed_box(m: MailboxView, s: BoxSize)
    requires
        m.wf(),
        m.empty_box_for(s) is Ok,
    ensures
        ({
            let i = m.empty_box_for(s).unwrap();
            &&& 0 <= i < m.boxes.len()
            &&& box_state_of(m.boxes[i].state) == BoxState::Empty
            &&& size_of_mb(m.boxes[i].size) == s
            &&& box_state_of(m.with_box_state(i, 1).boxes[i].state) == BoxState::Writing
            &&& forall|j: int|
                0 <= j < m.boxes.len() && j != i ==> #[trigger] m.with_box_state(i, 1).boxes[j]
                    == m.boxes[j]
        }),
{
    lemma_index_for_from(m.index, s, 0);
    let e = index_for_from(m.index, s, 0).unwrap();
    lemma_first_empty_from(m.boxes, m.index[e].1, 0);
    let i = m.empty_box_for(s).unwrap();
    let q = choose|q: int| 0 <= q < m.index[e].1.len() && m.index[e].1[q] == i;
    assert(size_of_mb(m.boxes[m.index[e].1[q] as int].size) == m.index[e].0);
}

/// Lemma: the boxes of a configuration are laid out empty, without data, with ids
/// counting up from 1.
pub proof fn lemma_layout_fresh(entries: Seq<(BoxSize, usize)>, data_start: nat)
    requires
        counts_total(entries) < u32::MAX,
    ensures
        forall|j: int|
            0 <= j < box_layout(entries, data_start).len() ==> {
                let b = #[trigger] box_layout(entries, data_start)[j];
                &&& b.state == 0
                &&& b.data_length == 0
                &&& b.id == j + 1
            },
    decreases entries.len(),
{
    lemma_layout_len(entries, data_start);
    if entries.len() > 0 {
        let d = entries.drop_last();
        lemma_counts_prefix(entries, entries.len() - 1);
        assert(entries.subrange(0, entries.len() - 1) =~= d);
        lemma_layout_fresh(d, data_start);
        lemma_layout_len(d, data_start);
        let bl = box_layout(entries, data_start);
        let db = box_layout(d, data_start);
        assert forall|j: int| 0 <= j < bl.len() implies {
            let b = #[trigger] bl[j];
            &&& b.state == 0
            &&& b.data_length == 0
            &&& b.id == j + 1
        } by {
            if j < db.len() {
                assert(bl[j] == db[j]);
            }
        }
    }
}

/// Law: in a freshly laid-out mailbox, the box with id `id` (from 1 to the number of
/// boxes) is found at position `id - 1`, and it is empty.
pub proof fn lemma_fresh_ids(boxes: Seq<BoxMetadata>, id: u32)
    requires
        forall|j: int| 0 <= j < boxes.len() ==> (#[trigger] boxes[j]).id == j + 1 && boxes[j].state
            == 0,
        1 <= id <= boxes.len(),
    ensures
        find_box_from(boxes, id, 0) == Some(id - 1),
        box_state_of(boxes[id - 1].state) == BoxState::Empty,
{
    lemma_find_box_from(boxes, id, 0);
    assert(boxes[id - 1].id == id);
    if find_box_from(boxes, id, 0) is None {
        assert(boxes[id - 1].id != id);
    }
}

} // verus!

verus! {

/// The bytes of a mailbox header in shared memory: magic word, version, number of
/// boxes, lock word and next box id, four bytes each, least significant first.
pub open spec fn mailbox_header_bytes(h: MailboxHeader) -> Seq<u8> {
    u32_le(h.magic) + u32_le(h.version) + u32_le(h.total_boxes) + u32_le(h.lock) + u32_le(
        h.next_box_id,
    )
}

/// The bytes of a box's metadata in shared memory: id, state byte and three bytes of
/// padding, size in MiB, data length and data offset.
pub open spec fn metadata_bytes(m: BoxMetadata) -> Seq<u8> {
    u32_le(m.id) + seq![m.state, 0u8, 0u8, 0u8] + u32_le(m.size) + u32_le(m.data_length) + u32_le(
        m.data_ptr,
    )
}

impl MailboxHeader {
    /// The bytes of the header.
    pub fn to_bytes(&self) -> (r: Vec<u8>)
        ensures
            r@ == mailbox_header_bytes(*self),
    {
        let mut r: Vec<u8> = Vec::new();
        push_u32(&mut r, self.magic);
        push_u32(&mut r, self.version);
        push_u32(&mut r, self.total_boxes);
        push_u32(&mut r, self.lock);
        push_u32(&mut r, self.next_box_id);
        r
    }

    /// The header the first bytes of `b` hold.
    pub fn from_bytes(b: &[u8]) -> (h: MailboxHeader)
        requires
            b@.len() >= HEADER_SIZE,
        ensures
            h.magic == u32_at(b@, 0),
            h.version == u32_at(b@, 4),
            h.total_boxes == u32_at(b@, 8),
            h.lock == u32_at(b@, 12),
            h.next_box_id == u32_at(b@, 16),
    {
        MailboxHeader {
            magic: read_u32(b, 0),
            version: read_u32(b, 4),
            total_boxes: read_u32(b, 8),
            lock: read_u32(b, 12),
            next_box_id: read_u32(b, 16),
        }
    }
}

impl BoxMetadata {
    /// The bytes of the metadata.
    pub fn to_bytes(&self) -> (r: Vec<u8>)
        ensures
            r@ == metadata_bytes(*self),
    {
        let mut r: Vec<u8> = Vec::new();
        push_u32(&mut r, self.id);
        r.push(self.state);
        r.push(0);
        r.push(0);
        r.push(0);
        push_u32(&mut r, self.size);
        push_u32(&mut r, self.data_length);
        push_u32(&mut r, self.data_ptr);
        proof {
            lemma_u32_len(self.id);
        }
        assert(r@ =~= metadata_bytes(*self));
        r
    }

    /// The metadata the first bytes of `b` hold.
    pub fn from_bytes(b: &[u8]) -> (m: BoxMetadata)
        requires
            b@.len() >= METADATA_SIZE,
        ensures
            m.id == u32_at(b@, 0),
            m.state == b@[4],
            m.size == u32_at(b@, 8),
            m.data_length == u32_at(b@, 12),
            m.data_ptr == u32_at(b@, 16),
    {
        BoxMetadata {
            id: read_u32(b, 0),
            state: b[4],
            size: read_u32(b, 8),
            data_length: read_u32(b, 12),
            data_ptr: read_u32(b, 16),
        }
    }
}

/// Law: a header and a box's metadata read back from their bytes are the ones written.
pub proof fn lemma_mailbox_bytes_round_trip(h: MailboxHeader, m: BoxMetadata)
    ensures
        mailbox_header_bytes(h).len() == HEADER_SIZE,
        u32_at(mailbox_header_bytes(h), 0) == h.magic,
        u32_at(mailbox_header_bytes(h), 4) == h.version,
        u32_at(mailbox_header_bytes(h), 8) == h.total_boxes,
        u32_at(mailbox_header_bytes(h), 12) == h.lock,
        u32_at(mailbox_header_bytes(h), 16) == h.next_box_id,
        metadata_bytes(m).len() == METADATA_SIZE,
        u32_at(metadata_bytes(m), 0) == m.id,
        metadata_bytes(m)[4] == m.state,
        u32_at(metadata_bytes(m), 8) == m.size,
        u32_at(metadata_bytes(m), 12) == m.data_length,
        u32_at(metadata_bytes(m), 16) == m.data_ptr,
{
    let b = mailbox_header_bytes(h);
    lemma_u32_len(h.magic);
    lemma_u32_len(h.version);
    lemma_u32_len(h.total_boxes);
    lemma_u32_len(h.lock);
    lemma_u32_len(h.next_box_id);
    assert(b.subrange(0, 4) =~= u32_le(h.magic));
    assert(b.subrange(4, 8) =~= u32_le(h.version));
    assert(b.subrange(8, 12) =~= u32_le(h.total_boxes));
    assert(b.subrange(12, 16) =~= u32_le(h.lock));
    assert(b.subrange(16, 20) =~= u32_le(h.next_box_id));
    lemma_u32_in(b, 0, h.magic);
    lemma_u32_in(b, 4, h.version);
    lemma_u32_in(b, 8, h.total_boxes);
    lemma_u32_in(b, 12, h.lock);
    lemma_u32_in(b, 16, h.next_box_id);
    let c = metadata_bytes(m);
    lemma_u32_len(m.id);
    lemma_u32_len(m.size);
    lemma_u32_len(m.data_length);
    lemma_u32_len(m.data_ptr);
    assert(c.subrange(0, 4) =~= u32_le(m.id));
    assert(c.subrange(8, 12) =~= u32_le(m.size));
    assert(c.subrange(12, 16) =~= u32_le(m.data_length));
    assert(c.subrange(16, 20) =~= u32_le(m.data_ptr));
    lemma_u32_in(c, 0, m.id);
    lemma_u32_in(c, 8, m.size);
    lemma_u32_in(c, 12, m.data_length);
    lemma_u32_in(c, 16, m.data_ptr);
}

} // verus!

verus! {

impl BoxConfig {
    /// Whether the sizes of the configuration can be computed and laid out (see
    /// `config_fits`).
    pub fn fits(&self) -> (b: bool)
        ensures
            b == config_fits(self@),
    {
        let ghost es = self@;
        let n = self.entries.len();
        let mut total: u128 = 0;
        let mut data: u128 = 0;
        let mut i: usize = 0;
        while i < n
            invariant
                i <= n,
                n == es.len(),
                es == self@,
                total == counts_total(es.subrange(0, i as int)),
                data == data_total(es.subrange(0, i as int)),
                total < u32::MAX,
                data <= usize::MAX,
            decreases n - i,
        {
            proof {
                assert(es.subrange(0, i + 1).drop_last() =~= es.subrange(0, i as int));
                assert(es.subrange(0, i + 1).last() == es[i as int]);
                lemma_totals_prefix(es, i + 1);
            }
            let (size, count) = self.entries[i];
            let bytes = size.bytes();
            assert(bytes <= 104857600);
            assert(count as u128 * bytes as u128 <= 0xffff_ffff_ffff_ffff * 104857600) by (nonlinear_arith)
                requires
                    count <= 0xffff_ffff_ffff_ffff,
                    bytes <= 104857600,
            ;
            total = total + count as u128;
            data = data + count as u128 * bytes as u128;
            i = i + 1;
            if total >= u32::MAX as u128 || data > usize::MAX as u128 {
                proof {
                    lemma_totals_prefix(es, i as int);
                }
                return false;
            }
        }
        assert(es.subrange(0, n as int) =~= es);
        20 + total * 20 + data + 4095 <= usize::MAX as u128
    }
}

} // verus!
