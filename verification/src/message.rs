//! The message that travels through the pipes, and the status of a queue.
use vstd::prelude::*;
use vstd::utf8::encode_utf8;

verus! {

/// A message: a flag, the payload bytes and the time it was made (seconds since the
/// Unix epoch).
#[derive(Debug)]
pub struct Message {
    pub flag: u8,
    pub data: Vec<u8>,
    pub timestamp: u64,
}

/// The time of the system clock, as std gives it.
#[verifier::external_type_specification]
#[verifier::external_body]
pub struct ExSystemTime(std::time::SystemTime);

/// `SystemTime::now`: the time the clock reads; nothing is promised of it.
#[verifier::external_body]
fn system_now() -> (t: std::time::SystemTime) {
    std::time::SystemTime::now()
}

/// `SystemTime::duration_since` the Unix epoch: `None` where the time is earlier than
/// the epoch; nothing more is promised of it.
#[verifier::external_body]
fn since_epoch(t: &std::time::SystemTime) -> (d: Option<core::time::Duration>) {
    t.duration_since(std::time::UNIX_EPOCH).ok()
}

/// `Duration::as_secs`: the whole seconds of a duration; nothing is promised of it.
#[verifier::external_body]
fn whole_secs(d: &core::time::Duration) -> (s: u64) {
    d.as_secs()
}

/// The seconds since the Unix epoch, or `None` when the clock reads earlier than it.
pub(crate) fn unix_time_secs() -> (r: Option<u64>) {
    let now = system_now();
    match since_epoch(&now) {
        Some(d) => Some(whole_secs(&d)),
        None => None,
    }
}

impl Message {
    /// A message made at `timestamp`, with the UTF-8 bytes of `data`.
    pub fn with_timestamp(flag: u8, data: String, timestamp: u64) -> (m: Message)
        ensures
            m.flag == flag,
            m.data@ == encode_utf8(data@),
            m.timestamp == timestamp,
    {
        let bytes = data.as_str().as_bytes();
        let mut v: Vec<u8> = Vec::new();
        let mut i: usize = 0;
        while i < bytes.len()
            invariant
                i <= bytes@.len(),
                v@ == bytes@.subrange(0, i as int),
            decreases bytes@.len() - i,
        {
            v.push(bytes[i]);
            i = i + 1;
            assert(v@ =~= bytes@.subrange(0, i as int));
        }
        assert(v@ =~= bytes@);
        Message { flag, data: v, timestamp }
    }

    /// A message made now, with the UTF-8 bytes of `data`; the time is 0 where the
    /// clock reads earlier than the Unix epoch.
    pub fn new(flag: u8, data: String) -> (m: Message)
        ensures
            m.flag == flag,
            m.data@ == encode_utf8(data@),
    {
        let timestamp = match unix_time_secs() {
            Some(t) => t,
            None => 0,
        };
        Message::with_timestamp(flag, data, timestamp)
    }

    /// A message with the default flag, 0.
    pub fn init(data: String) -> (m: Message)
        ensures
            m.flag == 0,
            m.data@ == encode_utf8(data@),
    {
        Message::new(0, data)
    }
}

/// How many messages a queue holds, of how many it can.
#[derive(Debug)]
pub struct QueueStatus {
    pub capacity: usize,
    pub message_count: usize,
}

/// A service that answers a message with a message, or fails with a reason.
pub trait InterfaceApi {
    /// Handles one message.
    fn handle(&self, message: Message) -> Result<Message, String>;
}

} // verus!
