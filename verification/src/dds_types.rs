//! The records exchanged between processes: a captured raw line with its
//! origin.

use vstd::prelude::*;
use crate::sentence::{is_tagged, split_talker_sentence};

verus! {

/// Where a captured packet came from: host, port and a name for the link.
#[derive(Debug, Clone)]
pub struct Source {
    pub host: String,
    pub port: u16,
    pub name: String,
}

/// One raw NMEA line (without its terminator) with metadata.
#[derive(Debug, Clone)]
pub struct RawSentence {
    /// Local sequence number, the instance key.
    pub id: u64,
    /// Two-letter talker, such as `GP`.
    pub talker: String,
    /// Three-letter mnemonic, such as `RMC`.
    pub sentence: String,
    /// Reserved for checksum validation; always false so far.
    pub checksum_ok: bool,
    /// Reception time in milliseconds since the Unix epoch.
    pub ts_unix_ms: i64,
    /// Origin of the line.
    pub src: Source,
    /// The whole line.
    pub raw: String,
}

impl Source {
    /// The origin of a line received over UDP from `host:port`.
    pub fn udp(host: String, port: u16) -> (src: Source)
        ensures
            src.host == host,
            src.port == port,
            src.name@ == "UDP"@,
    {
        Source { host, port, name: "UDP".to_owned() }
    }
}

impl RawSentence {
    /// The record published for a captured line: it takes the next
    /// sequence number (`seq` is advanced by one and the record carries the
    /// new value), the talker and mnemonic of the line, and the line itself.
    pub fn from_line(seq: &mut u64, line: &str, ts_unix_ms: i64, src: Source) -> (r: RawSentence)
        requires
            *old(seq) < u64::MAX,
        ensures
            *final(seq) == *old(seq) + 1,
            r.id == *final(seq),
            is_tagged(line@) ==> r.talker@ == line@.subrange(1, 3) && r.sentence@ == line@.subrange(3, 6),
            !is_tagged(line@) ==> r.talker@ == "??"@ && r.sentence@ == "UNK"@,
            !r.checksum_ok,
            r.ts_unix_ms == ts_unix_ms,
            r.src == src,
            r.raw@ == line@,
    {
        let (talker, sentence) = split_talker_sentence(line);
        *seq = *seq + 1;
        RawSentence {
            id: *seq,
            talker,
            sentence,
            checksum_ok: false,
            ts_unix_ms,
            src,
            raw: line.to_owned(),
        }
    }
}

} // verus!
