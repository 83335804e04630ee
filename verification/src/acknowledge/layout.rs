//! The byte layout of an acknowledgement packet.
//!
//! Each `parse_*` function says what a reader that stands at the start of some
//! bytes makes of them, and where it stands afterwards.

use super::{AckError, MAX_ACK_RECORDS, MAX_ACK_SEQUENCES};
use vstd::prelude::*;

verus! {

/// What was read, or why nothing was, and the bytes that were not read.
pub type Taken<T> = (Result<T, AckError>, Seq<u8>);

pub open spec fn parse_u8(s: Seq<u8>) -> Taken<u8> {
    if s.len() < 1 {
        (Err(AckError::UnexpectedEnd), s)
    } else {
        (Ok(s[0]), s.skip(1))
    }
}

/// Two bytes, most significant first.
pub open spec fn parse_u16_be(s: Seq<u8>) -> Taken<u16> {
    if s.len() < 2 {
        (Err(AckError::UnexpectedEnd), s)
    } else {
        (Ok((s[0] * 256 + s[1]) as u16), s.skip(2))
    }
}

/// Three bytes, least significant first.
pub open spec fn parse_u24(s: Seq<u8>) -> Taken<u32> {
    if s.len() < 3 {
        (Err(AckError::UnexpectedEnd), s)
    } else {
        (Ok((s[0] + s[1] * 256 + s[2] * 65536) as u32), s.skip(3))
    }
}

/// A record: the first and the last sequence number it covers. The marker byte
/// is zero for a range and anything else for a single number.
pub open spec fn parse_record(s: Seq<u8>) -> Taken<(u32, u32)> {
    match parse_u8(s) {
        (Err(e), rest) => (Err(e), rest),
        (Ok(marker), rest) => match parse_u24(rest) {
            (Err(e), rest) => (Err(e), rest),
            (Ok(start), rest) => if marker != 0 {
                (Ok((start, start)), rest)
            } else {
                match parse_u24(rest) {
                    (Err(e), rest) => (Err(e), rest),
                    (Ok(end), rest) => (Ok((start, end)), rest),
                }
            },
        },
    }
}

/// The sequence numbers of a record; none where the last is before the first.
pub open spec fn expand(record: (u32, u32)) -> Seq<u32> {
    Seq::new(
        if record.0 <= record.1 {
            (record.1 - record.0 + 1) as nat
        } else {
            0
        },
        |i: int| (record.0 + i) as u32,
    )
}

/// How many sequence numbers a record counts for: those it covers, but at least
/// one.
pub open spec fn span(record: (u32, u32)) -> nat {
    if record.0 <= record.1 {
        (record.1 - record.0 + 1) as nat
    } else {
        1
    }
}

/// What a reader that already holds `head` and then reads `tail` has read.
pub open spec fn prepend(head: Seq<u32>, tail: Taken<Seq<u32>>) -> Taken<Seq<u32>> {
    match tail {
        (Err(e), rest) => (Err(e), rest),
        (Ok(items), rest) => (Ok(head + items), rest),
    }
}

/// `n` records, for a reader that already holds `have` sequence numbers.
pub open spec fn parse_records(s: Seq<u8>, n: nat, have: nat) -> Taken<Seq<u32>>
    decreases n,
{
    if n == 0 {
        (Ok(Seq::empty()), s)
    } else {
        match parse_record(s) {
            (Err(e), rest) => (Err(e), rest),
            (Ok(record), rest) => if have + span(record) > MAX_ACK_SEQUENCES {
                (Err(AckError::TooManySequences), rest)
            } else {
                prepend(
                    expand(record),
                    parse_records(rest, (n - 1) as nat, have + expand(record).len()),
                )
            },
        }
    }
}

/// A packet body: the record count and the records.
pub open spec fn parse_ack(s: Seq<u8>) -> Taken<Seq<u32>> {
    match parse_u16_be(s) {
        (Err(e), rest) => (Err(e), rest),
        (Ok(n), rest) => if n > MAX_ACK_RECORDS {
            (Err(AckError::TooManyRecords), rest)
        } else {
            parse_records(rest, n as nat, 0)
        },
    }
}

/// How long the record at the front of some bytes is; the least that it can be
/// where its marker is not there yet.
pub open spec fn record_len(s: Seq<u8>) -> nat {
    if s.len() > 0 && s[0] == 0 {
        7
    } else {
        4
    }
}

/// How many bytes are missing for the first of `n` records that is not whole, for
/// a reader that already holds `have` sequence numbers.
pub open spec fn missing_in_records(s: Seq<u8>, n: nat, have: nat) -> nat
    decreases n,
{
    if n == 0 {
        0
    } else {
        match parse_record(s) {
            (Err(_), _) => (record_len(s) - s.len()) as nat,
            (Ok(record), rest) => if have + span(record) > MAX_ACK_SEQUENCES {
                0
            } else {
                missing_in_records(rest, (n - 1) as nat, have + expand(record).len())
            },
        }
    }
}

/// How many bytes have to follow the start `s` of a packet body before more can be
/// said of it.
pub open spec fn missing(s: Seq<u8>) -> nat {
    match parse_u16_be(s) {
        (Err(_), _) => (2 - s.len()) as nat,
        (Ok(n), rest) => if n > MAX_ACK_RECORDS {
            0
        } else {
            missing_in_records(rest, n as nat, 0)
        },
    }
}

/// The low 24 bits of a number, least significant byte first.
pub open spec fn u24_bytes(v: u32) -> Seq<u8> {
    seq![(v % 256) as u8, (v / 256 % 256) as u8, (v / 65536 % 256) as u8]
}

/// A number, most significant byte first.
pub open spec fn u16_be_bytes(v: u16) -> Seq<u8> {
    seq![(v / 256) as u8, (v % 256) as u8]
}

/// A record: marker 1 and the number where it covers one, else marker 0, the
/// first number and the last.
pub open spec fn record_bytes(record: (u32, u32)) -> Seq<u8> {
    if record.0 == record.1 {
        seq![1u8] + u24_bytes(record.0)
    } else {
        seq![0u8] + u24_bytes(record.0) + u24_bytes(record.1)
    }
}

pub open spec fn records_bytes(records: Seq<(u32, u32)>) -> Seq<u8>
    decreases records.len(),
{
    if records.len() == 0 {
        Seq::empty()
    } else {
        records_bytes(records.drop_last()) + record_bytes(records.last())
    }
}

/// The same numbers in ascending order.
pub open spec fn ascending(s: Seq<u32>) -> Seq<u32> {
    s.sort_by(|a: u32, b: u32| a <= b)
}

/// The runs of consecutive numbers that make up `s`: the first and the last
/// number of each. A run goes on as long as each number is one more than the
/// one before it.
pub open spec fn runs(s: Seq<u32>) -> Seq<(u32, u32)>
    decreases s.len(),
{
    if s.len() == 0 {
        Seq::empty()
    } else {
        let before = runs(s.drop_last());
        if s.len() > 1 && s.last() == s[s.len() - 2] + 1 {
            before.drop_last().push((before.last().0, s.last()))
        } else {
            before.push((s.last(), s.last()))
        }
    }
}

/// All sequence numbers of some records, in order.
pub open spec fn covered(records: Seq<(u32, u32)>) -> Seq<u32>
    decreases records.len(),
{
    if records.len() == 0 {
        Seq::empty()
    } else {
        covered(records.drop_last()) + expand(records.last())
    }
}

/// Whether the packet can be put together: its record count fits in its field,
/// and the largest number there is does not occur twice.
pub open spec fn writable(sequences: Seq<u32>) -> bool {
    &&& runs(ascending(sequences)).len() <= u16::MAX
    &&& forall|i: int, j: int|
        0 <= i < j < sequences.len() && sequences[i] == u32::MAX ==> sequences[j] != u32::MAX
}

/// A packet body: the record count and one record for each run.
pub open spec fn ack_bytes(sequences: Seq<u32>) -> Seq<u8> {
    let records = runs(ascending(sequences));
    u16_be_bytes(records.len() as u16) + records_bytes(records)
}

} // verus!
