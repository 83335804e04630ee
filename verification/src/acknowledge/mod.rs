//! The RakNet acknowledgement packet (ACK and NACK): a list of datagram
//! sequence numbers, written as ranges.
//!
//! A packet body is a big-endian record count followed by the records. A record
//! is a marker byte and then one 24-bit little-endian number for a single
//! sequence, or two for a range with both ends included.

use crate::joining;
use vstd::prelude::*;

pub mod laws;
pub mod layout;

verus! {

/// Upper bound on the records of one packet.
pub const MAX_ACK_RECORDS: u16 = 4096;

/// Upper bound on the total number of sequence numbers a single packet may
/// expand to. Range records cover 24-bit values, so without this cap a handful
/// of records could expand to hundreds of millions of entries.
pub const MAX_ACK_SEQUENCES: usize = 4096;

/// Why a packet could not be read.
#[derive(Clone, Copy, Debug, PartialEq, Eq, Structural)]
pub enum AckError {
    /// The input ends inside the packet.
    UnexpectedEnd,
    /// The packet announces more than [`MAX_ACK_RECORDS`] records.
    TooManyRecords,
    /// The records cover more than [`MAX_ACK_SEQUENCES`] sequence numbers.
    TooManySequences,
}

impl AckError {
    /// The error as a text for a log.
    pub fn message(&self) -> (text: &'static str)
        ensures
            text@ == match *self {
                AckError::UnexpectedEnd => "failed to fill whole buffer"@,
                AckError::TooManyRecords => "Acknowledge packet range is too large."@,
                AckError::TooManySequences => "Acknowledge packet expands to too many sequences."@,
            },
    {
        match self {
            AckError::UnexpectedEnd => "failed to fill whole buffer",
            AckError::TooManyRecords => "Acknowledge packet range is too large.",
            AckError::TooManySequences => "Acknowledge packet expands to too many sequences.",
        }
    }
}

/// An acknowledgement: the sequence numbers of the datagrams it is about.
#[derive(Debug)]
pub struct Acknowledge {
    pub sequences: Vec<u32>,
}

/// What `r` says, with the sequence numbers as a sequence.
pub open spec fn outcome(r: Result<Acknowledge, AckError>) -> Result<Seq<u32>, AckError> {
    match r {
        Ok(ack) => Ok(ack.sequences@),
        Err(e) => Err(e),
    }
}

fn read_u8(reader: &mut &[u8]) -> (r: Result<u8, AckError>)
    ensures
        (r, final(reader)@) == layout::parse_u8(old(reader)@),
{
    let bytes: &[u8] = *reader;
    if bytes.len() < 1 {
        return Err(AckError::UnexpectedEnd);
    }
    *reader = vstd::slice::slice_subrange(bytes, 1, bytes.len());
    Ok(bytes[0])
}

fn read_u16_be(reader: &mut &[u8]) -> (r: Result<u16, AckError>)
    ensures
        (r, final(reader)@) == layout::parse_u16_be(old(reader)@),
{
    let bytes: &[u8] = *reader;
    if bytes.len() < 2 {
        return Err(AckError::UnexpectedEnd);
    }
    *reader = vstd::slice::slice_subrange(bytes, 2, bytes.len());
    Ok(bytes[0] as u16 * 256 + bytes[1] as u16)
}

fn read_u24(reader: &mut &[u8]) -> (r: Result<u32, AckError>)
    ensures
        (r, final(reader)@) == layout::parse_u24(old(reader)@),
{
    let bytes: &[u8] = *reader;
    if bytes.len() < 3 {
        return Err(AckError::UnexpectedEnd);
    }
    *reader = vstd::slice::slice_subrange(bytes, 3, bytes.len());
    Ok(bytes[0] as u32 + bytes[1] as u32 * 256 + bytes[2] as u32 * 65536)
}

/// Read one record: the first and the last sequence number it covers.
fn read_record(reader: &mut &[u8]) -> (r: Result<(u32, u32), AckError>)
    ensures
        (r, final(reader)@) == layout::parse_record(old(reader)@),
{
    let single = read_u8(reader)? != 0;
    let start: u32 = read_u24(reader)?;
    if single {
        return Ok((start, start));
    }
    let end: u32 = read_u24(reader)?;
    Ok((start, end))
}

/// Append every number from `start` to `end`, both included.
fn push_range(sequences: &mut Vec<u32>, start: u32, end: u32)
    requires
        end < u32::MAX,
    ensures
        final(sequences)@ == old(sequences)@ + layout::expand((start, end)),
{
    let ghost before = sequences@;
    let mut next: u32 = start;
    while next <= end
        invariant
            end < u32::MAX,
            start <= next,
            start <= end ==> next <= end + 1,
            start > end ==> next == start,
            sequences@ == before + layout::expand((start, end)).take(next - start),
        decreases end + 1 - next,
    {
        sequences.push(next);
        next = next + 1;
        assert(layout::expand((start, end)).take(next - start) =~= layout::expand(
            (start, end),
        ).take(next - 1 - start).push((next - 1) as u32));
    }
    assert(layout::expand((start, end)).take(next - start) =~= layout::expand((start, end)));
}

fn write_u24(value: u32, writer: &mut Vec<u8>)
    ensures
        final(writer)@ == old(writer)@ + layout::u24_bytes(value),
{
    writer.push((value % 256) as u8);
    writer.push((value / 256 % 256) as u8);
    writer.push((value / 65536 % 256) as u8);
    assert(writer@ =~= old(writer)@ + layout::u24_bytes(value));
}

fn write_u16_be(value: u16, writer: &mut Vec<u8>)
    ensures
        final(writer)@ == old(writer)@ + layout::u16_be_bytes(value),
{
    writer.push((value / 256) as u8);
    writer.push((value % 256) as u8);
    assert(writer@ =~= old(writer)@ + layout::u16_be_bytes(value));
}

/// `<[u32]>::sort_unstable`: the same numbers, in ascending order.
#[verifier::external_body]
fn sort_unstable(v: &mut Vec<u32>)
    ensures
        final(v)@.to_multiset() == old(v)@.to_multiset(),
        forall|i: int, j: int|
            0 <= i <= j < final(v)@.len() ==> (#[trigger] final(v)@[i]) <= (
            #[trigger] final(v)@[j]),
{
    v.sort_unstable()
}

impl Acknowledge {
    #[must_use]
    pub fn new(sequences: Vec<u32>) -> (ack: Self)
        ensures
            ack.sequences == sequences,
    {
        Self { sequences }
    }

    fn write_range(start: u32, end: u32, writer: &mut Vec<u8>)
        ensures
            final(writer)@ == old(writer)@ + layout::record_bytes((start, end)),
    {
        if start == end {
            writer.push(1);
            write_u24(start, writer);
        } else {
            writer.push(0);
            write_u24(start, writer);
            write_u24(end, writer);
        }
        assert(writer@ =~= old(writer)@ + layout::record_bytes((start, end)));
    }

    /// Read a packet body from the front of `reader` and move past it.
    ///
    /// # Errors
    ///
    /// Returns an [`AckError`] if the input ends inside the packet or if the
    /// packet is over one of the two limits; `reader` then stands where reading
    /// stopped.
    pub fn read(reader: &mut &[u8]) -> (r: Result<Self, AckError>)
        ensures
            (outcome(r), final(reader)@) == layout::parse_ack(old(reader)@),
            r matches Ok(ack) ==> ack.sequences@.len() <= MAX_ACK_SEQUENCES,
    {
        let size: u16 = read_u16_be(reader)?;

        if size > MAX_ACK_RECORDS {
            return Err(AckError::TooManyRecords);
        }
        let mut sequences: Vec<u32> = Vec::with_capacity(size as usize);
        let ghost body = reader@;
        let mut done: u16 = 0;
        assert(layout::prepend(sequences@, layout::parse_records(body, size as nat, 0))
            == layout::parse_records(body, size as nat, 0)) by {
            laws::lemma_prepend_nothing(layout::parse_records(body, size as nat, 0));
        }
        while done < size
            invariant
                done <= size,
                sequences@.len() <= MAX_ACK_SEQUENCES,
                size <= MAX_ACK_RECORDS,
                layout::parse_u16_be(old(reader)@) == (Ok::<u16, AckError>(size), body),
                layout::parse_records(body, size as nat, 0) == layout::prepend(
                    sequences@,
                    layout::parse_records(reader@, (size - done) as nat, sequences@.len()),
                ),
            decreases size - done,
        {
            let ghost have = sequences@;
            let (start, end) = read_record(reader)?;

            // Bound the total before growing the vector. `end < start` yields an
            // empty range below.
            let span: usize = if end > start {
                (end - start) as usize
            } else {
                0
            };
            if span >= MAX_ACK_SEQUENCES - sequences.len() {
                return Err(AckError::TooManySequences);
            }
            push_range(&mut sequences, start, end);
            done = done + 1;
            proof {
                laws::lemma_prepend_twice(
                    have,
                    layout::expand((start, end)),
                    layout::parse_records(reader@, (size - done) as nat, sequences@.len()),
                );
            }
        }
        proof {
            assert(sequences@ + Seq::<u32>::empty() =~= sequences@);
        }
        Ok(Self { sequences })
    }

    /// How many bytes have to follow `packet`, the start of a packet body, before
    /// [`Acknowledge::read`] can get further than it does with `packet`; zero
    /// where it needs no more.
    ///
    /// A caller that has the body piece by piece appends as many bytes until none
    /// is missing, and has then taken no byte that follows the body.
    pub fn missing(packet: &[u8]) -> (r: usize)
        ensures
            r == layout::missing(packet@),
    {
        let mut rest: &[u8] = packet;
        let size: u16 = match read_u16_be(&mut rest) {
            Ok(size) => size,
            Err(_) => return 2 - packet.len(),
        };
        if size > MAX_ACK_RECORDS {
            return 0;
        }
        let mut have: usize = 0;
        let mut done: u16 = 0;
        while done < size
            invariant
                done <= size,
                have <= MAX_ACK_SEQUENCES,
                layout::missing(packet@) == layout::missing_in_records(
                    rest@,
                    (size - done) as nat,
                    have as nat,
                ),
            decreases size - done,
        {
            let record: &[u8] = rest;
            let (start, end) = match read_record(&mut rest) {
                Ok(ends) => ends,
                Err(_) => {
                    let len: usize = if record.len() > 0 && record[0] == 0 {
                        7
                    } else {
                        4
                    };
                    return len - record.len();
                },
            };
            if start <= end {
                if (end - start) as usize >= MAX_ACK_SEQUENCES - have {
                    return 0;
                }
                have = have + (end - start) as usize + 1;
            } else if have >= MAX_ACK_SEQUENCES {
                return 0;
            }
            done = done + 1;
        }
        0
    }

    /// Whether [`Acknowledge::write`] can be called: whether the records fit in
    /// their count field and the largest number there is does not occur twice.
    pub fn is_writable(&self) -> (r: bool)
        ensures
            r == layout::writable(self.sequences@),
    {
        let mut sequences = self.sequences.clone();
        assert(sequences@ =~= self.sequences@);
        sort_unstable(&mut sequences);
        let ghost all = sequences@;
        proof {
            laws::law_ascending(self.sequences@, all);
            laws::lemma_same_length(self.sequences@, all);
        }
        if sequences.len() == 0 {
            return true;
        }
        let mut records: usize = 1;
        let mut next: usize = 1;
        proof {
            assert(all.take(1) =~= seq![all[0]]);
            laws::lemma_first_run(all[0]);
        }
        while next < sequences.len()
            invariant
                1 <= next <= sequences@.len(),
                all == sequences@,
                all == layout::ascending(self.sequences@),
                all.to_multiset() == self.sequences@.to_multiset(),
                forall|i: int, j: int|
                    0 <= i <= j < all.len() ==> (#[trigger] all[i]) <= (#[trigger] all[j]),
                forall|i: int| 0 <= i < next - 1 ==> (#[trigger] all[i]) != u32::MAX,
                records <= next,
                layout::runs(all.take(next as int)).len() == records,
            decreases sequences.len() - next,
        {
            if sequences[next - 1] == u32::MAX {
                proof {
                    assert(all[next as int - 1] <= all[next as int]);
                    if layout::writable(self.sequences@) {
                        laws::lemma_no_second_maximum(self.sequences@, all);
                    }
                }
                return false;
            }
            proof {
                assert(all.take(next + 1).drop_last() =~= all.take(next as int));
                laws::lemma_fewer_runs(all.take(next as int), 0);
            }
            if sequences[next] != sequences[next - 1] + 1 {
                records = records + 1;
            }
            next = next + 1;
        }
        proof {
            assert(all.take(next as int) =~= all);
            laws::lemma_no_second_maximum(all, self.sequences@);
        }
        records <= u16::MAX as usize
    }

    /// Append the packet with this acknowledgement to `writer`: its `id`, then
    /// its body.
    pub fn write(&self, writer: &mut Vec<u8>, id: u8)
        requires
            layout::writable(self.sequences@),
        ensures
            final(writer)@ == old(writer)@ + seq![id] + layout::ack_bytes(self.sequences@),
    {
        let ghost head = writer@ + seq![id];
        writer.push(id);
        if self.sequences.len() == 0 {
            write_u16_be(0, writer);
            proof {
                laws::law_ascending(self.sequences@, self.sequences@);
                joining::lemma_cat_nothing(head + layout::u16_be_bytes(0));
            }
            return ;
        }
        let mut count: u16 = 0;
        let mut buf: Vec<u8> = Vec::new();
        let mut sequences = self.sequences.clone();
        assert(sequences@ =~= self.sequences@);
        sort_unstable(&mut sequences);
        let ghost all = sequences@;
        proof {
            laws::law_ascending(self.sequences@, all);
            laws::lemma_same_length(self.sequences@, all);
            laws::lemma_no_second_maximum(self.sequences@, all);
            assert(all.take(1) =~= seq![all[0]]);
            laws::lemma_first_run(all[0]);
        }
        let mut start: u32 = sequences[0];
        let mut end: u32 = start;
        let mut next: usize = 1;
        while next < sequences.len()
            invariant
                1 <= next <= sequences@.len(),
                all == sequences@,
                end == all[next - 1],
                layout::runs(all).len() <= u16::MAX,
                forall|i: int, j: int|
                    0 <= i < j < all.len() && all[i] == u32::MAX ==> all[j] != u32::MAX,
                forall|i: int, j: int|
                    0 <= i <= j < all.len() ==> (#[trigger] all[i]) <= (#[trigger] all[j]),
                layout::runs(all.take(next as int)).len() == count + 1,
                layout::runs(all.take(next as int)).last() == (start, end),
                buf@ == layout::records_bytes(layout::runs(all.take(next as int)).drop_last()),
            decreases sequences.len() - next,
        {
            let seq: u32 = sequences[next];
            proof {
                let shorter = all.take(next as int);
                let longer = all.take(next + 1);
                assert(longer.drop_last() =~= shorter);
                laws::lemma_fewer_runs(all, next + 1);
                assert(all[next as int - 1] == u32::MAX ==> all[next as int] != u32::MAX);
                assert(all[next as int - 1] <= all[next as int]);
                if seq != end + 1 {
                    assert(layout::runs(longer).drop_last() =~= layout::runs(shorter));
                } else {
                    assert(layout::runs(longer).drop_last() =~= layout::runs(
                        shorter,
                    ).drop_last());
                }
            }
            if seq != end + 1 {
                Self::write_range(start, end, &mut buf);
                count = count + 1;
                start = seq;
            }
            end = seq;
            next = next + 1;
        }
        assert(all.take(next as int) =~= all);
        Self::write_range(start, end, &mut buf);
        count = count + 1;
        write_u16_be(count, writer);
        writer.append(&mut buf);
        proof {
            joining::lemma_cat(
                head,
                layout::u16_be_bytes(count),
                layout::records_bytes(layout::runs(all)),
            );
        }
    }
}

} // verus!
