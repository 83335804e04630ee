//! What holds of acknowledgement packets as a whole.

use super::layout::{self, Taken};
use super::{AckError, Acknowledge, MAX_ACK_RECORDS, MAX_ACK_SEQUENCES};
use crate::joining;
use vstd::prelude::*;

verus! {

pub(crate) proof fn lemma_prepend_nothing(tail: Taken<Seq<u32>>)
    ensures
        layout::prepend(Seq::empty(), tail) == tail,
{
    if let (Ok(items), _) = tail {
        joining::lemma_cat_nothing(items);
    }
}

pub(crate) proof fn lemma_prepend_twice(a: Seq<u32>, b: Seq<u32>, tail: Taken<Seq<u32>>)
    ensures
        layout::prepend(a, layout::prepend(b, tail)) == layout::prepend(a + b, tail),
{
    if let (Ok(items), _) = tail {
        joining::lemma_cat(a, b, items);
    }
}

proof fn lemma_ascending_is_total()
    ensures
        vstd::relations::total_ordering(|a: u32, b: u32| a <= b),
{
}

/// The ascending order of some numbers is the one list of the same numbers in
/// which none is larger than a later one.
pub proof fn law_ascending(s: Seq<u32>, t: Seq<u32>)
    requires
        t.to_multiset() == s.to_multiset(),
        forall|i: int, j: int|
            0 <= i <= j < t.len() ==> (#[trigger] t[i]) <= (#[trigger] t[j]),
    ensures
        t == layout::ascending(s),
{
    let leq = |a: u32, b: u32| a <= b;
    lemma_ascending_is_total();
    s.lemma_sort_by_ensures(leq);
    vstd::seq_lib::lemma_sorted_unique(t, layout::ascending(s), leq);
}

pub(crate) proof fn lemma_same_length(s: Seq<u32>, t: Seq<u32>)
    requires
        t.to_multiset() == s.to_multiset(),
    ensures
        t.len() == s.len(),
{
    vstd::seq_lib::to_multiset_len(s);
    vstd::seq_lib::to_multiset_len(t);
}

/// A number that stands at two places of a list stands at two places of every
/// list of the same numbers.
pub(crate) proof fn lemma_no_second_maximum(s: Seq<u32>, t: Seq<u32>)
    requires
        t.to_multiset() == s.to_multiset(),
        forall|i: int, j: int|
            0 <= i < j < s.len() && s[i] == u32::MAX ==> s[j] != u32::MAX,
    ensures
        forall|i: int, j: int|
            0 <= i < j < t.len() && t[i] == u32::MAX ==> t[j] != u32::MAX,
{
    broadcast use vstd::seq_lib::group_to_multiset_ensures;

    let max = u32::MAX;
    assert forall|i: int, j: int| 0 <= i < j < t.len() && t[i] == max implies t[j] != max by {
        if t[j] == max {
            let fewer = t.remove(i);
            assert(fewer[j - 1] == max);
            assert(fewer.contains(max));
            assert(fewer.to_multiset() == t.to_multiset().remove(max));
            assert(fewer.to_multiset().count(max) > 0);
            assert(t.to_multiset().count(max) >= 2);
            assert(s.contains(max));
            let a = s.index_of(max);
            assert(0 <= a < s.len() && s[a] == max);
            let left = s.remove(a);
            assert(left.to_multiset().count(max) >= 1);
            assert(left.contains(max));
            let b = left.index_of(max);
            assert(0 <= b < left.len() && left[b] == max);
            if b < a {
                assert(s[b] == max);
            } else {
                assert(s[b + 1] == max);
            }
        }
    }
}

pub(crate) proof fn lemma_first_run(v: u32)
    ensures
        layout::runs(seq![v]) == seq![(v, v)],
{
    reveal_with_fuel(layout::runs, 2);
    assert(seq![v].drop_last() =~= Seq::empty());
    assert(layout::runs(seq![v]) =~= seq![(v, v)]);
}

/// A list has at least as many runs as any list that it begins with.
pub(crate) proof fn lemma_fewer_runs(s: Seq<u32>, n: int)
    requires
        0 <= n <= s.len(),
    ensures
        layout::runs(s.take(n)).len() <= layout::runs(s).len(),
        s.len() > 0 ==> layout::runs(s).len() > 0,
    decreases s.len(),
{
    if n == s.len() {
        assert(s.take(n) =~= s);
    }
    if s.len() > 0 {
        let shorter = s.drop_last();
        if n < s.len() {
            assert(shorter.take(n) =~= s.take(n));
            lemma_fewer_runs(shorter, n);
        } else {
            lemma_fewer_runs(shorter, 0);
        }
    }
}

/// A packet has at most as many records as sequence numbers.
pub proof fn law_at_most_one_record_each(sequences: Seq<u32>)
    ensures
        layout::runs(sequences).len() <= sequences.len(),
    decreases sequences.len(),
{
    if sequences.len() > 0 {
        law_at_most_one_record_each(sequences.drop_last());
        lemma_fewer_runs(sequences.drop_last(), 0);
    }
}

/// The runs of a list cover exactly that list, each of them is made of its
/// numbers and the last one ends where the list does.
pub proof fn law_runs_cover(s: Seq<u32>)
    ensures
        layout::covered(layout::runs(s)) == s,
        forall|i: int|
            0 <= i < layout::runs(s).len() ==> {
                let run = #[trigger] layout::runs(s)[i];
                run.0 <= run.1 && s.contains(run.0) && s.contains(run.1)
            },
        s.len() > 0 ==> layout::runs(s).len() > 0 && layout::runs(s).last().1 == s.last(),
    decreases s.len(),
{
    if s.len() > 0 {
        let shorter = s.drop_last();
        let before = layout::runs(shorter);
        let all = layout::runs(s);
        law_runs_cover(shorter);
        assert(s[s.len() - 1] == s.last());
        assert forall|v: u32| shorter.contains(v) implies s.contains(v) by {
            let i = shorter.index_of(v);
            assert(s[i] == v);
        }
        if s.len() > 1 && s.last() == s[s.len() - 2] + 1 {
            let run = before.last();
            assert(shorter.last() == s[s.len() - 2]);
            assert(before[before.len() - 1] == run);
            assert(all.drop_last() =~= before.drop_last());
            assert(layout::expand((run.0, s.last())) =~= layout::expand(run).push(s.last()));
            assert(layout::covered(all) =~= shorter.push(s.last()));
        } else {
            assert(all.drop_last() =~= before);
            assert(layout::expand((s.last(), s.last())) =~= seq![s.last()]);
            assert(layout::covered(all) =~= shorter.push(s.last()));
        }
        assert(shorter.push(s.last()) =~= s);
        assert forall|i: int| 0 <= i < all.len() implies {
            let run = #[trigger] all[i];
            run.0 <= run.1 && s.contains(run.0) && s.contains(run.1)
        } by {
            if i < all.len() - 1 {
                assert(all[i] == before[i]);
            }
        }
    }
}

/// A 24-bit number is read back as it was written.
pub proof fn law_u24_round_trip(v: u32, rest: Seq<u8>)
    requires
        v < 0x100_0000,
    ensures
        layout::parse_u24(layout::u24_bytes(v) + rest) == (Ok::<u32, AckError>(v), rest),
{
    let s = layout::u24_bytes(v) + rest;
    assert(s.skip(3) =~= rest);
    assert(s[0] == v % 256 && s[1] == v / 256 % 256 && s[2] == v / 65536 % 256);
}

/// A record is read back as it was written.
pub proof fn law_record_round_trip(record: (u32, u32), rest: Seq<u8>)
    requires
        record.0 < 0x100_0000,
        record.1 < 0x100_0000,
    ensures
        layout::parse_record(layout::record_bytes(record) + rest) == (
            Ok::<(u32, u32), AckError>(record),
            rest,
        ),
{
    let s = layout::record_bytes(record) + rest;
    let start = layout::u24_bytes(record.0);
    if record.0 == record.1 {
        assert(s.skip(1) =~= start + rest);
        law_u24_round_trip(record.0, rest);
    } else {
        let end = layout::u24_bytes(record.1);
        assert(s.skip(1) =~= start + (end + rest));
        law_u24_round_trip(record.0, end + rest);
        law_u24_round_trip(record.1, rest);
    }
}

proof fn lemma_read_records(records: Seq<(u32, u32)>, more: nat, have: nat, rest: Seq<u8>)
    requires
        have + layout::covered(records).len() <= MAX_ACK_SEQUENCES,
        forall|i: int|
            0 <= i < records.len() ==> {
                let record = #[trigger] records[i];
                record.0 <= record.1 && record.1 < 0x100_0000
            },
    ensures
        layout::parse_records(layout::records_bytes(records) + rest, records.len() + more, have)
            == layout::prepend(
            layout::covered(records),
            layout::parse_records(rest, more, have + layout::covered(records).len()),
        ),
    decreases records.len(),
{
    if records.len() == 0 {
        assert(layout::records_bytes(records) + rest =~= rest);
        lemma_prepend_nothing(layout::parse_records(rest, more, have));
    } else {
        let before = records.drop_last();
        let last = records.last();
        let after = layout::record_bytes(last) + rest;
        assert(records[records.len() - 1] == last);
        assert(before.len() + (more + 1) == records.len() + more);
        assert forall|i: int| 0 <= i < before.len() implies {
            let record = #[trigger] before[i];
            record.0 <= record.1 && record.1 < 0x100_0000
        } by {
            assert(before[i] == records[i]);
        }
        joining::lemma_cat(layout::records_bytes(before), layout::record_bytes(last), rest);
        lemma_read_records(before, more + 1, have, after);
        law_record_round_trip(last, rest);
        lemma_prepend_twice(
            layout::covered(before),
            layout::expand(last),
            layout::parse_records(rest, more, have + layout::covered(records).len()),
        );
    }
}

/// A packet is read back as the numbers it was written for, in ascending order,
/// as long as they are 24-bit numbers and no more than the limit.
pub proof fn law_ack_round_trip(sequences: Seq<u32>, rest: Seq<u8>)
    requires
        sequences.len() <= MAX_ACK_SEQUENCES,
        forall|i: int| 0 <= i < sequences.len() ==> #[trigger] sequences[i] < 0x100_0000,
    ensures
        layout::parse_ack(layout::ack_bytes(sequences) + rest) == (
            Ok::<Seq<u32>, AckError>(layout::ascending(sequences)),
            rest,
        ),
        layout::ascending(sequences).to_multiset() == sequences.to_multiset(),
{
    let leq = |a: u32, b: u32| a <= b;
    let all = layout::ascending(sequences);
    let records = layout::runs(all);
    lemma_ascending_is_total();
    sequences.lemma_sort_by_ensures(leq);
    lemma_same_length(sequences, all);
    law_runs_cover(all);
    law_at_most_one_record_each(all);
    assert forall|i: int| 0 <= i < records.len() implies {
        let record = #[trigger] records[i];
        record.0 <= record.1 && record.1 < 0x100_0000
    } by {
        let v = records[i].1;
        assert(all.contains(v));
        assert(sequences.contains(v));
        let j = sequences.index_of(v);
        assert(sequences[j] == v);
    }
    let n = layout::u16_be_bytes(records.len() as u16);
    let body = layout::records_bytes(records) + rest;
    let packet = layout::ack_bytes(sequences) + rest;
    joining::lemma_cat(n, layout::records_bytes(records), rest);
    assert(packet == n + body);
    assert(packet.skip(2) =~= body);
    assert(packet[0] == records.len() / 256 && packet[1] == records.len() % 256);
    lemma_read_records(records, 0, 0, rest);
    assert(all + Seq::<u32>::empty() =~= all);
}

/// `b` is what a reader that made `a` of some bytes makes of the same bytes with
/// `more` behind them: the same, unless it was the end of the input.
pub open spec fn continues<T>(a: Taken<T>, b: Taken<T>, more: Seq<u8>) -> bool {
    a.0 == Err::<T, AckError>(AckError::UnexpectedEnd) || b == (a.0, a.1 + more)
}

proof fn lemma_u24_continues(s: Seq<u8>, more: Seq<u8>)
    ensures
        continues(layout::parse_u24(s), layout::parse_u24(s + more), more),
{
    if s.len() >= 3 {
        assert((s + more).skip(3) =~= s.skip(3) + more);
    }
}

proof fn lemma_record_continues(s: Seq<u8>, more: Seq<u8>)
    ensures
        continues(layout::parse_record(s), layout::parse_record(s + more), more),
{
    if s.len() >= 1 {
        assert((s + more).skip(1) =~= s.skip(1) + more);
        lemma_u24_continues(s.skip(1), more);
        if let (Ok(_), rest) = layout::parse_u24(s.skip(1)) {
            lemma_u24_continues(rest, more);
        }
    }
}

proof fn lemma_records_continue(s: Seq<u8>, n: nat, have: nat, more: Seq<u8>)
    ensures
        continues(
            layout::parse_records(s, n, have),
            layout::parse_records(s + more, n, have),
            more,
        ),
    decreases n,
{
    if n > 0 {
        lemma_record_continues(s, more);
        if let (Ok(record), rest) = layout::parse_record(s) {
            lemma_records_continue(
                rest,
                (n - 1) as nat,
                have + layout::expand(record).len(),
                more,
            );
        }
    }
}

/// Bytes behind a packet change nothing about what is read from it.
pub proof fn law_ack_continues(s: Seq<u8>, more: Seq<u8>)
    ensures
        continues(layout::parse_ack(s), layout::parse_ack(s + more), more),
{
    if s.len() >= 2 {
        assert((s + more).skip(2) =~= s.skip(2) + more);
        if let (Ok(n), rest) = layout::parse_u16_be(s) {
            lemma_records_continue(rest, n as nat, 0, more);
        }
    }
}

/// A packet that is cut short anywhere is reported as such.
pub proof fn law_cut_ack(s: Seq<u8>, k: int)
    requires
        0 <= k < s.len() - layout::parse_ack(s).1.len(),
    ensures
        layout::parse_ack(s.take(k)).0 == Err::<Seq<u32>, AckError>(AckError::UnexpectedEnd),
{
    let front = s.take(k);
    let more = s.skip(k);
    assert(front + more =~= s);
    law_ack_continues(front, more);
    assert((layout::parse_ack(front).1 + more).len() >= s.len() - k);
}

/// No packet is read as more numbers than the limit, and none is read from more
/// records than the limit.
pub proof fn law_ack_limits(s: Seq<u8>)
    ensures
        layout::parse_ack(s).0 matches Ok(sequences) ==> sequences.len() <= MAX_ACK_SEQUENCES,
        layout::parse_u16_be(s).0 matches Ok(n) && n > MAX_ACK_RECORDS ==> layout::parse_ack(s).0
            == Err::<Seq<u32>, AckError>(AckError::TooManyRecords),
{
    if let (Ok(n), rest) = layout::parse_u16_be(s) {
        lemma_records_limit(rest, n as nat, 0);
    }
}

proof fn lemma_records_limit(s: Seq<u8>, n: nat, have: nat)
    requires
        have <= MAX_ACK_SEQUENCES,
    ensures
        layout::parse_records(s, n, have).0 matches Ok(sequences) ==> have + sequences.len()
            <= MAX_ACK_SEQUENCES,
    decreases n,
{
    if n > 0 {
        if let (Ok(record), rest) = layout::parse_record(s) {
            if have + layout::span(record) <= MAX_ACK_SEQUENCES {
                lemma_records_limit(
                    rest,
                    (n - 1) as nat,
                    have + layout::expand(record).len(),
                );
            }
        }
    }
}

/// A record that is there is read the same, whatever follows it.
proof fn lemma_record_is_whole(s: Seq<u8>, more: Seq<u8>)
    ensures
        layout::parse_record(s).0 is Ok ==> layout::parse_record(s + more) == (
            layout::parse_record(s).0,
            layout::parse_record(s).1 + more,
        ),
        layout::parse_record(s).0 is Err <==> s.len() < layout::record_len(s),
        layout::parse_record(s).0 is Err ==> layout::parse_record(s).0 == Err::<
            (u32, u32),
            AckError,
        >(AckError::UnexpectedEnd),
        layout::parse_record(s).0 is Ok ==> layout::parse_record(s).1.len() == s.len()
            - layout::record_len(s),
{
    if layout::parse_record(s).0 is Ok {
        assert((s + more).skip(1) =~= s.skip(1) + more);
        assert((s.skip(1) + more).skip(3) =~= s.skip(1).skip(3) + more);
        if s[0] == 0 {
            assert((s.skip(1).skip(3) + more).skip(3) =~= s.skip(1).skip(3).skip(3) + more);
        }
    }
}

proof fn lemma_missing_in_records(s: Seq<u8>, n: nat, have: nat, more: Seq<u8>)
    ensures
        layout::missing_in_records(s, n, have) == 0 <==> layout::parse_records(s, n, have).0
            != Err::<Seq<u32>, AckError>(AckError::UnexpectedEnd),
        more.len() < layout::missing_in_records(s, n, have) ==> layout::parse_records(
            s + more,
            n,
            have,
        ).0 == Err::<Seq<u32>, AckError>(AckError::UnexpectedEnd),
        0 < more.len() == layout::missing_in_records(s, n, have) ==> {
            ||| layout::parse_records(s + more, n, have).0 == Err::<Seq<u32>, AckError>(
                AckError::UnexpectedEnd,
            )
            ||| layout::parse_records(s + more, n, have).1.len() == 0
        },
    decreases n,
{
    if n > 0 {
        lemma_record_is_whole(s, more);
        lemma_record_is_whole(s + more, Seq::empty());
        match layout::parse_record(s) {
            (Ok(record), rest) => {
                lemma_missing_in_records(
                    rest,
                    (n - 1) as nat,
                    have + layout::expand(record).len(),
                    more,
                );
            },
            (Err(_), _) => {
                if let (Ok(record), rest) = layout::parse_record(s + more) {
                    if more.len() == layout::missing_in_records(s, n, have) {
                        reveal_with_fuel(layout::parse_records, 2);
                        assert(rest.len() == 0);
                        lemma_record_is_whole(rest, Seq::empty());
                    }
                }
            },
        }
    }
}

/// Nothing is missing exactly where reading does not end inside the packet.
pub proof fn law_nothing_is_missing(s: Seq<u8>)
    ensures
        layout::missing(s) == 0 <==> layout::parse_ack(s).0 != Err::<Seq<u32>, AckError>(
            AckError::UnexpectedEnd,
        ),
{
    if let (Ok(n), rest) = layout::parse_u16_be(s) {
        lemma_missing_in_records(rest, n as nat, 0, Seq::empty());
    }
}

/// The missing bytes are needed: with fewer of them reading still ends inside the
/// packet.
pub proof fn law_missing_is_needed(s: Seq<u8>, more: Seq<u8>)
    requires
        more.len() < layout::missing(s),
    ensures
        layout::parse_ack(s + more).0 == Err::<Seq<u32>, AckError>(AckError::UnexpectedEnd),
{
    if let (Ok(n), rest) = layout::parse_u16_be(s) {
        assert((s + more).skip(2) =~= rest + more);
        lemma_missing_in_records(rest, n as nat, 0, more);
    }
}

/// The missing bytes are no more than the packet has: where reading does not end
/// inside the packet with them, it ends behind the last of them.
pub proof fn law_missing_is_no_more(s: Seq<u8>, more: Seq<u8>)
    requires
        0 < more.len() == layout::missing(s),
    ensures
        layout::parse_ack(s + more).0 != Err::<Seq<u32>, AckError>(AckError::UnexpectedEnd)
            ==> layout::parse_ack(s + more).1.len() == 0,
{
    match layout::parse_u16_be(s) {
        (Ok(n), rest) => {
            assert((s + more).skip(2) =~= rest + more);
            lemma_missing_in_records(rest, n as nat, 0, more);
        },
        (Err(_), _) => {
            let n = layout::parse_u16_be(s + more).0->Ok_0;
            let rest = layout::parse_u16_be(s + more).1;
            assert(rest.len() == 0);
            if n > 0 {
                lemma_record_is_whole(rest, Seq::empty());
            }
        },
    }
}

/// No two neighbouring runs could have been one.
pub proof fn law_runs_are_maximal(s: Seq<u32>, i: int)
    requires
        0 < i < layout::runs(s).len(),
    ensures
        layout::runs(s)[i].0 != layout::runs(s)[i - 1].1 + 1,
    decreases s.len(),
{
    let shorter = s.drop_last();
    let before = layout::runs(shorter);
    law_runs_cover(shorter);
    if i < before.len() {
        law_runs_are_maximal(shorter, i);
    }
}

/// The runs of a list are the one way to cut it into ascending stretches of
/// consecutive numbers of which no two neighbours could have been one: `ranges` are
/// the stretches, `records` their ends.
pub proof fn law_runs_are_the_stretches(
    s: Seq<u32>,
    records: Seq<(u32, u32)>,
    ranges: Seq<Seq<u32>>,
)
    requires
        ranges.len() == records.len(),
        forall|i: int|
            0 <= i < records.len() ==> (#[trigger] ranges[i]).len() == records[i].1 - records[i].0
                + 1 && records[i].0 <= records[i].1,
        forall|i: int, j: int|
            0 <= i < ranges.len() && 0 <= j < ranges[i].len() ==> #[trigger] ranges[i][j]
                == records[i].0 + j,
        forall|i: int|
            0 < i < records.len() ==> (#[trigger] records[i]).0 != records[i - 1].1 + 1,
        ranges.flatten() == s,
    ensures
        layout::runs(s) == records,
    decreases s.len(),
{
    if records.len() == 0 {
        assert(records =~= layout::runs(s));
    } else {
        let n = records.len() - 1;
        let (first, last) = records[n];
        let front = ranges.drop_last();
        let end = ranges[n];
        assert(front.push(end) =~= ranges);
        front.lemma_flatten_push(end);
        assert(end[end.len() - 1] == last);
        assert(s.last() == last);
        if first == last {
            assert(s.drop_last() =~= front.flatten());
            assert forall|i: int| 0 <= i < front.len() implies (#[trigger] front[i]).len()
                == records.drop_last()[i].1 - records.drop_last()[i].0 + 1
                && records.drop_last()[i].0 <= records.drop_last()[i].1 by {
                assert(front[i] == ranges[i]);
            }
            assert forall|i: int, j: int|
                0 <= i < front.len() && 0 <= j < front[i].len() implies #[trigger] front[i][j]
                == records.drop_last()[i].0 + j by {
                assert(ranges[i][j] == records[i].0 + j);
            }
            assert forall|i: int| 0 < i < records.drop_last().len() implies (
            #[trigger] records.drop_last()[i]).0 != records.drop_last()[i - 1].1 + 1 by {
                assert(records[i].0 != records[i - 1].1 + 1);
            }
            law_runs_are_the_stretches(s.drop_last(), records.drop_last(), front);
            law_runs_cover(s.drop_last());
            assert(records[n].0 == first);
            assert(layout::runs(s) =~= records);
        } else {
            let cut = front.push(end.drop_last());
            let ends = records.drop_last().push((first, (last - 1) as u32));
            front.lemma_flatten_push(end.drop_last());
            assert(s.drop_last() =~= cut.flatten());
            assert forall|i: int| 0 <= i < cut.len() implies (#[trigger] cut[i]).len() == ends[i].1
                - ends[i].0 + 1 && ends[i].0 <= ends[i].1 by {
                assert(ranges[i].len() == records[i].1 - records[i].0 + 1);
            }
            assert forall|i: int, j: int|
                0 <= i < cut.len() && 0 <= j < cut[i].len() implies #[trigger] cut[i][j]
                == ends[i].0 + j by {
                assert(ranges[i][j] == records[i].0 + j);
            }
            assert forall|i: int| 0 < i < ends.len() implies (#[trigger] ends[i]).0 != ends[i
                - 1].1 + 1 by {
                assert(records[i].0 != records[i - 1].1 + 1);
            }
            law_runs_are_the_stretches(s.drop_last(), ends, cut);
            law_runs_cover(s.drop_last());
            assert(s.drop_last().last() == s[s.len() - 2]);
            assert(layout::runs(s) =~= records);
        }
    }
}

/// Consecutive numbers are one run.
pub proof fn law_consecutive_is_one_run(s: Seq<u32>)
    requires
        s.len() > 0,
        forall|i: int| 0 <= i < s.len() ==> #[trigger] s[i] == s[0] + i,
    ensures
        layout::runs(s) == seq![(s[0], s.last())],
{
    let ranges = seq![s];
    ranges.lemma_flatten_one_element();
    assert(s[s.len() - 1] == s[0] + s.len() - 1);
    law_runs_are_the_stretches(s, seq![(s[0], s.last())], ranges);
}

proof fn lemma_records_written(records: Seq<(u32, u32)>, pieces: Seq<Seq<u8>>)
    requires
        pieces.len() == records.len(),
        forall|i: int|
            0 <= i < records.len() ==> #[trigger] pieces[i] == layout::record_bytes(records[i]),
    ensures
        layout::records_bytes(records) == pieces.flatten(),
    decreases records.len(),
{
    if records.len() > 0 {
        let n = records.len() - 1;
        assert(pieces.drop_last().push(pieces[n]) =~= pieces);
        pieces.drop_last().lemma_flatten_push(pieces[n]);
        assert forall|i: int| 0 <= i < n implies (#[trigger] pieces.drop_last()[i])
            == layout::record_bytes(records.drop_last()[i]) by {
            assert(pieces[i] == layout::record_bytes(records[i]));
        }
        lemma_records_written(records.drop_last(), pieces.drop_last());
    }
}

/// A packet body is the number of its records, as two bytes with the most
/// significant first, and the records. Those are the stretches of consecutive
/// numbers of the list in ascending order, as few as there can be: a byte 1 and the
/// number for a single one, else a byte 0, the first number and the last. A number
/// is written as its three low bytes, the least significant first.
pub proof fn law_packet_is_written(
    sequences: Seq<u32>,
    sorted: Seq<u32>,
    records: Seq<(u32, u32)>,
    ranges: Seq<Seq<u32>>,
    pieces: Seq<Seq<u8>>,
)
    requires
        sorted.to_multiset() == sequences.to_multiset(),
        forall|i: int, j: int|
            0 <= i <= j < sorted.len() ==> (#[trigger] sorted[i]) <= (#[trigger] sorted[j]),
        ranges.len() == records.len() <= 0xffff,
        forall|i: int|
            0 <= i < records.len() ==> (#[trigger] ranges[i]).len() == records[i].1 - records[i].0
                + 1 && records[i].0 <= records[i].1,
        forall|i: int, j: int|
            0 <= i < ranges.len() && 0 <= j < ranges[i].len() ==> #[trigger] ranges[i][j]
                == records[i].0 + j,
        forall|i: int|
            0 < i < records.len() ==> (#[trigger] records[i]).0 != records[i - 1].1 + 1,
        ranges.flatten() == sorted,
        pieces.len() == records.len(),
        forall|i: int|
            0 <= i < records.len() ==> #[trigger] pieces[i] == ({
                let (first, last) = records[i];
                if first == last {
                    seq![
                        1u8,
                        (first % 256) as u8,
                        (first / 256 % 256) as u8,
                        (first / 65536 % 256) as u8,
                    ]
                } else {
                    seq![
                        0u8,
                        (first % 256) as u8,
                        (first / 256 % 256) as u8,
                        (first / 65536 % 256) as u8,
                        (last % 256) as u8,
                        (last / 256 % 256) as u8,
                        (last / 65536 % 256) as u8,
                    ]
                }
            }),
    ensures
        layout::ack_bytes(sequences) == seq![
            (records.len() / 256) as u8,
            (records.len() % 256) as u8,
        ] + pieces.flatten(),
{
    law_ascending(sequences, sorted);
    law_runs_are_the_stretches(sorted, records, ranges);
    assert forall|i: int| 0 <= i < records.len() implies #[trigger] pieces[i]
        == layout::record_bytes(records[i]) by {
        assert(pieces[i] =~= layout::record_bytes(records[i]));
    }
    lemma_records_written(records, pieces);
    assert(layout::u16_be_bytes(records.len() as u16) =~= seq![
        (records.len() / 256) as u8,
        (records.len() % 256) as u8,
    ]);
}

/// A list can be written exactly where it makes at most 65535 records and does not
/// hold the number 2^32 - 1 twice.
pub proof fn law_what_can_be_written(
    sequences: Seq<u32>,
    sorted: Seq<u32>,
    records: Seq<(u32, u32)>,
    ranges: Seq<Seq<u32>>,
)
    requires
        sorted.to_multiset() == sequences.to_multiset(),
        forall|i: int, j: int|
            0 <= i <= j < sorted.len() ==> (#[trigger] sorted[i]) <= (#[trigger] sorted[j]),
        ranges.len() == records.len(),
        forall|i: int|
            0 <= i < records.len() ==> (#[trigger] ranges[i]).len() == records[i].1 - records[i].0
                + 1 && records[i].0 <= records[i].1,
        forall|i: int, j: int|
            0 <= i < ranges.len() && 0 <= j < ranges[i].len() ==> #[trigger] ranges[i][j]
                == records[i].0 + j,
        forall|i: int|
            0 < i < records.len() ==> (#[trigger] records[i]).0 != records[i - 1].1 + 1,
        ranges.flatten() == sorted,
    ensures
        layout::writable(sequences) <==> records.len() <= 65535 && forall|i: int, j: int|
            0 <= i < j < sequences.len() ==> (#[trigger] sequences[i]) != 0xffff_ffff || (
            #[trigger] sequences[j]) != 0xffff_ffff,
{
    law_ascending(sequences, sorted);
    law_runs_are_the_stretches(sorted, records, ranges);
}

/// A single record is a byte that is not zero and three bytes, the least
/// significant first; a range is a zero byte and two times three bytes.
pub proof fn law_record_layout(
    marker: u8,
    a: u8,
    b: u8,
    c: u8,
    d: u8,
    e: u8,
    f: u8,
    rest: Seq<u8>,
)
    ensures
        marker != 0 ==> ({
            let v = a + 256 * b + 65536 * c;
            layout::parse_record(seq![marker, a, b, c] + rest) == (
                Ok::<(u32, u32), AckError>((v as u32, v as u32)),
                rest,
            )
        }),
        layout::parse_record(seq![0u8, a, b, c, d, e, f] + rest) == (
            Ok::<(u32, u32), AckError>(
                ((a + 256 * b + 65536 * c) as u32, (d + 256 * e + 65536 * f) as u32),
            ),
            rest,
        ),
{
    let single = seq![marker, a, b, c] + rest;
    assert(single.skip(1) =~= seq![a, b, c] + rest);
    assert((seq![a, b, c] + rest).skip(3) =~= rest);
    let range = seq![0u8, a, b, c, d, e, f] + rest;
    assert(range.skip(1) =~= seq![a, b, c] + (seq![d, e, f] + rest));
    assert((seq![a, b, c] + (seq![d, e, f] + rest)).skip(3) =~= seq![d, e, f] + rest);
    assert((seq![d, e, f] + rest).skip(3) =~= rest);
}

/// Records are read one after the other, as long as they stay within the limit.
proof fn lemma_records_in_a_row(
    pieces: Seq<Seq<u8>>,
    records: Seq<(u32, u32)>,
    ranges: Seq<Seq<u32>>,
    more: nat,
    have: nat,
    rest: Seq<u8>,
)
    requires
        records.len() == pieces.len() == ranges.len(),
        forall|i: int|
            0 <= i < pieces.len() ==> layout::parse_record(#[trigger] pieces[i]) == (
                Ok::<(u32, u32), AckError>(records[i]),
                Seq::<u8>::empty(),
            ),
        forall|i: int|
            0 <= i < ranges.len() ==> (#[trigger] ranges[i]).len() == if records[i].0
                <= records[i].1 {
                records[i].1 - records[i].0 + 1
            } else {
                0
            },
        forall|i: int, j: int|
            0 <= i < ranges.len() && 0 <= j < ranges[i].len() ==> #[trigger] ranges[i][j]
                == records[i].0 + j,
        forall|i: int|
            0 <= i < ranges.len() ==> have + (#[trigger] ranges.take(i)).flatten().len()
                + if records[i].0 <= records[i].1 {
                records[i].1 - records[i].0 + 1
            } else {
                1
            } <= 4096,
    ensures
        layout::parse_records(pieces.flatten() + rest, pieces.len() + more, have)
            == layout::prepend(
            ranges.flatten(),
            layout::parse_records(rest, more, have + ranges.flatten().len()),
        ),
    decreases pieces.len(),
{
    if pieces.len() == 0 {
        assert(pieces.flatten() + rest =~= rest);
        assert(ranges.flatten() =~= Seq::empty());
        lemma_prepend_nothing(layout::parse_records(rest, more, have));
    } else {
        let tail = pieces.drop_first();
        let behind = tail.flatten() + rest;
        joining::lemma_cat(pieces[0], tail.flatten(), rest);
        lemma_record_is_whole(pieces[0], behind);
        joining::lemma_cat_nothing(behind);
        assert(ranges.take(0).flatten().len() == 0);
        assert(ranges[0] =~= layout::expand(records[0]));
        assert forall|i: int| 0 <= i < tail.len() implies layout::parse_record(#[trigger] tail[i])
            == (Ok::<(u32, u32), AckError>(records.drop_first()[i]), Seq::<u8>::empty()) by {
            assert(tail[i] == pieces[i + 1]);
        }
        let others = ranges.drop_first();
        assert forall|i: int| 0 <= i < others.len() implies (#[trigger] others[i]).len()
            == if records.drop_first()[i].0 <= records.drop_first()[i].1 {
            records.drop_first()[i].1 - records.drop_first()[i].0 + 1
        } else {
            0
        } by {
            assert(others[i] == ranges[i + 1]);
        }
        assert forall|i: int, j: int|
            0 <= i < others.len() && 0 <= j < others[i].len() implies #[trigger] others[i][j]
            == records.drop_first()[i].0 + j by {
            assert(ranges[i + 1][j] == records[i + 1].0 + j);
        }
        assert forall|i: int| 0 <= i < others.len() implies have + ranges[0].len() + (
        #[trigger] others.take(i)).flatten().len() + if records.drop_first()[i].0
            <= records.drop_first()[i].1 {
            records.drop_first()[i].1 - records.drop_first()[i].0 + 1
        } else {
            1
        } <= 4096 by {
            let longer = ranges.take(i + 1);
            assert(longer.drop_first() =~= others.take(i));
            assert(longer.first() == ranges[0]);
        }
        lemma_records_in_a_row(
            tail,
            records.drop_first(),
            others,
            more,
            have + ranges[0].len(),
            rest,
        );
        lemma_prepend_twice(
            ranges[0],
            others.flatten(),
            layout::parse_records(rest, more, have + ranges.flatten().len()),
        );
    }
}

/// A packet body is the number of its records, as two bytes with the most
/// significant first, and the records; it stands for the numbers of its records in
/// their order, of each from the first to the last. Of records it has at most
/// 4096, and of numbers too, a record with no number counting for one.
pub proof fn law_packet_layout(
    high: u8,
    low: u8,
    pieces: Seq<Seq<u8>>,
    records: Seq<(u32, u32)>,
    ranges: Seq<Seq<u32>>,
    rest: Seq<u8>,
)
    requires
        high * 256 + low == pieces.len() <= 4096,
        records.len() == pieces.len() == ranges.len(),
        forall|i: int|
            0 <= i < pieces.len() ==> layout::parse_record(#[trigger] pieces[i]) == (
                Ok::<(u32, u32), AckError>(records[i]),
                Seq::<u8>::empty(),
            ),
        forall|i: int|
            0 <= i < ranges.len() ==> (#[trigger] ranges[i]).len() == if records[i].0
                <= records[i].1 {
                records[i].1 - records[i].0 + 1
            } else {
                0
            },
        forall|i: int, j: int|
            0 <= i < ranges.len() && 0 <= j < ranges[i].len() ==> #[trigger] ranges[i][j]
                == records[i].0 + j,
        forall|i: int|
            0 <= i < ranges.len() ==> (#[trigger] ranges.take(i)).flatten().len() + if records[i].0
                <= records[i].1 {
                records[i].1 - records[i].0 + 1
            } else {
                1
            } <= 4096,
    ensures
        layout::parse_ack(seq![high, low] + (pieces.flatten() + rest)) == (
            Ok::<Seq<u32>, AckError>(ranges.flatten()),
            rest,
        ),
{
    let body = pieces.flatten() + rest;
    let packet = seq![high, low] + body;
    assert(packet.skip(2) =~= body);
    lemma_records_in_a_row(pieces, records, ranges, 0, 0, rest);
    joining::lemma_cat_nothing(ranges.flatten());
}

/// A packet with more than 4096 records is refused before any of them is read, and
/// one with more than 4096 numbers behind the record that is too much.
pub proof fn law_packet_limits(
    high: u8,
    low: u8,
    pieces: Seq<Seq<u8>>,
    records: Seq<(u32, u32)>,
    ranges: Seq<Seq<u32>>,
    piece: Seq<u8>,
    record: (u32, u32),
    rest: Seq<u8>,
)
    requires
        pieces.len() < high * 256 + low,
        records.len() == pieces.len() == ranges.len(),
        forall|i: int|
            0 <= i < pieces.len() ==> layout::parse_record(#[trigger] pieces[i]) == (
                Ok::<(u32, u32), AckError>(records[i]),
                Seq::<u8>::empty(),
            ),
        forall|i: int|
            0 <= i < ranges.len() ==> (#[trigger] ranges[i]).len() == if records[i].0
                <= records[i].1 {
                records[i].1 - records[i].0 + 1
            } else {
                0
            },
        forall|i: int, j: int|
            0 <= i < ranges.len() && 0 <= j < ranges[i].len() ==> #[trigger] ranges[i][j]
                == records[i].0 + j,
        forall|i: int|
            0 <= i < ranges.len() ==> (#[trigger] ranges.take(i)).flatten().len() + if records[i].0
                <= records[i].1 {
                records[i].1 - records[i].0 + 1
            } else {
                1
            } <= 4096,
        layout::parse_record(piece) == (
            Ok::<(u32, u32), AckError>(record),
            Seq::<u8>::empty(),
        ),
        ranges.flatten().len() + if record.0 <= record.1 {
            record.1 - record.0 + 1
        } else {
            1
        } > 4096,
    ensures
        high * 256 + low <= 4096 ==> layout::parse_ack(
            seq![high, low] + (pieces.flatten() + (piece + rest)),
        ) == (Err::<Seq<u32>, AckError>(AckError::TooManySequences), rest),
        high * 256 + low > 4096 ==> layout::parse_ack(
            seq![high, low] + (pieces.flatten() + (piece + rest)),
        ) == (
            Err::<Seq<u32>, AckError>(AckError::TooManyRecords),
            pieces.flatten() + (piece + rest),
        ),
{
    let body = pieces.flatten() + (piece + rest);
    let packet = seq![high, low] + body;
    assert(packet.skip(2) =~= body);
    let n = (high * 256 + low) as nat;
    lemma_records_in_a_row(
        pieces,
        records,
        ranges,
        (n - pieces.len()) as nat,
        0,
        piece + rest,
    );
    lemma_record_is_whole(piece, rest);
    joining::lemma_cat_nothing(rest);
}

/// A packet with more than 4096 records is refused, whatever they are, and one
/// without its record count is not whole.
pub proof fn law_packet_count(high: u8, low: u8, rest: Seq<u8>)
    ensures
        high * 256 + low > 4096 ==> layout::parse_ack(seq![high, low] + rest) == (
            Err::<Seq<u32>, AckError>(AckError::TooManyRecords),
            rest,
        ),
        layout::parse_ack(seq![high]) == (
            Err::<Seq<u32>, AckError>(AckError::UnexpectedEnd),
            seq![high],
        ),
        layout::parse_ack(Seq::empty()) == (
            Err::<Seq<u32>, AckError>(AckError::UnexpectedEnd),
            Seq::<u8>::empty(),
        ),
{
    assert((seq![high, low] + rest).skip(2) =~= rest);
}

/// What was read is the sequence numbers that are handed out, or the error.
pub proof fn law_read_outcome(r: Result<Acknowledge, AckError>)
    ensures
        r matches Ok(ack) ==> super::outcome(r) == Ok::<Seq<u32>, AckError>(ack.sequences@),
        r matches Err(error) ==> super::outcome(r) == Err::<Seq<u32>, AckError>(error),
{
}

proof fn lemma_missing_in_a_row(
    pieces: Seq<Seq<u8>>,
    records: Seq<(u32, u32)>,
    more: nat,
    have: nat,
    rest: Seq<u8>,
)
    requires
        records.len() == pieces.len(),
        forall|i: int|
            0 <= i < pieces.len() ==> layout::parse_record(#[trigger] pieces[i]) == (
                Ok::<(u32, u32), AckError>(records[i]),
                Seq::<u8>::empty(),
            ),
        layout::parse_records(pieces.flatten(), pieces.len(), have).0 is Ok,
    ensures
        layout::missing_in_records(pieces.flatten() + rest, pieces.len() + more, have)
            == layout::missing_in_records(
            rest,
            more,
            have + layout::parse_records(pieces.flatten(), pieces.len(), have).0->Ok_0.len(),
        ),
    decreases pieces.len(),
{
    if pieces.len() == 0 {
        assert(pieces.flatten() + rest =~= rest);
    } else {
        let tail = pieces.drop_first();
        joining::lemma_cat(pieces[0], tail.flatten(), rest);
        lemma_record_is_whole(pieces[0], tail.flatten());
        lemma_record_is_whole(pieces[0], tail.flatten() + rest);
        joining::lemma_cat_nothing(tail.flatten());
        joining::lemma_cat_nothing(tail.flatten() + rest);
        assert forall|i: int| 0 <= i < tail.len() implies layout::parse_record(#[trigger] tail[i])
            == (Ok::<(u32, u32), AckError>(records.drop_first()[i]), Seq::<u8>::empty()) by {
            assert(tail[i] == pieces[i + 1]);
        }
        lemma_missing_in_a_row(
            tail,
            records.drop_first(),
            more,
            have + layout::expand(records[0]).len(),
            rest,
        );
    }
}

/// What is missing of a packet that ends inside a record is the rest of that
/// record: of seven bytes in all where it begins with a zero byte, of four where it
/// begins with another or has not begun. What is missing of one that ends inside
/// its record count is the rest of that.
pub proof fn law_missing_is_the_rest_of_a_record(
    high: u8,
    low: u8,
    pieces: Seq<Seq<u8>>,
    records: Seq<(u32, u32)>,
    part: Seq<u8>,
)
    requires
        pieces.len() < high * 256 + low <= 4096,
        records.len() == pieces.len(),
        forall|i: int|
            0 <= i < pieces.len() ==> layout::parse_record(#[trigger] pieces[i]) == (
                Ok::<(u32, u32), AckError>(records[i]),
                Seq::<u8>::empty(),
            ),
        layout::parse_records(pieces.flatten(), pieces.len(), 0).0 is Ok,
    ensures
        part.len() == 0 ==> layout::missing(seq![high, low] + (pieces.flatten() + part)) == 4,
        0 < part.len() < 4 && part[0] != 0 ==> layout::missing(
            seq![high, low] + (pieces.flatten() + part),
        ) == 4 - part.len(),
        0 < part.len() < 7 && part[0] == 0 ==> layout::missing(
            seq![high, low] + (pieces.flatten() + part),
        ) == 7 - part.len(),
        layout::missing(seq![high]) == 1,
        layout::missing(Seq::empty()) == 2,
{
    let body = pieces.flatten() + part;
    assert((seq![high, low] + body).skip(2) =~= body);
    lemma_missing_in_a_row(
        pieces,
        records,
        (high * 256 + low - pieces.len()) as nat,
        0,
        part,
    );
    lemma_record_is_whole(part, Seq::empty());
}

} // verus!
