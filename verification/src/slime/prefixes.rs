//! What becomes of a file that is cut short or continued.
//!
//! A reader looks at the bytes in front of it only: more bytes behind them
//! change nothing, and without the last of those that it needs it reports the
//! end of the data.

use super::buffer;
use super::error::SlimeFailure;
use super::layout::{self, Parsed};
use super::model::{SectionView, WorldView};
use vstd::prelude::*;

verus! {

/// `b` is what a reader that made `a` of some bytes makes of the same bytes with
/// `more` behind them: the same value, or the same failure, unless it was the
/// end of the data.
pub open spec fn continues<T>(a: Parsed<T>, b: Parsed<T>, more: Seq<u8>) -> bool {
    match a {
        Ok((value, rest)) => b == Ok::<(T, Seq<u8>), SlimeFailure>((value, rest + more)),
        Err(SlimeFailure::Truncated) => true,
        Err(e) => b == Err::<(T, Seq<u8>), SlimeFailure>(e),
    }
}

proof fn lemma_be_value_front(s: Seq<u8>, more: Seq<u8>)
    requires
        s.len() >= 4,
    ensures
        buffer::be_value(s + more) == buffer::be_value(s),
{
    reveal(buffer::be_value);
}

proof fn lemma_u8(s: Seq<u8>, more: Seq<u8>)
    ensures
        continues(layout::parse_u8(s), layout::parse_u8(s + more), more),
{
    if s.len() >= 1 {
        assert((s + more).skip(1) =~= s.skip(1) + more);
    }
}

proof fn lemma_i32(s: Seq<u8>, more: Seq<u8>)
    ensures
        continues(layout::parse_i32(s), layout::parse_i32(s + more), more),
{
    if s.len() >= 4 {
        assert((s + more).skip(4) =~= s.skip(4) + more);
        lemma_be_value_front(s, more);
    }
}

proof fn lemma_take(s: Seq<u8>, n: nat, more: Seq<u8>)
    ensures
        continues(layout::parse_take(s, n), layout::parse_take(s + more, n), more),
{
    if s.len() >= n {
        assert((s + more).take(n as int) =~= s.take(n as int));
        assert((s + more).skip(n as int) =~= s.skip(n as int) + more);
    }
}

proof fn lemma_count(s: Seq<u8>, reason: Seq<char>, more: Seq<u8>)
    ensures
        continues(layout::parse_count(s, reason), layout::parse_count(s + more, reason), more),
{
    lemma_i32(s, more);
}

pub(crate) proof fn lemma_segment(s: Seq<u8>, more: Seq<u8>)
    ensures
        continues(layout::parse_segment(s), layout::parse_segment(s + more), more),
{
    let reason = "negative segment length"@;
    lemma_count(s, reason, more);
    if let Ok((n, rest)) = layout::parse_count(s, reason) {
        lemma_take(rest, n, more);
    }
}

proof fn lemma_optional(s: Seq<u8>, present: bool, more: Seq<u8>)
    ensures
        continues(
            layout::parse_optional(s, present),
            layout::parse_optional(s + more, present),
            more,
        ),
{
    lemma_segment(s, more);
}

proof fn lemma_segments(s: Seq<u8>, n: nat, more: Seq<u8>)
    ensures
        continues(layout::parse_segments(s, n), layout::parse_segments(s + more, n), more),
    decreases n,
{
    if n > 0 {
        lemma_segment(s, more);
        if let Ok((_, rest)) = layout::parse_segment(s) {
            lemma_segments(rest, (n - 1) as nat, more);
        }
    }
}

proof fn lemma_light(s: Seq<u8>, present: bool, more: Seq<u8>)
    ensures
        continues(layout::parse_light(s, present), layout::parse_light(s + more, present), more),
{
    lemma_take(s, super::LIGHT_ARRAY_SIZE as nat, more);
}

proof fn lemma_lights(s: Seq<u8>, flags: u8, more: Seq<u8>)
    ensures
        continues(layout::parse_lights(s, flags), layout::parse_lights(s + more, flags), more),
{
    lemma_light(s, layout::flag_set(flags, 1), more);
    if let Ok((_, rest)) = layout::parse_light(s, layout::flag_set(flags, 1)) {
        lemma_light(rest, layout::flag_set(flags, 2), more);
    }
}

proof fn lemma_pair(s: Seq<u8>, more: Seq<u8>)
    ensures
        continues(layout::parse_pair(s), layout::parse_pair(s + more), more),
{
    lemma_segment(s, more);
    if let Ok((_, rest)) = layout::parse_segment(s) {
        lemma_segment(rest, more);
    }
}

pub(crate) proof fn lemma_section(s: Seq<u8>, more: Seq<u8>)
    ensures
        continues(layout::parse_section(s), layout::parse_section(s + more), more),
{
    lemma_u8(s, more);
    if let Ok((flags, rest)) = layout::parse_u8(s) {
        lemma_lights(rest, flags, more);
        if let Ok((_, rest)) = layout::parse_lights(rest, flags) {
            lemma_pair(rest, more);
        }
    }
}

proof fn lemma_sections(s: Seq<u8>, n: nat, more: Seq<u8>)
    ensures
        continues(layout::parse_sections(s, n), layout::parse_sections(s + more, n), more),
    decreases n,
{
    if n > 0 {
        lemma_section(s, more);
        if let Ok((_, rest)) = layout::parse_section(s) {
            lemma_sections(rest, (n - 1) as nat, more);
        }
    }
}

proof fn lemma_coordinates(s: Seq<u8>, more: Seq<u8>)
    ensures
        continues(layout::parse_coordinates(s), layout::parse_coordinates(s + more), more),
{
    lemma_i32(s, more);
    if let Ok((_, rest)) = layout::parse_i32(s) {
        lemma_i32(rest, more);
    }
}

proof fn lemma_section_list(s: Seq<u8>, more: Seq<u8>)
    ensures
        continues(layout::parse_section_list(s), layout::parse_section_list(s + more), more),
{
    let reason = "negative section count"@;
    lemma_count(s, reason, more);
    if let Ok((n, rest)) = layout::parse_count(s, reason) {
        lemma_sections(rest, n, more);
    }
}

proof fn lemma_additional(s: Seq<u8>, flags: u8, more: Seq<u8>)
    ensures
        continues(
            layout::parse_additional(s, flags),
            layout::parse_additional(s + more, flags),
            more,
        ),
{
    let poi = layout::flag_set(flags, super::FLAG_POI);
    let block_ticks = layout::flag_set(flags, super::FLAG_BLOCK_TICKS);
    let fluid_ticks = layout::flag_set(flags, super::FLAG_FLUID_TICKS);
    lemma_optional(s, poi, more);
    if let Ok((_, rest)) = layout::parse_optional(s, poi) {
        lemma_optional(rest, block_ticks, more);
        if let Ok((_, rest)) = layout::parse_optional(rest, block_ticks) {
            lemma_optional(rest, fluid_ticks, more);
            if let Ok((_, rest)) = layout::parse_optional(rest, fluid_ticks) {
                lemma_segments(rest, layout::unknown_segments(flags), more);
            }
        }
    }
}

proof fn lemma_entities(s: Seq<u8>, more: Seq<u8>)
    ensures
        continues(layout::parse_entities(s), layout::parse_entities(s + more), more),
{
    lemma_pair(s, more);
    if let Ok((_, rest)) = layout::parse_pair(s) {
        lemma_segment(rest, more);
    }
}

pub(crate) proof fn lemma_chunk(s: Seq<u8>, flags: u8, more: Seq<u8>)
    ensures
        continues(layout::parse_chunk(s, flags), layout::parse_chunk(s + more, flags), more),
{
    lemma_coordinates(s, more);
    if let Ok((_, rest)) = layout::parse_coordinates(s) {
        lemma_section_list(rest, more);
        if let Ok((_, rest)) = layout::parse_section_list(rest) {
            lemma_segment(rest, more);
            if let Ok((_, rest)) = layout::parse_segment(rest) {
                lemma_additional(rest, flags, more);
                if let Ok((_, rest)) = layout::parse_additional(rest, flags) {
                    lemma_entities(rest, more);
                }
            }
        }
    }
}

proof fn lemma_chunk_run(s: Seq<u8>, flags: u8, n: nat, more: Seq<u8>)
    ensures
        continues(
            layout::parse_chunk_run(s, flags, n),
            layout::parse_chunk_run(s + more, flags, n),
            more,
        ),
    decreases n,
{
    if n > 0 {
        lemma_chunk(s, flags, more);
        if let Ok((_, rest)) = layout::parse_chunk(s, flags) {
            lemma_chunk_run(rest, flags, (n - 1) as nat, more);
        }
    }
}

/// Bytes behind a chunk stream change nothing about what is read from it.
pub proof fn law_chunks_continue(s: Seq<u8>, flags: u8, more: Seq<u8>)
    ensures
        continues(layout::parse_chunks(s, flags), layout::parse_chunks(s + more, flags), more),
{
    let reason = "negative chunk count"@;
    lemma_count(s, reason, more);
    if let Ok((n, rest)) = layout::parse_count(s, reason) {
        lemma_chunk_run(rest, flags, n, more);
    }
}

proof fn lemma_block(s: Seq<u8>, more: Seq<u8>)
    ensures
        continues(layout::parse_block(s), layout::parse_block(s + more), more),
{
    lemma_i32(s, more);
    if let Ok((n, rest)) = layout::parse_i32(s) {
        lemma_i32(rest, more);
        if let Ok((_, rest)) = layout::parse_i32(rest) {
            if n >= 0 {
                lemma_take(rest, n as nat, more);
            }
        }
    }
}

proof fn lemma_header(s: Seq<u8>, more: Seq<u8>)
    ensures
        continues(layout::parse_header(s), layout::parse_header(s + more), more),
{
    lemma_take(s, 2, more);
    if let Ok((_, rest)) = layout::parse_take(s, 2) {
        lemma_u8(rest, more);
        if let Ok((_, rest)) = layout::parse_u8(rest) {
            lemma_i32(rest, more);
            if let Ok((_, rest)) = layout::parse_i32(rest) {
                lemma_u8(rest, more);
            }
        }
    }
}

/// A reader that read all it needs from `s` reports the end of the data when
/// some of that is cut off.
proof fn lemma_cut_short<T>(
    whole: Parsed<T>,
    cut: Parsed<T>,
    s: Seq<u8>,
    k: int,
    rest: Seq<u8>,
)
    requires
        0 <= k <= s.len(),
        continues(cut, whole, s.skip(k)),
        whole matches Ok((_, r)) && r == rest,
        k < s.len() - rest.len(),
    ensures
        cut == Err::<(T, Seq<u8>), SlimeFailure>(SlimeFailure::Truncated),
{
    if let Ok((_, r)) = cut {
        assert((r + s.skip(k)).len() >= s.len() - k);
    }
}

/// A chunk stream that is cut short anywhere is reported as truncated.
pub proof fn law_cut_chunks_are_truncated(s: Seq<u8>, flags: u8, k: int)
    requires
        layout::parse_chunks(s, flags) is Ok,
        0 <= k < s.len() - layout::parse_chunks(s, flags)->Ok_0.1.len(),
    ensures
        layout::parse_chunks(s.take(k), flags) is Err,
        layout::parse_chunks(s.take(k), flags)->Err_0 == SlimeFailure::Truncated,
{
    assert(s.take(k) + s.skip(k) =~= s);
    law_chunks_continue(s.take(k), flags, s.skip(k));
    lemma_cut_short(
        layout::parse_chunks(s, flags),
        layout::parse_chunks(s.take(k), flags),
        s,
        k,
        layout::parse_chunks(s, flags)->Ok_0.1,
    );
}

/// `cut` is what a reader that made `whole` of `s` makes of the first `k` bytes,
/// if they hold all that it needs: the same value, and what is left of the rest.
spec fn suffices<T>(whole: Parsed<T>, cut: Parsed<T>, s: Seq<u8>, k: int) -> bool {
    whole matches Ok((value, rest)) ==> {
        &&& rest.len() <= s.len()
        &&& k >= s.len() - rest.len() ==> cut == Ok::<(T, Seq<u8>), SlimeFailure>(
            (value, rest.take(k - (s.len() - rest.len()))),
        )
    }
}

proof fn lemma_u8_suffices(s: Seq<u8>, k: int)
    requires
        0 <= k <= s.len(),
    ensures
        suffices(layout::parse_u8(s), layout::parse_u8(s.take(k)), s, k),
{
    if k >= 1 {
        assert(s.take(k).skip(1) =~= s.skip(1).take(k - 1));
    }
}

proof fn lemma_i32_suffices(s: Seq<u8>, k: int)
    requires
        0 <= k <= s.len(),
    ensures
        suffices(layout::parse_i32(s), layout::parse_i32(s.take(k)), s, k),
{
    if k >= 4 {
        assert(s.take(k).skip(4) =~= s.skip(4).take(k - 4));
        assert(s.take(k) + s.skip(k) =~= s);
        lemma_be_value_front(s.take(k), s.skip(k));
    }
}

proof fn lemma_take_suffices(s: Seq<u8>, n: nat, k: int)
    requires
        0 <= k <= s.len(),
    ensures
        suffices(layout::parse_take(s, n), layout::parse_take(s.take(k), n), s, k),
{
    if s.len() >= n && k >= n {
        assert(s.take(k).take(n as int) =~= s.take(n as int));
        assert(s.take(k).skip(n as int) =~= s.skip(n as int).take(k - n));
    }
}

proof fn lemma_header_suffices(s: Seq<u8>, k: int)
    requires
        0 <= k <= s.len(),
    ensures
        suffices(layout::parse_header(s), layout::parse_header(s.take(k)), s, k),
{
    if layout::parse_header(s) is Ok && k >= 8 {
        let (_, after_magic) = layout::parse_take(s, 2)->Ok_0;
        let (_, after_version) = layout::parse_u8(after_magic)->Ok_0;
        let (_, after_world) = layout::parse_i32(after_version)->Ok_0;
        lemma_take_suffices(s, 2, k);
        lemma_u8_suffices(after_magic, k - 2);
        lemma_i32_suffices(after_version, k - 3);
        lemma_u8_suffices(after_world, k - 7);
    }
}

proof fn lemma_block_suffices(s: Seq<u8>, k: int)
    requires
        0 <= k <= s.len(),
    ensures
        suffices(layout::parse_block(s), layout::parse_block(s.take(k)), s, k),
{
    if layout::parse_block(s) is Ok && k >= 8 {
        let (n, after_len) = layout::parse_i32(s)->Ok_0;
        let (_, after_raw) = layout::parse_i32(after_len)->Ok_0;
        lemma_i32_suffices(s, k);
        lemma_i32_suffices(after_len, k - 4);
        lemma_take_suffices(after_raw, n as nat, k - 8);
    }
}

/// How many bytes the header and the chunk payload of a file take.
pub open spec fn essential_len(s: Seq<u8>) -> int {
    match layout::parse_header(s) {
        Ok((_, rest)) => match layout::parse_block(rest) {
            Ok((_, rest)) => s.len() - rest.len(),
            Err(_) => s.len() as int,
        },
        Err(_) => s.len() as int,
    }
}

/// A file that is cut short within its header or its chunk payload is reported
/// as truncated. One that is cut behind them still has its version, its flags
/// and its chunks.
pub proof fn law_cut_file(s: Seq<u8>, k: int)
    requires
        layout::parse_world(s) is Ok,
        0 <= k <= s.len(),
    ensures
        k < essential_len(s) ==> layout::parse_world(s.take(k)) == Err::<WorldView, SlimeFailure>(
            SlimeFailure::Truncated,
        ),
        k >= essential_len(s) ==> {
            let whole = layout::parse_world(s)->Ok_0;
            layout::parse_world(s.take(k)) matches Ok(world) && world.world_version
                == whole.world_version && world.flags == whole.flags && world.chunks
                == whole.chunks
        },
{
    let more = s.skip(k);
    let front = s.take(k);
    let (_, rest) = layout::parse_header(s)->Ok_0;
    let (_, last) = layout::parse_block(rest)->Ok_0;
    let header_len = s.len() - rest.len();
    assert(front + more =~= s);
    lemma_header_suffices(s, k);
    lemma_block_suffices(rest, 0);
    if k < header_len {
        lemma_header(front, more);
        lemma_cut_short(layout::parse_header(s), layout::parse_header(front), s, k, rest);
    } else {
        let front_rest = rest.take(k - header_len);
        lemma_block_suffices(rest, k - header_len);
        if k < essential_len(s) {
            assert(front_rest + rest.skip(k - header_len) =~= rest);
            lemma_block(front_rest, rest.skip(k - header_len));
            lemma_cut_short(
                layout::parse_block(rest),
                layout::parse_block(front_rest),
                rest,
                k - header_len,
                last,
            );
        }
    }
}

/// Whatever stands behind the header and the chunk payload of a file, the file
/// is read with the same version, flags and chunks. Where it is no payload, the
/// "extra" is empty.
pub proof fn law_extra_is_optional(s: Seq<u8>, tail: Seq<u8>)
    requires
        layout::parse_world(s) is Ok,
    ensures
        layout::parse_world(s.take(essential_len(s)) + tail) == Ok::<WorldView, SlimeFailure>(
            (WorldView {
                extra: layout::extra_or_empty(layout::parse_block(tail)),
                ..layout::parse_world(s)->Ok_0
            }),
        ),
        layout::parse_block(tail) is Err ==> layout::parse_world(
            s.take(essential_len(s)) + tail,
        )->Ok_0.extra.len() == 0,
{
    let k = essential_len(s);
    let front = s.take(k);
    let (_, rest) = layout::parse_header(s)->Ok_0;
    let header_len = s.len() - rest.len();
    lemma_header_suffices(s, k);
    lemma_block_suffices(rest, 0);
    let front_rest = rest.take(k - header_len);
    lemma_block_suffices(rest, k - header_len);
    lemma_header(front, tail);
    lemma_block(front_rest, tail);
    let (_, none) = layout::parse_block(front_rest)->Ok_0;
    assert(none.len() == 0);
    assert(none + tail =~= tail);
}

/// A segment or a section that is cut short anywhere is reported as truncated.
pub proof fn law_cut_parts_are_truncated(s: Seq<u8>, k: int)
    requires
        0 <= k <= s.len(),
    ensures
        layout::parse_segment(s) matches Ok((_, rest)) ==> (k < s.len() - rest.len()
            ==> layout::parse_segment(s.take(k)) == Err::<(Seq<u8>, Seq<u8>), SlimeFailure>(
            SlimeFailure::Truncated,
        )),
        layout::parse_section(s) matches Ok((_, rest)) ==> (k < s.len() - rest.len()
            ==> layout::parse_section(s.take(k)) == Err::<(SectionView, Seq<u8>), SlimeFailure>(
            SlimeFailure::Truncated,
        )),
{
    assert(s.take(k) + s.skip(k) =~= s);
    lemma_segment(s.take(k), s.skip(k));
    lemma_section(s.take(k), s.skip(k));
    if let Ok((_, rest)) = layout::parse_segment(s) {
        if k < s.len() - rest.len() {
            lemma_cut_short(
                layout::parse_segment(s),
                layout::parse_segment(s.take(k)),
                s,
                k,
                rest,
            );
        }
    }
    if let Ok((_, rest)) = layout::parse_section(s) {
        if k < s.len() - rest.len() {
            lemma_cut_short(
                layout::parse_section(s),
                layout::parse_section(s.take(k)),
                s,
                k,
                rest,
            );
        }
    }
}

} // verus!
