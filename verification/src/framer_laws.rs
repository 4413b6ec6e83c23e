//! What holds of fragmenting and reassembling together.
//!
//! The fragments of one message, handed to an empty buffer in any order,
//! each once and in good time, give nothing upstream until the last of them
//! is in, and then give the message. Whatever the order, the repetitions and
//! the ticks, a run that leaves a fragment out never gives a message.

use vstd::prelude::*;
use vstd::set_lib::{lemma_int_range, lemma_len_subset, lemma_subset_equality, set_int_range};
use crate::clock::deadline_spec;
use crate::error::ChannelError;
use crate::framer::{
    assemble_spec, chunk_spec, chunk_start, fragment_count, fragment_spec, lemma_chunks_tile,
    link_usable, message_fits, piece_spec, Buffer, Piece, FIRST_HEADER_LEN, NEXT_HEADER_LEN,
};
use crate::wire::{be16, be32, lemma_be16_round_trip, lemma_be32_round_trip};

verus! {

/// An empty buffer.
pub open spec fn fresh_spec(max_write: int, stale_after: u64) -> Buffer {
    Buffer { max_write, stale_after, chunks: Map::empty(), total: None, deadline: 0 }
}

/// The fragments of `message` in the order in which `order` lists their
/// indices.
pub open spec fn arrivals_spec(message: Seq<u8>, max_write: int, order: Seq<int>) -> Seq<Seq<u8>> {
    order.map_values(|i: int| fragment_spec(message, max_write, i))
}

/// The buffer after the first `k` of `inputs` have arrived, each at its tick.
pub open spec fn after_spec(start: Buffer, inputs: Seq<Seq<u8>>, ticks: Seq<u64>, k: int) -> Buffer
    decreases k,
{
    if k <= 0 {
        start
    } else {
        after_spec(start, inputs, ticks, k - 1).accept_spec(inputs[k - 1], ticks[k - 1]).0
    }
}

/// What the arrival of `inputs[k]` hands upstream, after those before it.
pub open spec fn outcome_spec(
    start: Buffer,
    inputs: Seq<Seq<u8>>,
    ticks: Seq<u64>,
    k: int,
) -> Result<Option<Seq<u8>>, ChannelError> {
    after_spec(start, inputs, ticks, k).accept_spec(inputs[k], ticks[k]).1
}

/// Whether every arrival is in time for the buffer that the first one
/// starts.
pub open spec fn in_good_time(ticks: Seq<u64>, stale_after: u64) -> bool {
    forall|k: int|
        0 <= k < ticks.len() ==> #[trigger] ticks[k] <= deadline_spec(ticks[0], stale_after)
}

/// Whether `order` lists fragment indices of a message of `count` fragments,
/// none of them twice.
pub open spec fn distinct_indices(order: Seq<int>, count: int) -> bool {
    &&& order.no_duplicates()
    &&& forall|j: int| 0 <= j < order.len() ==> 0 <= #[trigger] order[j] < count
}

/// The buffer that holds the chunks of the first `k` fragments of `order`.
spec fn partial_spec(
    message: Seq<u8>,
    max_write: int,
    stale_after: u64,
    ticks: Seq<u64>,
    order: Seq<int>,
    k: int,
) -> Buffer {
    Buffer {
        max_write,
        stale_after,
        chunks: Map::new(
            |i: int| order.take(k).contains(i),
            |i: int| chunk_spec(message, max_write, i),
        ),
        total: if order.take(k).contains(0) {
            Some(message.len() as int)
        } else {
            None
        },
        deadline: if k <= 0 {
            0
        } else {
            deadline_spec(ticks[0], stale_after)
        },
    }
}

/// A fragment says of itself what it was made from.
pub proof fn lemma_piece_of_fragment(message: Seq<u8>, max_write: int, index: int)
    requires
        link_usable(max_write),
        message_fits(message.len() as int, max_write),
        0 <= index < fragment_count(message.len() as int, max_write),
    ensures
        piece_spec(fragment_spec(message, max_write, index)) == Some(
            Piece {
                index,
                total: if index == 0 {
                    Some(message.len() as int)
                } else {
                    None
                },
                chunk: chunk_spec(message, max_write, index),
            },
        ),
{
    let fragment = fragment_spec(message, max_write, index);
    let chunk = chunk_spec(message, max_write, index);
    lemma_be16_round_trip(index as u16);
    lemma_be32_round_trip(message.len() as u32);
    assert(fragment.subrange(0, 2) =~= be16(index as u16));
    if index == 0 {
        assert(fragment.subrange(2, 6) =~= be32(message.len() as u32));
        assert(fragment.subrange(FIRST_HEADER_LEN as int, fragment.len() as int) =~= chunk);
    } else {
        assert(fragment.subrange(NEXT_HEADER_LEN as int, fragment.len() as int) =~= chunk);
    }
}

/// The chunks of the first `k` fragments in a row are the message up to where
/// fragment `k` starts; those of all fragments are the message.
pub proof fn lemma_assemble_chunks(
    message: Seq<u8>,
    max_write: int,
    chunks: Map<int, Seq<u8>>,
    k: int,
)
    requires
        link_usable(max_write),
        0 <= k <= fragment_count(message.len() as int, max_write),
        forall|i: int| 0 <= i < k ==> #[trigger] chunks[i] == chunk_spec(message, max_write, i),
    ensures
        assemble_spec(chunks, k) == message.subrange(
            0,
            chunk_start(message.len() as int, max_write, k),
        ),
        k == fragment_count(message.len() as int, max_write) ==> assemble_spec(chunks, k)
            == message,
    decreases k,
{
    let total = message.len() as int;
    if k > 0 {
        lemma_assemble_chunks(message, max_write, chunks, k - 1);
        lemma_chunks_tile(total, max_write, k - 1);
        assert(chunks[k - 1] == chunk_spec(message, max_write, k - 1));
        assert(assemble_spec(chunks, k) =~= message.subrange(
            0,
            chunk_start(total, max_write, k),
        ));
        if k == fragment_count(total, max_write) {
            assert(message.subrange(0, total) =~= message);
        }
    } else {
        assert(assemble_spec(chunks, k) =~= message.subrange(0, 0));
    }
}

/// Of `count` possible indices, the first `j` of `order` hold every one exactly
/// when `j` is `count`.
proof fn lemma_all_arrived(order: Seq<int>, count: int, j: int)
    requires
        distinct_indices(order, count),
        0 <= j <= order.len(),
        0 <= count,
    ensures
        j <= count,
        (forall|i: int| 0 <= i < count ==> order.take(j).contains(i)) <==> j == count,
{
    broadcast use vstd::seq_lib::seq_to_set_is_finite;

    let prefix = order.take(j);
    let arrived = prefix.to_set();
    let all = set_int_range(0, count);
    assert(prefix.no_duplicates());
    prefix.unique_seq_to_set();
    lemma_int_range(0, count);
    assert(arrived.subset_of(all)) by {
        assert forall|i: int| arrived.contains(i) implies all.contains(i) by {
            let at = choose|at: int| 0 <= at < prefix.len() && prefix[at] == i;
            assert(prefix[at] == order[at]);
        }
    }
    lemma_len_subset(arrived, all);
    if j == count {
        lemma_subset_equality(arrived, all);
        assert forall|i: int| 0 <= i < count implies prefix.contains(i) by {
            assert(all.contains(i));
            assert(arrived.contains(i));
        }
    }
    if forall|i: int| 0 <= i < count ==> prefix.contains(i) {
        assert(all.subset_of(arrived)) by {
            assert forall|i: int| all.contains(i) implies arrived.contains(i) by {
                assert(prefix.contains(i));
            }
        }
        lemma_len_subset(all, arrived);
    }
}

/// One more fragment of the order: nothing comes out before the last one, and
/// the message comes out with it.
proof fn lemma_step(
    message: Seq<u8>,
    max_write: int,
    stale_after: u64,
    ticks: Seq<u64>,
    order: Seq<int>,
    k: int,
)
    requires
        link_usable(max_write),
        message_fits(message.len() as int, max_write),
        distinct_indices(order, fragment_count(message.len() as int, max_write)),
        ticks.len() == order.len(),
        in_good_time(ticks, stale_after),
        0 <= k < order.len(),
    ensures
        k + 1 <= fragment_count(message.len() as int, max_write),
        partial_spec(message, max_write, stale_after, ticks, order, k).accept_spec(
            arrivals_spec(message, max_write, order)[k],
            ticks[k],
        ) == if k + 1 == fragment_count(message.len() as int, max_write) {
            (fresh_spec(max_write, stale_after), Ok::<Option<Seq<u8>>, ChannelError>(Some(message)))
        } else {
            (
                partial_spec(message, max_write, stale_after, ticks, order, k + 1),
                Ok::<Option<Seq<u8>>, ChannelError>(None),
            )
        },
{
    let total = message.len() as int;
    let count = fragment_count(total, max_write);
    let now = ticks[k];
    let s = partial_spec(message, max_write, stale_after, ticks, order, k);
    let next = partial_spec(message, max_write, stale_after, ticks, order, k + 1);
    let index = order[k];
    let shorter = order.take(k);
    let longer = order.take(k + 1);
    let input = arrivals_spec(message, max_write, order)[k];
    assert(input == fragment_spec(message, max_write, index));
    lemma_piece_of_fragment(message, max_write, index);
    let piece = piece_spec(input).unwrap();
    lemma_all_arrived(order, count, k + 1);

    // The buffer is not stale: it is empty, or began to fill at this tick.
    if k == 0 {
        assert(s.chunks =~= Map::<int, Seq<u8>>::empty());
    } else {
        assert(shorter[0] == order[0]);
        assert(shorter.contains(order[0]));
        assert(s.chunks.contains_key(order[0]));
    }
    assert(s.is_empty() <==> k == 0);
    assert(s.expired(now) == s);

    // The fragment has not arrived before.
    if shorter.contains(index) {
        let at = choose|at: int| 0 <= at < shorter.len() && shorter[at] == index;
        assert(order[at] == order[k]);
    }
    assert(!s.chunks.contains_key(index));

    // With it the buffer holds the first `k + 1` of the order.
    let after = s.placed(piece, now);
    assert forall|i: int| longer.contains(i) <==> (shorter.contains(i) || i
        == index) by {
        if longer.contains(i) {
            let at = choose|at: int|
                0 <= at < longer.len() && longer[at] == i;
            if at < k {
                assert(shorter[at] == i);
            }
        }
        if shorter.contains(i) {
            let at = choose|at: int| 0 <= at < shorter.len() && shorter[at] == i;
            assert(longer[at] == i);
        }
        if i == index {
            assert(longer[k] == i);
        }
    }
    assert(after.chunks =~= next.chunks);
    assert(after == next);

    // Nothing lies beyond the message.
    assert(!after.holds_beyond(count)) by {
        if after.holds_beyond(count) {
            let i = choose|i: int| i >= count && after.chunks.contains_key(i);
            let at = choose|at: int|
                0 <= at < longer.len() && longer[at] == i;
            assert(order[at] == i);
        }
    }
    assert(after.holds_all(count) <==> k + 1 == count) by {
        if after.holds_all(count) {
            assert forall|i: int| 0 <= i < count implies longer.contains(i) by {
                assert(after.chunks.contains_key(i));
            }
        }
        if k + 1 == count {
            assert forall|i: int| 0 <= i < count implies after.chunks.contains_key(i) by {
                assert(longer.contains(i));
            }
        }
    }
    if k + 1 == count {
        assert(after.chunks.contains_key(0));
        lemma_assemble_chunks(message, max_write, after.chunks, count);
        assert(s.cleared() == fresh_spec(max_write, stale_after));
    }
}

/// The buffer after the first `k` fragments of the order, while one is still
/// missing.
proof fn lemma_partial_state(
    message: Seq<u8>,
    max_write: int,
    stale_after: u64,
    ticks: Seq<u64>,
    order: Seq<int>,
    k: int,
)
    requires
        link_usable(max_write),
        message_fits(message.len() as int, max_write),
        distinct_indices(order, fragment_count(message.len() as int, max_write)),
        ticks.len() == order.len(),
        in_good_time(ticks, stale_after),
        0 <= k <= order.len(),
        k < fragment_count(message.len() as int, max_write),
    ensures
        after_spec(
            fresh_spec(max_write, stale_after),
            arrivals_spec(message, max_write, order),
            ticks,
            k,
        ) == partial_spec(message, max_write, stale_after, ticks, order, k),
    decreases k,
{
    if k == 0 {
        assert(partial_spec(message, max_write, stale_after, ticks, order, k).chunks
            =~= Map::<int, Seq<u8>>::empty());
    } else {
        lemma_partial_state(message, max_write, stale_after, ticks, order, k - 1);
        lemma_step(message, max_write, stale_after, ticks, order, k - 1);
    }
}

/// Reassembly in any order.
///
/// Cut `message` up for a link, and hand some of its fragments, each at most
/// once and in any order, to an empty buffer, all before the buffer goes
/// stale. Every arrival but that of the last missing fragment gives
/// `Ok(None)`; the arrival that makes the set complete gives the message
/// itself.
pub proof fn lemma_reassembly_any_order(
    message: Seq<u8>,
    max_write: int,
    stale_after: u64,
    ticks: Seq<u64>,
    order: Seq<int>,
    k: int,
)
    requires
        link_usable(max_write),
        message_fits(message.len() as int, max_write),
        distinct_indices(order, fragment_count(message.len() as int, max_write)),
        ticks.len() == order.len(),
        in_good_time(ticks, stale_after),
        0 <= k < order.len(),
    ensures
        order.len() <= fragment_count(message.len() as int, max_write),
        outcome_spec(
            fresh_spec(max_write, stale_after),
            arrivals_spec(message, max_write, order),
            ticks,
            k,
        ) == if k + 1 == fragment_count(message.len() as int, max_write) {
            Ok::<Option<Seq<u8>>, ChannelError>(Some(message))
        } else {
            Ok::<Option<Seq<u8>>, ChannelError>(None)
        },
{
    let count = fragment_count(message.len() as int, max_write);
    lemma_all_arrived(order, count, order.len() as int);
    lemma_partial_state(message, max_write, stale_after, ticks, order, k);
    lemma_step(message, max_write, stale_after, ticks, order, k);
}

/// Whether a buffer holds nothing of fragment `missing` and knows no other
/// total than that of `message`.
pub open spec fn lacks(s: Buffer, message: Seq<u8>, max_write: int, missing: int) -> bool {
    &&& s.max_write == max_write
    &&& !s.chunks.contains_key(missing)
    &&& missing == 0 ==> s.total is None
    &&& s.total is Some ==> s.total == Some(message.len() as int)
}

/// A buffer that lacks a fragment still lacks it after any other fragment of
/// the message has arrived, and gives no message on that arrival.
proof fn lemma_still_lacking(
    s: Buffer,
    message: Seq<u8>,
    max_write: int,
    missing: int,
    index: int,
    now: u64,
)
    requires
        link_usable(max_write),
        message_fits(message.len() as int, max_write),
        0 <= missing < fragment_count(message.len() as int, max_write),
        0 <= index < fragment_count(message.len() as int, max_write),
        index != missing,
        lacks(s, message, max_write, missing),
    ensures
        lacks(
            s.accept_spec(fragment_spec(message, max_write, index), now).0,
            message,
            max_write,
            missing,
        ),
        !(s.accept_spec(fragment_spec(message, max_write, index), now).1 matches Ok(Some(_))),
{
    lemma_piece_of_fragment(message, max_write, index);
    let before = s.expired(now);
    let piece = piece_spec(fragment_spec(message, max_write, index)).unwrap();
    let after = before.placed(piece, now);
    assert(!after.chunks.contains_key(missing));
}

/// A run that leaves a fragment out never completes.
///
/// Hand fragments of `message` to an empty buffer, in any order, any number
/// of times and at any ticks, but never the fragment `missing`. No arrival
/// gives a message: each gives `Ok(None)` or an error, and nothing of the
/// message goes upstream.
pub proof fn lemma_missing_fragment_never_completes(
    message: Seq<u8>,
    max_write: int,
    stale_after: u64,
    ticks: Seq<u64>,
    order: Seq<int>,
    missing: int,
    k: int,
)
    requires
        link_usable(max_write),
        message_fits(message.len() as int, max_write),
        0 <= missing < fragment_count(message.len() as int, max_write),
        forall|j: int|
            0 <= j < order.len() ==> 0 <= #[trigger] order[j] < fragment_count(
                message.len() as int,
                max_write,
            ) && order[j] != missing,
        ticks.len() == order.len(),
        0 <= k < order.len(),
    ensures
        lacks(
            after_spec(
                fresh_spec(max_write, stale_after),
                arrivals_spec(message, max_write, order),
                ticks,
                k,
            ),
            message,
            max_write,
            missing,
        ),
        !(outcome_spec(
            fresh_spec(max_write, stale_after),
            arrivals_spec(message, max_write, order),
            ticks,
            k,
        ) matches Ok(Some(_))),
    decreases k,
{
    let start = fresh_spec(max_write, stale_after);
    let inputs = arrivals_spec(message, max_write, order);
    if k > 0 {
        lemma_missing_fragment_never_completes(
            message,
            max_write,
            stale_after,
            ticks,
            order,
            missing,
            k - 1,
        );
        lemma_still_lacking(
            after_spec(start, inputs, ticks, k - 1),
            message,
            max_write,
            missing,
            order[k - 1],
            ticks[k - 1],
        );
    }
    lemma_still_lacking(
        after_spec(start, inputs, ticks, k),
        message,
        max_write,
        missing,
        order[k],
        ticks[k],
    );
}

} // verus!
