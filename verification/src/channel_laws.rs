//! What holds of a channel over its life.
//!
//! Every request that a channel takes in is resolved exactly once. A request
//! is live from the moment it is taken in until an action resolves it; it
//! leaves in no other way, no action resolves a request that is not live, and
//! the first event after its deadline resolves it at the latest. While one
//! request is in flight no other goes out, and each command that goes out
//! carries the counter after the one before it. A reply resolves only the
//! request that went out under the counter that it names: a late reply
//! resolves nothing.

use vstd::prelude::*;
use crate::codec::{envelope_of, Domain, EnvelopeView};
use crate::wire::{be16, be64, lemma_be16_round_trip, lemma_be64_round_trip};
use crate::channel_model::{
    inbound_spec, kept_spec, last_counter_spec, lemma_purge_keeps_wf, rejected, response_spec,
    timeouts_spec, ActionView, ChannelView, InboundView, Oracle, Outcome, QueuedView,
    OP_RESPONSE, REPLY_HEADER_LEN,
};
use crate::error::ChannelError;
use crate::framer::fragments_spec;
use crate::negotiator::{destroys_session, State};
use crate::session::{signed_spec, SignedView};
use crate::negotiator_laws::{lemma_step_keeps_wf, Event, Input};

verus! {

/// Whether a request of this number waits in the queue.
pub open spec fn waits(queue: Seq<QueuedView>, id: u64) -> bool {
    exists|k: int| 0 <= k < queue.len() && (#[trigger] queue[k]).id == id
}

/// Whether a request of this number is live: in flight, or waiting.
pub open spec fn is_live(v: ChannelView, id: u64) -> bool {
    (v.pending matches Some(p) && p.id == id) || waits(v.queue, id)
}

/// Whether one of the actions resolves the request of this number.
pub open spec fn resolves(actions: Seq<ActionView>, id: u64) -> bool {
    exists|a: int|
        0 <= a < actions.len() && (#[trigger] actions[a]) is Resolve && actions[a]->request == id
}

/// Whether no live request is past its deadline at tick `now`.
pub open spec fn in_time(v: ChannelView, now: u64) -> bool {
    &&& v.pending matches Some(p) ==> now <= p.deadline
    &&& forall|k: int| 0 <= k < v.queue.len() ==> now <= (#[trigger] v.queue[k]).deadline
}

/// What an event does to the requests of a channel.
///
/// The channel stays well formed. At most the request `fresh` joins, under
/// the next number. A request is live afterwards only if it was live before
/// or has just joined; one that is no longer live was resolved by one of the
/// actions; and every action that resolves a request resolves one that was
/// live or has just joined, that is no longer live, and that no other of the
/// actions resolves. Where no request joins, none is live afterwards that is
/// past a deadline that none was past before.
pub open spec fn settles(
    before: ChannelView,
    after: ChannelView,
    actions: Seq<ActionView>,
    fresh: Option<u64>,
) -> bool {
    &&& after.wf()
    &&& match fresh {
        Some(id) => id == before.next_id && after.next_id == before.next_id + 1,
        None => after.next_id == before.next_id,
    }
    &&& forall|id: u64| #[trigger] is_live(after, id) ==> is_live(before, id) || fresh == Some(id)
    &&& forall|id: u64| #[trigger]
        is_live(before, id) ==> is_live(after, id) || resolves(actions, id)
    &&& fresh matches Some(id) ==> is_live(after, id) || resolves(actions, id)
    &&& forall|a: int|
        0 <= a < actions.len() && (#[trigger] actions[a]) is Resolve ==> {
            &&& is_live(before, actions[a]->request) || fresh == Some(actions[a]->request)
            &&& !is_live(after, actions[a]->request)
        }
    &&& forall|a: int, b: int|
        0 <= a < b < actions.len() && (#[trigger] actions[a]) is Resolve && (
        #[trigger] actions[b]) is Resolve ==> actions[a]->request != actions[b]->request
    &&& fresh is None ==> forall|t: u64| #[trigger] in_time(before, t) ==> in_time(after, t)
}

/// Every live request has a number below the next one.
pub proof fn lemma_live_is_numbered(v: ChannelView, id: u64)
    requires
        v.wf(),
        is_live(v, id),
    ensures
        id < v.next_id,
{
    if !(v.pending matches Some(p) && p.id == id) {
        let k = choose|k: int| 0 <= k < v.queue.len() && (#[trigger] v.queue[k]).id == id;
    }
}

/// Two events one after the other settle what each of them settles.
pub proof fn lemma_settles_in_turn(
    v0: ChannelView,
    v1: ChannelView,
    v2: ChannelView,
    first: Seq<ActionView>,
    second: Seq<ActionView>,
    fresh: Option<u64>,
    later: Option<u64>,
)
    requires
        v0.wf(),
        settles(v0, v1, first, fresh),
        settles(v1, v2, second, later),
        fresh is None || later is None,
    ensures
        settles(
            v0,
            v2,
            first + second,
            if fresh is Some {
                fresh
            } else {
                later
            },
        ),
{
    let all = first + second;
    let joined = if fresh is Some {
        fresh
    } else {
        later
    };
    assert forall|a: int| 0 <= a < all.len() && (#[trigger] all[a]) is Resolve implies {
        &&& is_live(v0, all[a]->request) || joined == Some(all[a]->request)
        &&& !is_live(v2, all[a]->request)
    } by {
        if a < first.len() {
            assert(all[a] == first[a]);
        } else {
            assert(all[a] == second[a - first.len()]);
        }
    }
    assert forall|a: int, b: int|
        0 <= a < b < all.len() && (#[trigger] all[a]) is Resolve && (
        #[trigger] all[b]) is Resolve implies all[a]->request != all[b]->request by {
        if b < first.len() {
            assert(all[a] == first[a] && all[b] == first[b]);
        } else if a >= first.len() {
            assert(all[a] == second[a - first.len()]);
            assert(all[b] == second[b - first.len()]);
        } else {
            assert(all[a] == first[a]);
            assert(all[b] == second[b - first.len()]);
            if later == Some(all[b]->request) {
                if is_live(v0, all[a]->request) {
                    lemma_live_is_numbered(v0, all[a]->request);
                }
            }
        }
    }
    assert forall|id: u64| #[trigger] is_live(v0, id) implies is_live(v2, id) || resolves(
        all,
        id,
    ) by {
        lemma_resolves_either(first, second, id);
        if is_live(v1, id) {
            assert(is_live(v2, id) || resolves(second, id));
        }
    }
    match joined {
        Some(id) => {
            lemma_resolves_either(first, second, id);
            if fresh is Some {
                if is_live(v1, id) {
                    assert(is_live(v2, id) || resolves(second, id));
                }
            }
        },
        None => {},
    }
}

/// What either of two lists of actions resolves, both together resolve.
pub proof fn lemma_resolves_either(first: Seq<ActionView>, second: Seq<ActionView>, id: u64)
    ensures
        resolves(first, id) ==> resolves(first + second, id),
        resolves(second, id) ==> resolves(first + second, id),
{
    let all = first + second;
    if resolves(first, id) {
        let a = choose|a: int|
            0 <= a < first.len() && (#[trigger] first[a]) is Resolve && first[a]->request == id;
        assert(all[a] == first[a]);
    }
    if resolves(second, id) {
        let a = choose|a: int|
            0 <= a < second.len() && (#[trigger] second[a]) is Resolve && second[a]->request
                == id;
        assert(all[a + first.len()] == second[a]);
    }
}

/// An event without actions that leaves the requests alone settles nothing.
pub proof fn lemma_settles_nothing(before: ChannelView, after: ChannelView)
    requires
        after.wf(),
        after.pending == before.pending,
        after.queue == before.queue,
        after.next_id == before.next_id,
    ensures
        settles(before, after, Seq::empty(), None),
{
}

/// Of a queue numbered in order, what stays after a purge waits as before,
/// and what does not stay is timed out, once.
proof fn lemma_purged_queue(queue: Seq<QueuedView>, now: u64)
    requires
        forall|i: int, j: int|
            0 <= i < j < queue.len() ==> (#[trigger] queue[i]).id < (#[trigger] queue[j]).id,
    ensures
        forall|id: u64| #[trigger] waits(kept_spec(queue, now), id) ==> waits(queue, id),
        forall|id: u64| #[trigger]
            waits(queue, id) ==> waits(kept_spec(queue, now), id) || resolves(
                timeouts_spec(queue, now),
                id,
            ),
        forall|a: int|
            0 <= a < timeouts_spec(queue, now).len() ==> {
                &&& (#[trigger] timeouts_spec(queue, now)[a]) is Resolve
                &&& waits(queue, timeouts_spec(queue, now)[a]->request)
                &&& !waits(kept_spec(queue, now), timeouts_spec(queue, now)[a]->request)
            },
        forall|a: int, b: int|
            0 <= a < b < timeouts_spec(queue, now).len() ==> (#[trigger] timeouts_spec(
                queue,
                now,
            )[a])->request < (#[trigger] timeouts_spec(queue, now)[b])->request,
    decreases queue.len(),
{
    let kept = kept_spec(queue, now);
    let late = timeouts_spec(queue, now);
    if queue.len() > 0 {
        let rest = queue.drop_last();
        let last = queue.last();
        let kept_rest = kept_spec(rest, now);
        let late_rest = timeouts_spec(rest, now);
        assert forall|i: int, j: int| 0 <= i < j < rest.len() implies (#[trigger] rest[i]).id < (
        #[trigger] rest[j]).id by {
            assert(rest[i] == queue[i] && rest[j] == queue[j]);
        }
        lemma_purged_queue(rest, now);
        // Whatever waits in the rest has a number below the last one.
        assert forall|id: u64| #[trigger] waits(rest, id) implies id < last.id && waits(
            queue,
            id,
        ) by {
            let k = choose|k: int| 0 <= k < rest.len() && (#[trigger] rest[k]).id == id;
            assert(queue[k] == rest[k]);
        }
        assert(waits(queue, last.id)) by {
            assert(queue[queue.len() - 1].id == last.id);
        }
        assert forall|id: u64| #[trigger] waits(queue, id) implies waits(rest, id) || id
            == last.id by {
            let k = choose|k: int| 0 <= k < queue.len() && (#[trigger] queue[k]).id == id;
            if k < rest.len() {
                assert(rest[k] == queue[k]);
            }
        }
        if now > last.deadline {
            assert(kept == kept_rest);
            assert(late == late_rest.push(rejected(last.id, ChannelError::Timeout)));
            assert forall|id: u64| #[trigger] waits(queue, id) implies waits(kept, id) || resolves(
                late,
                id,
            ) by {
                if id == last.id {
                    assert(late[late.len() - 1] is Resolve);
                } else {
                    assert(waits(rest, id));
                    if !waits(kept_rest, id) {
                        let a = choose|a: int|
                            0 <= a < late_rest.len() && (#[trigger] late_rest[a]) is Resolve
                                && late_rest[a]->request == id;
                        assert(late[a] == late_rest[a]);
                    }
                }
            }
            assert forall|a: int| 0 <= a < late.len() implies {
                &&& (#[trigger] late[a]) is Resolve
                &&& waits(queue, late[a]->request)
                &&& !waits(kept, late[a]->request)
            } by {
                if a < late_rest.len() {
                    assert(late[a] == late_rest[a]);
                    assert(waits(rest, late[a]->request));
                } else {
                    if waits(kept_rest, last.id) {
                        assert(waits(rest, last.id));
                    }
                }
            }
            assert forall|a: int, b: int| 0 <= a < b < late.len() implies (
            #[trigger] late[a])->request < (#[trigger] late[b])->request by {
                assert(late[a] == late_rest[a]);
                if b < late_rest.len() {
                    assert(late[b] == late_rest[b]);
                } else {
                    assert(waits(rest, late_rest[a]->request));
                }
            }
        } else {
            assert(kept == kept_rest.push(last));
            assert(late == late_rest);
            assert forall|id: u64| #[trigger] waits(kept, id) implies waits(queue, id) by {
                let k = choose|k: int| 0 <= k < kept.len() && (#[trigger] kept[k]).id == id;
                if k < kept_rest.len() {
                    assert(kept_rest[k] == kept[k]);
                    assert(waits(kept_rest, id));
                    assert(waits(rest, id));
                }
            }
            assert forall|id: u64| #[trigger] waits(queue, id) implies waits(kept, id) || resolves(
                late,
                id,
            ) by {
                if id == last.id {
                    assert(kept[kept.len() - 1].id == id);
                } else {
                    assert(waits(rest, id));
                    if waits(kept_rest, id) {
                        let k = choose|k: int|
                            0 <= k < kept_rest.len() && (#[trigger] kept_rest[k]).id == id;
                        assert(kept[k] == kept_rest[k]);
                    }
                }
            }
            assert forall|a: int| 0 <= a < late.len() implies {
                &&& (#[trigger] late[a]) is Resolve
                &&& waits(queue, late[a]->request)
                &&& !waits(kept, late[a]->request)
            } by {
                let id = late[a]->request;
                assert(waits(rest, id));
                if waits(kept, id) {
                    let k = choose|k: int| 0 <= k < kept.len() && (#[trigger] kept[k]).id == id;
                    if k < kept_rest.len() {
                        assert(kept_rest[k] == kept[k]);
                        assert(waits(kept_rest, id));
                    }
                }
            }
        }
    }
}

/// What stays of a queue after a purge was in the queue, and is not past its
/// deadline.
proof fn lemma_kept_elements(queue: Seq<QueuedView>, now: u64)
    ensures
        forall|k: int|
            0 <= k < kept_spec(queue, now).len() ==> now <= (#[trigger] kept_spec(
                queue,
                now,
            )[k]).deadline && exists|j: int|
                0 <= j < queue.len() && #[trigger] queue[j] == kept_spec(queue, now)[k],
    decreases queue.len(),
{
    let kept = kept_spec(queue, now);
    if queue.len() > 0 {
        let rest = queue.drop_last();
        let kept_rest = kept_spec(rest, now);
        lemma_kept_elements(rest, now);
        assert forall|k: int| 0 <= k < kept.len() implies now <= (#[trigger] kept[k]).deadline
            && exists|j: int| 0 <= j < queue.len() && #[trigger] queue[j] == kept[k] by {
            if k < kept_rest.len() {
                assert(kept[k] == kept_rest[k]);
                let j = choose|j: int| 0 <= j < rest.len() && #[trigger] rest[j] == kept_rest[k];
                assert(queue[j] == rest[j]);
            } else {
                assert(kept[k] == queue[queue.len() - 1]);
            }
        }
    }
}

/// A purge settles the requests whose deadline has passed, and leaves no
/// request behind whose deadline has.
pub proof fn lemma_purge_settles(v: ChannelView, now: u64)
    requires
        v.wf(),
    ensures
        settles(v, v.purge_spec(now).0, v.purge_spec(now).1, None),
        in_time(v.purge_spec(now).0, now),
        v.purge_spec(now).0.negotiator == v.negotiator,
        v.purge_spec(now).0.buffer == v.buffer,
{
    let after = v.purge_spec(now).0;
    let actions = v.purge_spec(now).1;
    lemma_kept_elements(v.queue, now);
    assert forall|t: u64| #[trigger] in_time(v, t) implies in_time(after, t) by {
        assert forall|k: int| 0 <= k < after.queue.len() implies t <= (
        #[trigger] after.queue[k]).deadline by {
            let j = choose|j: int|
                0 <= j < v.queue.len() && #[trigger] v.queue[j] == after.queue[k];
        }
    }
    let late = timeouts_spec(v.queue, now);
    lemma_purge_keeps_wf(v, now);
    lemma_purged_queue(v.queue, now);
    let expired = v.pending matches Some(p) && now > p.deadline;
    let first: Seq<ActionView> = if expired {
        seq![rejected(v.pending.unwrap().id, ChannelError::Timeout)]
    } else {
        Seq::empty()
    };
    assert(actions == first + late);
    // The request in flight is numbered below every request that waits.
    assert forall|id: u64| waits(v.queue, id) && v.pending is Some implies v.pending.unwrap().id
        < id by {
        let k = choose|k: int| 0 <= k < v.queue.len() && (#[trigger] v.queue[k]).id == id;
    }
    assert forall|a: int| 0 <= a < actions.len() && (#[trigger] actions[a]) is Resolve implies {
        &&& is_live(v, actions[a]->request)
        &&& !is_live(after, actions[a]->request)
    } by {
        if a < first.len() {
            assert(actions[a] == first[a]);
            if waits(after.queue, actions[a]->request) {
                assert(waits(v.queue, actions[a]->request));
            }
        } else {
            assert(actions[a] == late[a - first.len()]);
            assert(waits(v.queue, actions[a]->request));
        }
    }
    assert forall|a: int, b: int|
        0 <= a < b < actions.len() && (#[trigger] actions[a]) is Resolve && (
        #[trigger] actions[b]) is Resolve implies actions[a]->request != actions[b]->request by {
        assert(actions[b] == late[b - first.len()]);
        if a < first.len() {
            assert(actions[a] == first[a]);
            assert(waits(v.queue, actions[b]->request));
        } else {
            assert(actions[a] == late[a - first.len()]);
        }
    }
    assert forall|id: u64| #[trigger] is_live(v, id) implies is_live(after, id) || resolves(
        actions,
        id,
    ) by {
        lemma_resolves_either(first, late, id);
        if v.pending matches Some(p) && p.id == id {
            if expired {
                assert(first[0] is Resolve);
                assert(resolves(first, id));
            }
        }
    }
}

/// The request at the head of a queue numbered in order waits nowhere else in
/// it.
proof fn lemma_head_leaves(queue: Seq<QueuedView>)
    requires
        queue.len() > 0,
        forall|i: int, j: int|
            0 <= i < j < queue.len() ==> (#[trigger] queue[i]).id < (#[trigger] queue[j]).id,
    ensures
        waits(queue, queue[0].id),
        !waits(queue.drop_first(), queue[0].id),
        forall|id: u64| #[trigger] waits(queue.drop_first(), id) ==> waits(queue, id),
        forall|id: u64| #[trigger]
            waits(queue, id) ==> id == queue[0].id || waits(queue.drop_first(), id),
{
    let rest = queue.drop_first();
    assert forall|k: int| 0 <= k < rest.len() implies (#[trigger] rest[k]) == queue[k + 1] by {}
    if waits(rest, queue[0].id) {
        let k = choose|k: int| 0 <= k < rest.len() && (#[trigger] rest[k]).id == queue[0].id;
        assert(queue[0].id < queue[k + 1].id);
    }
    assert forall|id: u64| #[trigger] waits(rest, id) implies waits(queue, id) by {
        let k = choose|k: int| 0 <= k < rest.len() && (#[trigger] rest[k]).id == id;
        assert(queue[k + 1].id == id);
    }
    assert forall|id: u64| #[trigger] waits(queue, id) implies id == queue[0].id || waits(
        rest,
        id,
    ) by {
        let k = choose|k: int| 0 <= k < queue.len() && (#[trigger] queue[k]).id == id;
        if k > 0 {
            assert(rest[k - 1].id == id);
        }
    }
}

/// A channel whose head request leaves the queue, resolved or put in flight,
/// is well formed.
proof fn lemma_head_taken(v: ChannelView, after: ChannelView)
    requires
        v.wf(),
        v.queue.len() > 0,
        v.pending is None,
        after.negotiator.wf(),
        after.buffer.max_write == v.buffer.max_write,
        after.queue == v.queue.drop_first(),
        after.next_id == v.next_id,
        after.pending is None || (after.negotiator.phase is Authorized && after.pending
            == Some(v.queue[0].in_flight(last_counter_spec(after.negotiator)))),
    ensures
        after.wf(),
{
    let rest = v.queue.drop_first();
    assert forall|k: int| 0 <= k < rest.len() implies (#[trigger] rest[k]) == v.queue[k + 1] by {}
}

/// Giving the handshake up resolves the request at the head of the queue, if
/// there is one, and no other.
pub proof fn lemma_abandon_settles(v: ChannelView, reason: ChannelError)
    requires
        v.wf(),
        v.pending is None,
    ensures
        settles(v, v.abandon_spec(reason).0, v.abandon_spec(reason).1, None),
        v.abandon_spec(reason).0.pending is None,
{
    let after = v.abandon_spec(reason).0;
    let actions = v.abandon_spec(reason).1;
    if v.queue.len() > 0 {
        lemma_head_leaves(v.queue);
        lemma_head_taken(v, after);
        assert(actions[0] is Resolve && actions[0]->request == v.queue[0].id);
        assert(resolves(actions, v.queue[0].id));
    }
}

/// Beginning a handshake resolves at most the request at the head of the
/// queue, where the handshake cannot begin.
pub proof fn lemma_begin_settles(v: ChannelView, now: u64, oracle: Oracle)
    requires
        v.wf(),
        v.pending is None,
    ensures
        settles(v, v.begin_spec(now, oracle).0, v.begin_spec(now, oracle).1, None),
        v.begin_spec(now, oracle).0.pending is None,
{
    let begun = v.negotiator.begin_spec(oracle.ephemeral, now);
    lemma_step_keeps_wf(
        v.negotiator,
        Input { event: Event::Begin { ephemeral: oracle.ephemeral }, now },
    );
    let next = ChannelView {
        negotiator: begun.0,
        attempts: if v.attempts < u32::MAX {
            (v.attempts + 1) as u32
        } else {
            v.attempts
        },
        ..v
    };
    assert(next.wf());
    lemma_abandon_settles(next, ChannelError::MalformedMessage);
    match begun.1 {
        Err(e) => {
            lemma_abandon_settles(next, e);
        },
        Ok(_) => {},
    }
    assert forall|id: u64| is_live(next, id) == is_live(v, id) by {}
}

/// Sending the request at the head of the queue puts it in flight, or
/// resolves it where it cannot go out, or leaves it where it is while a
/// handshake begins.
pub proof fn lemma_transmit_settles(v: ChannelView, now: u64, oracle: Oracle)
    requires
        v.wf(),
        v.pending is None,
        v.queue.len() > 0,
    ensures
        settles(v, v.transmit_spec(now, oracle).0, v.transmit_spec(now, oracle).1, None),
{
    let head = v.queue[0];
    let signed = v.negotiator.sign_spec(head.envelope(), oracle.tag, now);
    lemma_step_keeps_wf(
        v.negotiator,
        Input { event: Event::Sign { envelope: head.envelope(), tag: oracle.tag }, now },
    );
    let next = ChannelView { negotiator: signed.0, ..v };
    let after = v.transmit_spec(now, oracle).0;
    let actions = v.transmit_spec(now, oracle).1;
    lemma_head_leaves(v.queue);
    assert(next.wf());
    assert forall|id: u64| is_live(next, id) == is_live(v, id) by {}
    match signed.1 {
        Err(e) => {
            if signed.0.phase is Idle {
                lemma_begin_settles(next, now, oracle);
            } else {
                lemma_head_taken(v, after);
                assert(actions[0] is Resolve && actions[0]->request == head.id);
                assert(resolves(actions, head.id));
            }
        },
        Ok(message) => {
            lemma_head_taken(v, after);
            if v.framed(message) is None {
                assert(actions[0] is Resolve && actions[0]->request == head.id);
                assert(resolves(actions, head.id));
            } else {
                assert(is_live(after, head.id));
            }
        },
    }
}

/// Moving the next request on resolves at most that request.
pub proof fn lemma_advance_settles(v: ChannelView, now: u64, oracle: Oracle)
    requires
        v.wf(),
    ensures
        settles(v, v.advance_spec(now, oracle).0, v.advance_spec(now, oracle).1, None),
{
    if v.pending is Some || v.queue.len() == 0 {
    } else {
        match v.negotiator.phase.state() {
            State::Authorized => {
                lemma_transmit_settles(v, now, oracle);
            },
            State::Idle => {
                lemma_begin_settles(v, now, oracle);
            },
            State::Failed => {
                let reset = ChannelView { negotiator: v.negotiator.reset_spec(), ..v };
                lemma_begin_settles(reset, now, oracle);
                assert forall|id: u64| is_live(reset, id) == is_live(v, id) by {}
            },
            _ => {},
        }
    }
}

/// Answering a failed handshake resolves at most the request that the
/// handshake was for.
pub proof fn lemma_handshake_failed_settles(
    v: ChannelView,
    reason: ChannelError,
    now: u64,
    oracle: Oracle,
)
    requires
        v.wf(),
        v.pending is None,
    ensures
        settles(
            v,
            v.handshake_failed_spec(reason, now, oracle).0,
            v.handshake_failed_spec(reason, now, oracle).1,
            None,
        ),
{
    if reason == ChannelError::HandshakeTimeout && v.attempts < v.max_attempts && v.queue.len()
        > 0 {
        let reset = ChannelView { negotiator: v.negotiator.reset_spec(), ..v };
        lemma_begin_settles(reset, now, oracle);
        assert forall|id: u64| is_live(reset, id) == is_live(v, id) by {}
    } else {
        let given_up = v.abandon_spec(reason);
        lemma_abandon_settles(v, reason);
        lemma_advance_settles(given_up.0, now, oracle);
        let moved = given_up.0.advance_spec(now, oracle);
        lemma_settles_in_turn(v, given_up.0, moved.0, given_up.1, moved.1, None, None);
    }
}

/// A channel in which only the negotiator or the buffer has moved has the
/// requests that it had.
proof fn lemma_same_requests(v: ChannelView, next: ChannelView)
    requires
        next.pending == v.pending,
        next.queue == v.queue,
    ensures
        forall|id: u64| is_live(next, id) == is_live(v, id),
{
}

/// Handling a whole inbound message resolves at most the request in flight,
/// where the message answers it or destroys the session, or the request that
/// a failed handshake was for.
pub proof fn lemma_message_settles(v: ChannelView, message: Seq<u8>, now: u64, oracle: Oracle)
    requires
        v.wf(),
    ensures
        settles(
            v,
            v.message_spec(message, now, oracle).0,
            v.message_spec(message, now, oracle).1,
            None,
        ),
{
    let after = v.message_spec(message, now, oracle).0;
    let actions = v.message_spec(message, now, oracle).1;
    match v.negotiator.phase.state() {
        State::KeyExchangeSent => {
            let event = Event::PeerKey {
                response: message,
                secret: oracle.secret,
                send_key: oracle.send_key,
                recv_key: oracle.recv_key,
                tag: oracle.confirmation_tag,
            };
            lemma_step_keeps_wf(v.negotiator, Input { event, now });
            let step = v.negotiator.exchange_spec(
                message,
                oracle.secret,
                oracle.send_key,
                oracle.recv_key,
                oracle.confirmation_tag,
                now,
            );
            let next = ChannelView { negotiator: step.0, ..v };
            lemma_same_requests(v, next);
            match step.1 {
                Ok(confirmation) => {
                    lemma_abandon_settles(next, ChannelError::MalformedMessage);
                },
                Err(e) => {
                    lemma_handshake_failed_settles(next, e, now, oracle);
                },
            }
        },
        State::KeyExchangeConfirmed => {
            let event = Event::Confirmation { signed: message, expected: oracle.expected };
            lemma_step_keeps_wf(v.negotiator, Input { event, now });
            let step = v.negotiator.confirm_spec(message, oracle.expected, now);
            let next = ChannelView { negotiator: step.0, ..v };
            lemma_same_requests(v, next);
            match step.1 {
                Ok(_) => {
                    lemma_advance_settles(next, now, oracle);
                },
                Err(e) => {
                    lemma_handshake_failed_settles(next, e, now, oracle);
                },
            }
        },
        State::Authorized => {
            let event = Event::Verify { signed: message, expected: oracle.expected };
            lemma_step_keeps_wf(v.negotiator, Input { event, now });
            let step = v.negotiator.verify_spec(message, oracle.expected, now);
            let next = ChannelView { negotiator: step.0, ..v };
            lemma_same_requests(v, next);
            let idle = ChannelView { pending: None, ..next };
            let moved = idle.advance_spec(now, oracle);
            assert(idle.wf());
            lemma_advance_settles(idle, now, oracle);
            match step.1 {
                Ok(envelope) => {
                    if v.answers(envelope) {
                        let resolved = ActionView::Resolve {
                            request: v.pending.unwrap().id,
                            outcome: Ok(inbound_spec(envelope)->Reply_result),
                        };
                        lemma_answer_settles(v, idle, resolved);
                        lemma_settles_in_turn(
                            v,
                            idle,
                            moved.0,
                            seq![resolved],
                            moved.1,
                            None,
                            None,
                        );
                    }
                },
                Err(e) => {
                    if destroys_session(e) {
                        let first = match v.pending {
                            Some(p) => rejected(p.id, e),
                            None => ActionView::Report { error: e },
                        };
                        lemma_answer_settles(v, idle, first);
                        lemma_settles_in_turn(v, idle, moved.0, seq![first], moved.1, None, None);
                    }
                },
            }
        },
        _ => {},
    }
}

/// One action that resolves the request in flight, if there is one, settles
/// that request.
proof fn lemma_answer_settles(v: ChannelView, idle: ChannelView, action: ActionView)
    requires
        v.wf(),
        idle.wf(),
        idle.pending is None,
        idle.queue == v.queue,
        idle.next_id == v.next_id,
        match v.pending {
            Some(p) => action is Resolve && action->request == p.id,
            None => !(action is Resolve),
        },
    ensures
        settles(v, idle, seq![action], None),
{
    let actions = seq![action];
    match v.pending {
        Some(p) => {
            assert(actions[0] is Resolve && actions[0]->request == p.id);
            assert(resolves(actions, p.id));
            if waits(v.queue, p.id) {
                let k = choose|k: int| 0 <= k < v.queue.len() && (#[trigger] v.queue[k]).id == p.id;
            }
        },
        None => {},
    }
}

/// The arrival of a fragment resolves the requests whose deadline has passed
/// and at most one more.
pub proof fn lemma_arrival_settles(v: ChannelView, fragment: Seq<u8>, now: u64, oracle: Oracle)
    requires
        v.wf(),
    ensures
        settles(
            v,
            v.arrival_spec(fragment, now, oracle).0,
            v.arrival_spec(fragment, now, oracle).1,
            None,
        ),
{
    let purged = v.purge_spec(now);
    lemma_purge_settles(v, now);
    let accepted = purged.0.buffer.accept_spec(fragment, now);
    let next = ChannelView { buffer: accepted.0, ..purged.0 };
    assert(next.wf());
    lemma_same_requests(purged.0, next);
    match accepted.1 {
        Err(e) => {
            let report = seq![ActionView::Report { error: e }];
            assert(settles(purged.0, next, report, None));
            lemma_settles_in_turn(v, purged.0, next, purged.1, report, None, None);
        },
        Ok(None) => {
            lemma_settles_nothing(purged.0, next);
            lemma_settles_in_turn(v, purged.0, next, purged.1, Seq::empty(), None, None);
            assert(purged.1 + Seq::<ActionView>::empty() =~= purged.1);
        },
        Ok(Some(message)) => {
            let handled = next.message_spec(message, now, oracle);
            lemma_message_settles(next, message, now, oracle);
            lemma_settles_in_turn(v, purged.0, handled.0, purged.1, handled.1, None, None);
        },
    }
}

/// A tick resolves the requests whose deadline has passed and at most one
/// more.
pub proof fn lemma_tick_settles(v: ChannelView, now: u64, oracle: Oracle)
    requires
        v.wf(),
    ensures
        settles(v, v.tick_spec(now, oracle).0, v.tick_spec(now, oracle).1, None),
{
    let purged = v.purge_spec(now);
    lemma_purge_settles(v, now);
    lemma_step_keeps_wf(purged.0.negotiator, Input { event: Event::Tick, now });
    let timed_out = purged.0.negotiator.phase.deadline() matches Some(deadline) && now
        > deadline;
    let next = ChannelView {
        buffer: purged.0.buffer.expired(now),
        negotiator: purged.0.negotiator.tick_spec(now),
        ..purged.0
    };
    assert(next.wf());
    lemma_same_requests(purged.0, next);
    let moved = if timed_out {
        next.handshake_failed_spec(ChannelError::HandshakeTimeout, now, oracle)
    } else {
        next.advance_spec(now, oracle)
    };
    if timed_out {
        lemma_handshake_failed_settles(next, ChannelError::HandshakeTimeout, now, oracle);
    } else {
        lemma_advance_settles(next, now, oracle);
    }
    lemma_settles_in_turn(v, purged.0, moved.0, purged.1, moved.1, None, None);
}

/// Taking a command in lets its request join under the next number, and
/// resolves the requests whose deadline has passed and at most one more.
pub proof fn lemma_execute_settles(
    v: ChannelView,
    domain: Domain,
    operation: u16,
    parameters: Seq<u8>,
    timeout: u64,
    now: u64,
    oracle: Oracle,
)
    requires
        v.wf(),
        v.admits(parameters),
    ensures
        settles(
            v,
            v.execute_spec(domain, operation, parameters, timeout, now, oracle).0,
            v.execute_spec(domain, operation, parameters, timeout, now, oracle).1,
            Some(v.next_id),
        ),
{
    let purged = v.purge_spec(now);
    lemma_purge_settles(v, now);
    let request = v.request_spec(domain, operation, parameters, timeout, now);
    let joined = ChannelView {
        queue: purged.0.queue.push(request),
        next_id: (v.next_id + 1) as u64,
        ..purged.0
    };
    assert(joined.queue[joined.queue.len() - 1].id == v.next_id);
    assert(waits(joined.queue, v.next_id));
    assert forall|id: u64| #[trigger] waits(joined.queue, id) implies waits(purged.0.queue, id)
        || id == v.next_id by {
        let k = choose|k: int| 0 <= k < joined.queue.len() && (#[trigger] joined.queue[k]).id == id;
        if k < purged.0.queue.len() {
            assert(purged.0.queue[k] == joined.queue[k]);
        }
    }
    assert forall|id: u64| #[trigger] waits(purged.0.queue, id) implies waits(joined.queue, id) by {
        let k = choose|k: int|
            0 <= k < purged.0.queue.len() && (#[trigger] purged.0.queue[k]).id == id;
        assert(joined.queue[k] == purged.0.queue[k]);
    }
    assert(joined.wf());
    assert(settles(purged.0, joined, Seq::empty(), Some(v.next_id)));
    lemma_settles_in_turn(v, purged.0, joined, purged.1, Seq::empty(), None, Some(v.next_id));
    assert(purged.1 + Seq::<ActionView>::empty() =~= purged.1);
    let moved = joined.advance_spec(now, oracle);
    lemma_advance_settles(joined, now, oracle);
    lemma_settles_in_turn(v, joined, moved.0, purged.1, moved.1, Some(v.next_id), None);
}

/// A failed write resolves the request in flight, or the request that the
/// handshake under way was for.
pub proof fn lemma_link_failed_settles(v: ChannelView)
    requires
        v.wf(),
    ensures
        settles(v, v.link_failed_spec().0, v.link_failed_spec().1, None),
{
    let dropped = ChannelView { buffer: v.buffer.cleared(), pending: None, ..v };
    let first = match v.pending {
        Some(p) => rejected(p.id, ChannelError::LinkError),
        None => ActionView::Report { error: ChannelError::LinkError },
    };
    assert(dropped.wf());
    lemma_answer_settles(v, dropped, first);
    if v.negotiator.phase.deadline() is Some {
        lemma_abandon_settles(dropped, ChannelError::LinkError);
        lemma_same_requests(v, dropped);
    } else {
        match v.pending {
            Some(p) => {},
            None => {
                lemma_settles_nothing(v, dropped);
            },
        }
    }
}

/// What can happen to a channel.
pub ghost enum ChannelEvent {
    /// A command is to be executed.
    Execute { domain: Domain, operation: u16, parameters: Seq<u8>, timeout: u64 },
    /// A fragment has arrived.
    Fragment { bytes: Seq<u8> },
    /// Time has passed.
    Tick,
    /// A write to the link has failed.
    LinkFailed,
}

/// An event, the tick at which it happens, and what the policy returns in its
/// course.
pub ghost struct ChannelInput {
    pub event: ChannelEvent,
    pub now: u64,
    pub oracle: Oracle,
}

/// The number under which an input's command joins, if it is one that is
/// taken in.
pub open spec fn joins_spec(v: ChannelView, input: ChannelInput) -> Option<u64> {
    match input.event {
        ChannelEvent::Execute { parameters, .. } => if v.admits(parameters) {
            Some(v.next_id)
        } else {
            None
        },
        _ => None,
    }
}

/// The channel after one input, and the actions that the input calls for. A
/// command that is refused changes nothing.
pub open spec fn step_spec(v: ChannelView, input: ChannelInput) -> Outcome {
    match input.event {
        ChannelEvent::Execute { domain, operation, parameters, timeout } => if v.admits(
            parameters,
        ) {
            v.execute_spec(domain, operation, parameters, timeout, input.now, input.oracle)
        } else {
            (v, Seq::empty())
        },
        ChannelEvent::Fragment { bytes } => v.arrival_spec(bytes, input.now, input.oracle),
        ChannelEvent::Tick => v.tick_spec(input.now, input.oracle),
        ChannelEvent::LinkFailed => v.link_failed_spec(),
    }
}

/// The channel after the first `k` inputs.
pub open spec fn after_spec(start: ChannelView, inputs: Seq<ChannelInput>, k: int) -> ChannelView
    decreases k,
{
    if k <= 0 {
        start
    } else {
        step_spec(after_spec(start, inputs, k - 1), inputs[k - 1]).0
    }
}

/// The actions that input `k` calls for, after those before it.
pub open spec fn actions_spec(start: ChannelView, inputs: Seq<ChannelInput>, k: int) -> Seq<
    ActionView,
> {
    step_spec(after_spec(start, inputs, k), inputs[k]).1
}

/// Every input settles the requests of the channel.
pub proof fn lemma_step_settles(v: ChannelView, input: ChannelInput)
    requires
        v.wf(),
    ensures
        settles(v, step_spec(v, input).0, step_spec(v, input).1, joins_spec(v, input)),
{
    match input.event {
        ChannelEvent::Execute { domain, operation, parameters, timeout } => {
            if v.admits(parameters) {
                lemma_execute_settles(
                    v,
                    domain,
                    operation,
                    parameters,
                    timeout,
                    input.now,
                    input.oracle,
                );
            } else {
                lemma_settles_nothing(v, v);
            }
        },
        ChannelEvent::Fragment { bytes } => {
            lemma_arrival_settles(v, bytes, input.now, input.oracle);
        },
        ChannelEvent::Tick => {
            lemma_tick_settles(v, input.now, input.oracle);
        },
        ChannelEvent::LinkFailed => {
            lemma_link_failed_settles(v);
        },
    }
}

/// A well-formed channel stays well formed over a run, and its request
/// numbers only go up.
pub proof fn lemma_run_keeps_wf(start: ChannelView, inputs: Seq<ChannelInput>, i: int, j: int)
    requires
        start.wf(),
        0 <= i <= j <= inputs.len(),
    ensures
        after_spec(start, inputs, i).wf(),
        after_spec(start, inputs, j).wf(),
        after_spec(start, inputs, i).next_id <= after_spec(start, inputs, j).next_id,
    decreases j,
{
    if j > 0 {
        if i < j {
            lemma_run_keeps_wf(start, inputs, i, j - 1);
        } else {
            lemma_run_keeps_wf(start, inputs, i - 1, j - 1);
        }
        lemma_step_settles(after_spec(start, inputs, j - 1), inputs[j - 1]);
    }
}

/// A request that is not live, and is numbered below the next number, never
/// becomes live again.
pub proof fn lemma_settled_stays_settled(
    start: ChannelView,
    inputs: Seq<ChannelInput>,
    i: int,
    j: int,
    id: u64,
)
    requires
        start.wf(),
        0 <= i <= j <= inputs.len(),
        !is_live(after_spec(start, inputs, i), id),
        id < after_spec(start, inputs, i).next_id,
    ensures
        !is_live(after_spec(start, inputs, j), id),
        id < after_spec(start, inputs, j).next_id,
    decreases j - i,
{
    if i < j {
        lemma_settled_stays_settled(start, inputs, i, j - 1, id);
        lemma_run_keeps_wf(start, inputs, j - 1, j - 1);
        lemma_step_settles(after_spec(start, inputs, j - 1), inputs[j - 1]);
    }
}

/// No request is resolved twice.
///
/// Over any run of inputs on a well-formed channel, two different actions
/// that resolve a request, be they called for by one input or by two,
/// resolve different requests.
pub proof fn lemma_resolved_at_most_once(
    start: ChannelView,
    inputs: Seq<ChannelInput>,
    i: int,
    a: int,
    j: int,
    b: int,
)
    requires
        start.wf(),
        0 <= i <= j < inputs.len(),
        0 <= a < actions_spec(start, inputs, i).len(),
        0 <= b < actions_spec(start, inputs, j).len(),
        i < j || a < b,
        actions_spec(start, inputs, i)[a] is Resolve,
        actions_spec(start, inputs, j)[b] is Resolve,
    ensures
        actions_spec(start, inputs, i)[a]->request != actions_spec(start, inputs, j)[b]->request,
{
    let before = after_spec(start, inputs, i);
    let id = actions_spec(start, inputs, i)[a]->request;
    lemma_run_keeps_wf(start, inputs, i, j);
    lemma_step_settles(before, inputs[i]);
    if i < j {
        let later = after_spec(start, inputs, j);
        assert(after_spec(start, inputs, i + 1) == step_spec(before, inputs[i]).0);
        if is_live(before, id) {
            lemma_live_is_numbered(before, id);
        }
        lemma_settled_stays_settled(start, inputs, i + 1, j, id);
        lemma_step_settles(later, inputs[j]);
    }
}

/// No request is dropped.
///
/// Over any run of inputs on a well-formed channel, a request that was live
/// and is live no longer has been resolved by an action of one of the inputs
/// between.
pub proof fn lemma_settled_was_resolved(
    start: ChannelView,
    inputs: Seq<ChannelInput>,
    i: int,
    j: int,
    id: u64,
)
    requires
        start.wf(),
        0 <= i <= j <= inputs.len(),
        is_live(after_spec(start, inputs, i), id),
        !is_live(after_spec(start, inputs, j), id),
    ensures
        exists|k: int| i <= k < j && resolves(#[trigger] actions_spec(start, inputs, k), id),
    decreases j - i,
{
    if i < j {
        lemma_run_keeps_wf(start, inputs, j - 1, j - 1);
        lemma_step_settles(after_spec(start, inputs, j - 1), inputs[j - 1]);
        if is_live(after_spec(start, inputs, j - 1), id) {
            assert(resolves(actions_spec(start, inputs, j - 1), id));
        } else {
            lemma_settled_was_resolved(start, inputs, i, j - 1, id);
            let k = choose|k: int|
                i <= k < j - 1 && resolves(#[trigger] actions_spec(start, inputs, k), id);
            assert(resolves(actions_spec(start, inputs, k), id));
        }
    }
}

/// No request outlives its deadline.
///
/// After a command is taken in, a fragment has arrived or a tick has passed
/// at tick `now`, no request is live whose deadline is before `now`: the
/// first such event after its deadline resolves a request at the latest.
pub proof fn lemma_deadline_is_kept(v: ChannelView, input: ChannelInput)
    requires
        v.wf(),
        !(input.event is LinkFailed),
        input.event matches ChannelEvent::Execute { parameters, .. } ==> v.admits(parameters),
    ensures
        in_time(step_spec(v, input).0, input.now),
{
    let now = input.now;
    let oracle = input.oracle;
    let purged = v.purge_spec(now);
    lemma_purge_settles(v, now);
    match input.event {
        ChannelEvent::Execute { domain, operation, parameters, timeout } => {
            let request = v.request_spec(domain, operation, parameters, timeout, now);
            let joined = ChannelView {
                queue: purged.0.queue.push(request),
                next_id: (v.next_id + 1) as u64,
                ..purged.0
            };
            assert forall|k: int| 0 <= k < joined.queue.len() implies now <= (
            #[trigger] joined.queue[k]).deadline by {
                if k < purged.0.queue.len() {
                    assert(joined.queue[k] == purged.0.queue[k]);
                }
            }
            assert(in_time(joined, now));
            lemma_execute_joins(v, domain, operation, parameters, timeout, now);
            lemma_advance_settles(joined, now, oracle);
        },
        ChannelEvent::Fragment { bytes } => {
            let accepted = purged.0.buffer.accept_spec(bytes, now);
            let next = ChannelView { buffer: accepted.0, ..purged.0 };
            assert(in_time(next, now));
            match accepted.1 {
                Ok(Some(message)) => {
                    lemma_message_settles(next, message, now, oracle);
                },
                _ => {},
            }
        },
        ChannelEvent::Tick => {
            let timed_out = purged.0.negotiator.phase.deadline() matches Some(deadline) && now
                > deadline;
            let next = ChannelView {
                buffer: purged.0.buffer.expired(now),
                negotiator: purged.0.negotiator.tick_spec(now),
                ..purged.0
            };
            lemma_step_keeps_wf(purged.0.negotiator, Input { event: Event::Tick, now });
            assert(in_time(next, now));
            if timed_out {
                lemma_handshake_failed_settles(next, ChannelError::HandshakeTimeout, now, oracle);
            } else {
                lemma_advance_settles(next, now, oracle);
            }
        },
        ChannelEvent::LinkFailed => {},
    }
}

/// A command that has joined the queue leaves the channel well formed.
proof fn lemma_execute_joins(
    v: ChannelView,
    domain: Domain,
    operation: u16,
    parameters: Seq<u8>,
    timeout: u64,
    now: u64,
)
    requires
        v.wf(),
        v.admits(parameters),
    ensures
        (ChannelView {
            queue: v.purge_spec(now).0.queue.push(
                v.request_spec(domain, operation, parameters, timeout, now),
            ),
            next_id: (v.next_id + 1) as u64,
            ..v.purge_spec(now).0
        }).wf(),
{
    lemma_purge_settles(v, now);
}

/// A queue in which nothing is past its deadline stays as it is in a purge.
proof fn lemma_nothing_to_purge(queue: Seq<QueuedView>, now: u64)
    requires
        forall|k: int| 0 <= k < queue.len() ==> now <= (#[trigger] queue[k]).deadline,
    ensures
        kept_spec(queue, now) == queue,
        timeouts_spec(queue, now) == Seq::<ActionView>::empty(),
    decreases queue.len(),
{
    if queue.len() > 0 {
        let rest = queue.drop_last();
        assert forall|k: int| 0 <= k < rest.len() implies now <= (#[trigger] rest[k]).deadline by {
            assert(rest[k] == queue[k]);
        }
        lemma_nothing_to_purge(rest, now);
        assert(rest.push(queue.last()) =~= queue);
    } else {
        assert(kept_spec(queue, now) =~= queue);
    }
}

/// A second command waits for the first.
///
/// While a request is in flight and within its deadline, a command that is
/// taken in joins the end of the queue, and nothing is sent: no two requests
/// of one vehicle are ever in flight together.
pub proof fn lemma_second_waits(
    v: ChannelView,
    domain: Domain,
    operation: u16,
    parameters: Seq<u8>,
    timeout: u64,
    now: u64,
    oracle: Oracle,
)
    requires
        v.wf(),
        v.pending is Some,
        in_time(v, now),
        v.admits(parameters),
    ensures
        v.execute_spec(domain, operation, parameters, timeout, now, oracle) == (
            ChannelView {
                queue: v.queue.push(v.request_spec(domain, operation, parameters, timeout, now)),
                next_id: (v.next_id + 1) as u64,
                ..v
            },
            Seq::<ActionView>::empty(),
        ),
{
    lemma_nothing_to_purge(v.queue, now);
    assert(v.purge_spec(now).1 =~= Seq::<ActionView>::empty());
    assert(v.purge_spec(now).0 == v);
    assert(Seq::<ActionView>::empty() + Seq::<ActionView>::empty() =~= Seq::<ActionView>::empty());
}

/// Nothing goes out while a request is in flight.
pub proof fn lemma_nothing_goes_out_behind_pending(v: ChannelView, now: u64, oracle: Oracle)
    requires
        v.pending is Some,
    ensures
        v.advance_spec(now, oracle) == (v, Seq::<ActionView>::empty()),
{
}

/// A command that goes out advances the session's counter by exactly one.
///
/// Where the request at the head of the queue is put in flight, what is sent
/// are the fragments of its envelope, signed under the counter after the last
/// one that the session used, and that counter is the session's last one
/// afterwards.
pub proof fn lemma_command_advances_counter(v: ChannelView, now: u64, oracle: Oracle)
    requires
        v.wf(),
        v.pending is None,
        v.queue.len() > 0,
        v.negotiator.phase is Authorized,
        v.transmit_spec(now, oracle).0.pending is Some,
    ensures
        ({
            let before = v.negotiator.phase->Authorized_session;
            let after = v.transmit_spec(now, oracle).0;
            let signed = signed_spec(
                SignedView {
                    envelope: v.queue[0].envelope(),
                    counter: (before.sent + 1) as u64,
                    tag: oracle.tag,
                },
            );
            &&& after.negotiator.phase is Authorized
            &&& after.negotiator.phase->Authorized_session.sent == before.sent + 1
            &&& after.negotiator.phase->Authorized_session.accepted == before.accepted
            &&& after.pending == Some(v.queue[0].in_flight((before.sent + 1) as u64))
            &&& after.queue == v.queue.drop_first()
            &&& v.transmit_spec(now, oracle).1 == seq![
                ActionView::Send { fragments: fragments_spec(signed, v.buffer.max_write) },
            ]
        }),
{
    let head = v.queue[0];
    let signed = v.negotiator.sign_spec(head.envelope(), oracle.tag, now);
    match signed.1 {
        Err(e) => {
            if signed.0.phase is Idle {
                let next = ChannelView { negotiator: signed.0, ..v };
                let event = Event::Sign { envelope: head.envelope(), tag: oracle.tag };
                lemma_step_keeps_wf(v.negotiator, Input { event, now });
                lemma_begin_settles(next, now, oracle);
            }
        },
        Ok(_) => {},
    }
}

/// A message that fails authentication fails the request in flight, and
/// delivers nothing.
///
/// Where the authorized session rejects a message as forged, as a replay or
/// because it has expired, the request in flight is resolved with that
/// error, the session is destroyed, and no action hands anything upstream.
pub proof fn lemma_rejection_fails_request(
    v: ChannelView,
    message: Seq<u8>,
    now: u64,
    oracle: Oracle,
)
    requires
        v.wf(),
        v.pending is Some,
        v.negotiator.verify_spec(message, oracle.expected, now).1 is Err,
        destroys_session(v.negotiator.verify_spec(message, oracle.expected, now).1->Err_0),
    ensures
        ({
            let e = v.negotiator.verify_spec(message, oracle.expected, now).1->Err_0;
            let outcome = v.message_spec(message, now, oracle);
            &&& outcome.1.len() >= 1
            &&& outcome.1[0] == rejected(v.pending.unwrap().id, e)
            &&& forall|a: int| 0 <= a < outcome.1.len() ==> !((#[trigger] outcome.1[a]) is Deliver)
            &&& !(outcome.0.negotiator.phase is Authorized)
            &&& outcome.0.pending is None
        }),
{
    let step = v.negotiator.verify_spec(message, oracle.expected, now);
    let e = step.1->Err_0;
    let next = ChannelView { negotiator: step.0, ..v };
    let idle = ChannelView { pending: None, ..next };
    let moved = idle.advance_spec(now, oracle);
    let outcome = v.message_spec(message, now, oracle);
    lemma_step_keeps_wf(
        v.negotiator,
        Input { event: Event::Verify { signed: message, expected: oracle.expected }, now },
    );
    assert(idle.wf());
    assert(idle.negotiator.phase is Idle);
    lemma_begin_settles(idle, now, oracle);
    assert(outcome.1 == seq![rejected(v.pending.unwrap().id, e)] + moved.1);
    assert forall|a: int| 0 <= a < moved.1.len() implies !((#[trigger] moved.1[a]) is Deliver) by {}
    assert forall|a: int| 0 <= a < outcome.1.len() implies !((
    #[trigger] outcome.1[a]) is Deliver) by {
        if a >= 1 {
            assert(outcome.1[a] == moved.1[a - 1]);
        }
    }
}

/// A reply says which command it answers.
///
/// An envelope whose payload is the reply to the command that went out under
/// `counter` is read as a reply to that counter, with the result that it
/// carries.
pub proof fn lemma_reply_names_its_command(domain: Domain, counter: u64, result: Seq<u8>)
    ensures
        inbound_spec(envelope_of(domain, response_spec(counter, result))) == (
        InboundView::Reply { counter, result }),
{
    let parameters = be64(counter) + result;
    let payload = response_spec(counter, result);
    lemma_be64_round_trip(counter);
    lemma_be16_round_trip(OP_RESPONSE);
    assert(payload.subrange(0, 2) =~= be16(OP_RESPONSE));
    assert(payload.subrange(2, payload.len() as int) =~= parameters);
    assert(parameters.subrange(0, REPLY_HEADER_LEN as int) =~= be64(counter));
    assert(parameters.subrange(REPLY_HEADER_LEN as int, parameters.len() as int) =~= result);
}

/// The request in flight went out under the last counter of its session.
pub proof fn lemma_in_flight_is_latest(v: ChannelView)
    requires
        v.wf(),
        v.pending is Some,
    ensures
        v.negotiator.phase is Authorized,
        v.pending.unwrap().counter == v.negotiator.phase->Authorized_session.sent,
{
}

/// A reply resolves only the request that it answers.
///
/// A verified reply that names another counter than that of the request in
/// flight, or comes from another domain, or comes while nothing is in flight,
/// resolves nothing, sends nothing and delivers nothing: it is reported as
/// `UnmatchedReply`, and the channel stays as it is. So a reply that comes
/// after its request has timed out never resolves the request that went out
/// next.
pub proof fn lemma_unmatched_reply_resolves_nothing(
    v: ChannelView,
    envelope: EnvelopeView,
    now: u64,
    oracle: Oracle,
)
    requires
        inbound_spec(envelope) is Reply,
        !v.answers(envelope),
    ensures
        v.correlate_spec(envelope, now, oracle) == (
            v,
            seq![ActionView::Report { error: ChannelError::UnmatchedReply }],
        ),
{
}

/// A reply to an earlier command of the session resolves nothing.
///
/// Every command goes out under a counter of its own, above those before it,
/// and the request in flight went out under the last of them. A verified
/// reply that names a counter below the last one that the session has used
/// answers a command that is no longer in flight: it resolves nothing and is
/// reported as `UnmatchedReply`.
pub proof fn lemma_late_reply_resolves_nothing(
    v: ChannelView,
    envelope: EnvelopeView,
    now: u64,
    oracle: Oracle,
)
    requires
        v.wf(),
        inbound_spec(envelope) is Reply,
        inbound_spec(envelope)->Reply_counter < last_counter_spec(v.negotiator),
    ensures
        v.correlate_spec(envelope, now, oracle) == (
            v,
            seq![ActionView::Report { error: ChannelError::UnmatchedReply }],
        ),
{
}

/// A reply that resolves a request names the counter of that request.
pub proof fn lemma_resolved_reply_matches(
    v: ChannelView,
    envelope: EnvelopeView,
    now: u64,
    oracle: Oracle,
    a: int,
)
    requires
        0 <= a < v.correlate_spec(envelope, now, oracle).1.len(),
        v.correlate_spec(envelope, now, oracle).1[a] is Resolve,
        v.correlate_spec(envelope, now, oracle).1[a]->outcome is Ok,
    ensures
        v.answers(envelope),
        a == 0,
        v.correlate_spec(envelope, now, oracle).1[a] == (ActionView::Resolve {
            request: v.pending.unwrap().id,
            outcome: Ok(inbound_spec(envelope)->Reply_result),
        }),
{
    if v.answers(envelope) {
        let idle = ChannelView { pending: None, ..v };
        let moved = idle.advance_spec(now, oracle);
        if a > 0 {
            assert(v.correlate_spec(envelope, now, oracle).1[a] == moved.1[a - 1]);
        }
    }
}

} // verus!
