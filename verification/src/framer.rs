//! The transport framer: one message as many small writes, and back.
//!
//! The link takes writes of at most a given size. A message is cut into
//! fragments, each with a two-byte index in front; the first one also declares
//! the length of the whole message in four bytes:
//!
//! ```text
//! fragment 0       index 0 (2 bytes), total length (4 bytes), chunk
//! fragment i > 0   index i (2 bytes), chunk
//! ```
//!
//! Every fragment but the last is filled up to the write size, so both ends
//! derive the number of fragments from the total length alone.

use vstd::prelude::*;
use vstd::slice::slice_subrange;
use crate::clock::{deadline_after, deadline_spec};
use crate::error::ChannelError;
use crate::wire::{
    be16, be16_value, be32, be32_value, copy_range, get_be16, get_be32, put_be16, put_be32,
    strings_view,
};

verus! {

/// Bytes in front of the first fragment's chunk.
pub const FIRST_HEADER_LEN: usize = 6;

/// Bytes in front of every later fragment's chunk.
pub const NEXT_HEADER_LEN: usize = 2;

/// The most fragments that the index field can tell apart.
pub const MAX_FRAGMENTS: usize = 65536;

/// The longest message that the total-length field can declare.
pub const MAX_MESSAGE_LEN: usize = 0xffff_ffff;

/// Chunk bytes that fit into the first fragment.
pub open spec fn first_capacity(max_write: int) -> int {
    max_write - FIRST_HEADER_LEN
}

/// Chunk bytes that fit into a later fragment.
pub open spec fn next_capacity(max_write: int) -> int {
    max_write - NEXT_HEADER_LEN
}

/// The number of fragments of a message of `total` bytes.
pub open spec fn fragment_count(total: int, max_write: int) -> int {
    if total <= first_capacity(max_write) {
        1
    } else {
        2 + (total - first_capacity(max_write) - 1) / next_capacity(max_write)
    }
}

/// Where in the message the chunk of fragment `index` ends.
pub open spec fn chunk_end(total: int, max_write: int, index: int) -> int {
    let reach = first_capacity(max_write) + index * next_capacity(max_write);
    if reach < total {
        reach
    } else {
        total
    }
}

/// Where in the message the chunk of fragment `index` starts.
pub open spec fn chunk_start(total: int, max_write: int, index: int) -> int {
    if index <= 0 {
        0
    } else {
        chunk_end(total, max_write, index - 1)
    }
}

/// The part of the message that fragment `index` carries.
pub open spec fn chunk_spec(message: Seq<u8>, max_write: int, index: int) -> Seq<u8> {
    message.subrange(
        chunk_start(message.len() as int, max_write, index),
        chunk_end(message.len() as int, max_write, index),
    )
}

/// The bytes of fragment `index`.
pub open spec fn fragment_spec(message: Seq<u8>, max_write: int, index: int) -> Seq<u8> {
    if index == 0 {
        be16(0) + be32(message.len() as u32) + chunk_spec(message, max_write, 0)
    } else {
        be16(index as u16) + chunk_spec(message, max_write, index)
    }
}

/// Whether the link can carry a chunk at all.
pub open spec fn link_usable(max_write: int) -> bool {
    max_write > FIRST_HEADER_LEN
}

/// Whether a message of `total` bytes can be cut up for a usable link.
pub open spec fn message_fits(total: int, max_write: int) -> bool {
    total <= MAX_MESSAGE_LEN && fragment_count(total, max_write) <= MAX_FRAGMENTS
}

/// The fragments of a message, in order of their index.
pub open spec fn fragments_spec(message: Seq<u8>, max_write: int) -> Seq<Seq<u8>> {
    Seq::new(
        fragment_count(message.len() as int, max_write) as nat,
        |i: int| fragment_spec(message, max_write, i),
    )
}

/// The reach of one more fragment is one chunk further.
proof fn lemma_reach_step(capacity: int, index: int)
    ensures
        (index + 1) * capacity == index * capacity + capacity,
        0 * capacity == 0,
{
    assert((index + 1) * capacity == index * capacity + capacity) by (nonlinear_arith);
}

/// Chunks follow each other without gap or overlap, none is longer than its
/// fragment has room for, and the last one ends where the message ends.
pub proof fn lemma_chunks_tile(total: int, max_write: int, index: int)
    requires
        link_usable(max_write),
        0 <= total,
        0 <= index < fragment_count(total, max_write),
    ensures
        chunk_start(total, max_write, 0) == 0,
        chunk_start(total, max_write, index + 1) == chunk_end(total, max_write, index),
        0 <= chunk_start(total, max_write, index) <= chunk_end(total, max_write, index) <= total,
        index == 0 ==> chunk_end(total, max_write, index) - chunk_start(total, max_write, index)
            <= first_capacity(max_write),
        index > 0 ==> chunk_end(total, max_write, index) - chunk_start(total, max_write, index)
            <= next_capacity(max_write),
        index + 1 == fragment_count(total, max_write) ==> chunk_end(total, max_write, index)
            == total,
        fragment_count(total, max_write) >= 1,
{
    let c0 = first_capacity(max_write);
    let c = next_capacity(max_write);
    lemma_reach_step(c, index - 1);
    lemma_reach_step(c, index);
    assert(0 <= index * c) by (nonlinear_arith)
        requires
            0 <= index,
            0 < c,
    ;
    assert(0 <= (index - 1) * c || index == 0) by (nonlinear_arith)
        requires
            0 <= index,
            0 < c,
    ;
    if total > c0 {
        let q = (total - c0 - 1) / c;
        vstd::arithmetic::div_mod::lemma_fundamental_div_mod(total - c0 - 1, c);
        vstd::arithmetic::div_mod::lemma_mod_bound(total - c0 - 1, c);
        vstd::arithmetic::div_mod::lemma_div_pos_is_pos(total - c0 - 1, c);
        assert(c * q == q * c) by (nonlinear_arith);
        if index + 1 == fragment_count(total, max_write) {
            assert(index == q + 1);
            lemma_reach_step(c, q);
        }
    }
}

/// The number of fragments of a message of `total` bytes.
pub fn count_fragments(total: u32, max_write: usize) -> (count: usize)
    requires
        link_usable(max_write as int),
    ensures
        count == fragment_count(total as int, max_write as int),
        count >= 1,
{
    let first: usize = max_write - FIRST_HEADER_LEN;
    let next: usize = max_write - NEXT_HEADER_LEN;
    let length: usize = total as usize;
    if length <= first {
        1
    } else {
        2 + (length - first - 1) / next
    }
}

/// Cuts a message into fragments that each fit into one write.
///
/// Fails with `LinkError` where the link has no room for a chunk beside the
/// first fragment's header, and with `MalformedMessage` where the message is
/// longer than the length field, or has more fragments than the index field,
/// can declare.
pub fn fragment(message: &[u8], max_write: usize) -> (r: Result<Vec<Vec<u8>>, ChannelError>)
    ensures
        !link_usable(max_write as int) ==> r == Err::<Vec<Vec<u8>>, ChannelError>(
            ChannelError::LinkError,
        ),
        link_usable(max_write as int) && !message_fits(message@.len() as int, max_write as int)
            ==> r == Err::<Vec<Vec<u8>>, ChannelError>(ChannelError::MalformedMessage),
        link_usable(max_write as int) && message_fits(message@.len() as int, max_write as int)
            ==> r is Ok && strings_view(r.unwrap()@) == fragments_spec(message@, max_write as int)
            && forall|i: int|
            0 <= i < r.unwrap()@.len() ==> (#[trigger] r.unwrap()@[i])@.len() <= max_write,
{
    if max_write <= FIRST_HEADER_LEN {
        return Err(ChannelError::LinkError);
    }
    let total: usize = message.len();
    if total > MAX_MESSAGE_LEN {
        return Err(ChannelError::MalformedMessage);
    }
    let count: usize = count_fragments(total as u32, max_write);
    if count > MAX_FRAGMENTS {
        return Err(ChannelError::MalformedMessage);
    }
    let first: usize = max_write - FIRST_HEADER_LEN;
    let next: usize = max_write - NEXT_HEADER_LEN;
    let mut fragments: Vec<Vec<u8>> = Vec::new();
    let mut start: usize = 0;
    let mut index: usize = 0;
    while index < count
        invariant
            index <= count <= MAX_FRAGMENTS,
            count == fragment_count(total as int, max_write as int),
            link_usable(max_write as int),
            total == message@.len(),
            total <= MAX_MESSAGE_LEN,
            first == first_capacity(max_write as int),
            next == next_capacity(max_write as int),
            start == chunk_start(total as int, max_write as int, index as int),
            start <= total,
            fragments@.len() == index,
            forall|i: int|
                0 <= i < index ==> {
                    &&& (#[trigger] fragments@[i])@ == fragment_spec(message@, max_write as int, i)
                    &&& fragments@[i]@.len() <= max_write
                },
        decreases count - index,
    {
        proof {
            lemma_chunks_tile(total as int, max_write as int, index as int);
        }
        let room: usize = if index == 0 {
            first
        } else {
            next
        };
        let end: usize = if total - start > room {
            start + room
        } else {
            total
        };
        proof {
            lemma_reach_step(next as int, index as int - 1);
            assert(end == chunk_end(total as int, max_write as int, index as int));
        }
        let mut piece: Vec<u8> = Vec::new();
        put_be16(&mut piece, index as u16);
        if index == 0 {
            put_be32(&mut piece, total as u32);
        }
        piece.extend_from_slice(slice_subrange(message, start, end));
        assert(piece@ =~= fragment_spec(message@, max_write as int, index as int));
        fragments.push(piece);
        start = end;
        index = index + 1;
    }
    assert(strings_view(fragments@) =~= fragments_spec(message@, max_write as int));
    Ok(fragments)
}

/// What one fragment says of itself.
pub ghost struct Piece {
    pub index: int,
    pub total: Option<int>,
    pub chunk: Seq<u8>,
}

/// Index, declared total and chunk of a fragment, or `None` where the bytes are
/// too short for the header that their index calls for.
pub open spec fn piece_spec(fragment: Seq<u8>) -> Option<Piece> {
    if fragment.len() < NEXT_HEADER_LEN {
        None
    } else if be16_value(fragment.subrange(0, 2)) != 0 {
        Some(
            Piece {
                index: be16_value(fragment.subrange(0, 2)) as int,
                total: None,
                chunk: fragment.subrange(NEXT_HEADER_LEN as int, fragment.len() as int),
            },
        )
    } else if fragment.len() < FIRST_HEADER_LEN {
        None
    } else {
        Some(
            Piece {
                index: 0,
                total: Some(be32_value(fragment.subrange(2, 6)) as int),
                chunk: fragment.subrange(FIRST_HEADER_LEN as int, fragment.len() as int),
            },
        )
    }
}

/// The chunks of fragments `0` up to `count`, one after the other.
pub open spec fn assemble_spec(chunks: Map<int, Seq<u8>>, count: int) -> Seq<u8>
    decreases count,
{
    if count <= 0 {
        Seq::empty()
    } else {
        assemble_spec(chunks, count - 1) + chunks[count - 1]
    }
}

/// The mathematical value of a [`Reassembler`]: the chunks that have arrived,
/// by fragment index, and what is known of the message they belong to.
pub ghost struct Buffer {
    pub max_write: int,
    pub stale_after: u64,
    pub chunks: Map<int, Seq<u8>>,
    pub total: Option<int>,
    pub deadline: u64,
}

impl Buffer {
    /// Whether nothing is buffered.
    pub open spec fn is_empty(self) -> bool {
        self.chunks == Map::<int, Seq<u8>>::empty()
    }

    /// Whether something is buffered that should have been complete by `now`.
    pub open spec fn is_stale(self, now: u64) -> bool {
        !self.is_empty() && now > self.deadline
    }

    /// The buffer with everything dropped.
    pub open spec fn cleared(self) -> Buffer {
        Buffer { chunks: Map::empty(), total: None, deadline: 0, ..self }
    }

    /// The buffer as it goes into tick `now`: emptied if it is stale.
    pub open spec fn expired(self, now: u64) -> Buffer {
        if self.is_stale(now) {
            self.cleared()
        } else {
            self
        }
    }

    /// The buffer with one more chunk in it.
    pub open spec fn placed(self, piece: Piece, now: u64) -> Buffer {
        Buffer {
            chunks: self.chunks.insert(piece.index, piece.chunk),
            total: if piece.index == 0 {
                piece.total
            } else {
                self.total
            },
            deadline: if self.is_empty() {
                deadline_spec(now, self.stale_after)
            } else {
                self.deadline
            },
            ..self
        }
    }

    /// Whether every fragment below `count` has arrived.
    pub open spec fn holds_all(self, count: int) -> bool {
        forall|i: int| 0 <= i < count ==> self.chunks.contains_key(i)
    }

    /// Whether a fragment has arrived that a message of `count` fragments does
    /// not have.
    pub open spec fn holds_beyond(self, count: int) -> bool {
        exists|i: int| i >= count && self.chunks.contains_key(i)
    }

    /// What the arrival of `fragment` at tick `now` does to the buffer, and
    /// what it hands upstream: nothing yet (`Ok(None)`), the whole message
    /// (`Ok(Some(..))`), or an error. After a message or an error the buffer
    /// is empty.
    pub open spec fn accept_spec(self, fragment: Seq<u8>, now: u64) -> (
        Buffer,
        Result<Option<Seq<u8>>, ChannelError>,
    ) {
        let before = self.expired(now);
        match piece_spec(fragment) {
            None => (before.cleared(), Err(ChannelError::MalformedMessage)),
            Some(piece) => if before.chunks.contains_key(piece.index) {
                (before.cleared(), Err(ChannelError::MalformedMessage))
            } else {
                let after = before.placed(piece, now);
                match after.total {
                    None => (after, Ok(None)),
                    Some(total) => {
                        let count = fragment_count(total, self.max_write);
                        if after.holds_beyond(count) {
                            (before.cleared(), Err(ChannelError::MalformedMessage))
                        } else if !after.holds_all(count) {
                            (after, Ok(None))
                        } else if assemble_spec(after.chunks, count).len() != total {
                            (before.cleared(), Err(ChannelError::MalformedMessage))
                        } else {
                            (before.cleared(), Ok(Some(assemble_spec(after.chunks, count))))
                        }
                    },
                }
            },
        }
    }
}

/// Reassembly state of one inbound message.
///
/// Fragments may arrive in any order. Nothing is handed upstream before every
/// fragment is there and the chunks add up to the declared total.
pub struct Reassembler {
    max_write: usize,
    stale_after: u64,
    slots: Vec<Option<Vec<u8>>>,
    total: Option<u32>,
    deadline: u64,
}

impl View for Reassembler {
    type V = Buffer;

    closed spec fn view(&self) -> Buffer {
        Buffer {
            max_write: self.max_write as int,
            stale_after: self.stale_after,
            chunks: slots_view(self.slots@),
            total: match self.total {
                Some(t) => Some(t as int),
                None => None,
            },
            deadline: if self.slots@.len() == 0 {
                0
            } else {
                self.deadline
            },
        }
    }
}

/// The chunks in a row of slots, by index.
spec fn slots_view(slots: Seq<Option<Vec<u8>>>) -> Map<int, Seq<u8>> {
    Map::new(|i: int| 0 <= i < slots.len() && slots[i] is Some, |i: int| slots[i].unwrap()@)
}

impl Reassembler {
    /// The invariant of the buffer: the highest slot is taken, and once the
    /// total is known no slot lies beyond the message.
    pub closed spec fn wf(&self) -> bool {
        &&& link_usable(self.max_write as int)
        &&& self.slots@.len() <= MAX_FRAGMENTS
        &&& self.slots@.len() > 0 ==> self.slots@.last() is Some
        &&& match self.total {
            Some(t) => {
                &&& self.slots@.len() > 0
                &&& self.slots@[0] is Some
                &&& self.slots@.len() <= fragment_count(t as int, self.max_write as int)
            },
            None => self.slots@.len() == 0 || self.slots@[0] is None,
        }
    }

    /// An empty buffer for a link that takes writes of `max_write` bytes. A
    /// message that is not complete `stale_after` ticks after its first
    /// fragment arrived is dropped. Fails with `LinkError` where the link has
    /// no room for a chunk.
    pub fn new(max_write: usize, stale_after: u64) -> (r: Result<Reassembler, ChannelError>)
        ensures
            link_usable(max_write as int) ==> r is Ok && r.unwrap().wf() && r.unwrap()@ == (Buffer {
                max_write: max_write as int,
                stale_after,
                chunks: Map::empty(),
                total: None,
                deadline: 0,
            }),
            !link_usable(max_write as int) ==> (r matches Err(e) && e == ChannelError::LinkError),
    {
        if max_write <= FIRST_HEADER_LEN {
            return Err(ChannelError::LinkError);
        }
        let r = Reassembler { max_write, stale_after, slots: Vec::new(), total: None, deadline: 0 };
        assert(r@.chunks =~= Map::<int, Seq<u8>>::empty());
        Ok(r)
    }

    /// The write size of the link that the buffer is for.
    pub fn max_write(&self) -> (n: usize)
        ensures
            n == self@.max_write,
    {
        self.max_write
    }

    /// Whether no slot is in use.
    fn no_slots(&self) -> (r: bool)
        requires
            self.wf(),
        ensures
            r == self@.is_empty(),
            r == (self.slots@.len() == 0),
    {
        proof {
            if self.slots@.len() > 0 {
                assert(self@.chunks.contains_key(self.slots@.len() - 1));
            } else {
                assert(self@.chunks =~= Map::<int, Seq<u8>>::empty());
            }
        }
        self.slots.len() == 0
    }

    /// Whether nothing is buffered.
    pub fn is_empty(&self) -> (r: bool)
        requires
            self.wf(),
        ensures
            r == self@.is_empty(),
    {
        self.no_slots()
    }

    /// The tick after which what is buffered goes stale, if anything is.
    pub fn deadline(&self) -> (r: Option<u64>)
        requires
            self.wf(),
        ensures
            r == if self@.is_empty() {
                None
            } else {
                Some(self@.deadline)
            },
    {
        if self.no_slots() {
            None
        } else {
            Some(self.deadline)
        }
    }

    /// Drops everything that is buffered.
    pub fn clear(&mut self)
        requires
            old(self).wf(),
        ensures
            final(self).wf(),
            final(self)@ == old(self)@.cleared(),
    {
        self.slots = Vec::new();
        self.total = None;
        self.deadline = 0;
        assert(self@.chunks =~= Map::<int, Seq<u8>>::empty());
    }

    /// Drops what is buffered if it is stale at tick `now`, and says whether
    /// it did.
    pub fn expire(&mut self, now: u64) -> (dropped: bool)
        requires
            old(self).wf(),
        ensures
            final(self).wf(),
            dropped == old(self)@.is_stale(now),
            final(self)@ == old(self)@.expired(now),
    {
        if !self.no_slots() && now > self.deadline {
            self.clear();
            true
        } else {
            false
        }
    }

    /// Puts a chunk into its slot. The slot is free and within the message.
    fn place(&mut self, index: usize, chunk: Vec<u8>, total: Option<u32>, now: u64)
        requires
            old(self).wf(),
            index < MAX_FRAGMENTS,
            !old(self)@.chunks.contains_key(index as int),
            index == 0 ==> total is Some,
            index != 0 ==> total == old(self).total,
            total is Some ==> index < fragment_count(
                total.unwrap() as int,
                old(self).max_write as int,
            ) && old(self).slots@.len() <= fragment_count(
                total.unwrap() as int,
                old(self).max_write as int,
            ),
        ensures
            final(self).wf(),
            final(self).total == total,
            final(self).max_write == old(self).max_write,
            final(self).slots@.len() == if index < old(self).slots@.len() {
                old(self).slots@.len() as int
            } else {
                index + 1
            },
            final(self)@ == old(self)@.placed(
                Piece {
                    index: index as int,
                    total: match total {
                        Some(t) => Some(t as int),
                        None => None,
                    },
                    chunk: chunk@,
                },
                now,
            ),
    {
        let ghost before = self.slots@;
        if self.no_slots() {
            self.deadline = deadline_after(now, self.stale_after);
        }
        while self.slots.len() <= index
            invariant
                index < MAX_FRAGMENTS,
                self.max_write == old(self).max_write,
                self.stale_after == old(self).stale_after,
                self.total == old(self).total,
                self.deadline == if before.len() == 0 {
                    deadline_spec(now, old(self).stale_after)
                } else {
                    old(self).deadline
                },
                self.slots@.len() <= index + 1 || self.slots@.len() == before.len(),
                before.len() <= self.slots@.len(),
                forall|i: int| 0 <= i < before.len() ==> self.slots@[i] == before[i],
                forall|i: int| before.len() <= i < self.slots@.len() ==> self.slots@[i] is None,
            decreases index + 1 - self.slots@.len(),
        {
            self.slots.push(None);
        }
        self.slots[index] = Some(chunk);
        self.total = total;
        assert(self@.chunks =~= slots_view(before).insert(index as int, chunk@));
    }

    /// Whether every slot below `count` is taken.
    fn holds_all(&self, count: usize) -> (r: bool)
        requires
            self.wf(),
            self.slots@.len() <= count,
        ensures
            r == self@.holds_all(count as int),
            r ==> self.slots@.len() == count,
            r ==> forall|j: int| 0 <= j < count ==> self.slots@[j] is Some,
    {
        if self.slots.len() < count {
            assert(!self@.chunks.contains_key(count - 1));
            return false;
        }
        let mut i: usize = 0;
        while i < count
            invariant
                i <= count == self.slots@.len(),
                forall|j: int| 0 <= j < i ==> self.slots@[j] is Some,
            decreases count - i,
        {
            if self.slots[i].is_none() {
                assert(!self@.chunks.contains_key(i as int));
                return false;
            }
            i = i + 1;
        }
        true
    }

    /// The chunks of all `count` slots in a row, if they add up to `total`
    /// bytes.
    fn assemble(&self, count: usize, total: u32) -> (r: Option<Vec<u8>>)
        requires
            self.slots@.len() == count,
            forall|j: int| 0 <= j < count ==> self.slots@[j] is Some,
        ensures
            r is Some <==> assemble_spec(self@.chunks, count as int).len() == total,
            r is Some ==> r.unwrap()@ == assemble_spec(self@.chunks, count as int),
    {
        let limit: usize = total as usize;
        let mut out: Vec<u8> = Vec::new();
        let mut i: usize = 0;
        while i < count
            invariant
                limit == total,
                i <= count == self.slots@.len(),
                forall|j: int| 0 <= j < count ==> self.slots@[j] is Some,
                out@ == assemble_spec(self@.chunks, i as int),
                out@.len() <= limit,
            decreases count - i,
        {
            let chunk: &Vec<u8> = self.slots[i].as_ref().unwrap();
            assert(self@.chunks[i as int] == chunk@);
            if chunk.len() > limit - out.len() {
                proof {
                    assert(assemble_spec(self@.chunks, i as int + 1) == out@ + chunk@);
                    lemma_assemble_grows(self@.chunks, i as int + 1, count as int);
                }
                return None;
            }
            out.extend_from_slice(chunk.as_slice());
            i = i + 1;
        }
        if out.len() == limit {
            Some(out)
        } else {
            None
        }
    }

    /// Takes one fragment in at tick `now`.
    ///
    /// Returns `Ok(None)` while the message is incomplete and `Ok(Some(..))`
    /// with the whole message once its last missing fragment is in. A stale
    /// buffer is dropped before the fragment is looked at. A fragment that is
    /// too short, comes twice, lies beyond the declared total, or completes a
    /// message of another length than declared gives `MalformedMessage`. After
    /// a message or an error nothing stays buffered.
    pub fn accept(&mut self, fragment: &[u8], now: u64) -> (r: Result<
        Option<Vec<u8>>,
        ChannelError,
    >)
        requires
            old(self).wf(),
        ensures
            final(self).wf(),
            final(self)@ == old(self)@.accept_spec(fragment@, now).0,
            match r {
                Ok(Some(message)) => old(self)@.accept_spec(fragment@, now).1 == Ok::<
                    Option<Seq<u8>>,
                    ChannelError,
                >(Some(message@)),
                Ok(None) => old(self)@.accept_spec(fragment@, now).1 == Ok::<
                    Option<Seq<u8>>,
                    ChannelError,
                >(None),
                Err(e) => old(self)@.accept_spec(fragment@, now).1 == Err::<
                    Option<Seq<u8>>,
                    ChannelError,
                >(e),
            },
    {
        self.expire(now);
        let ghost before = self@;
        if fragment.len() < NEXT_HEADER_LEN {
            self.clear();
            return Err(ChannelError::MalformedMessage);
        }
        let index: usize = get_be16(fragment, 0) as usize;
        if index == 0 && fragment.len() < FIRST_HEADER_LEN {
            self.clear();
            return Err(ChannelError::MalformedMessage);
        }
        let ghost piece = piece_spec(fragment@).unwrap();
        if index < self.slots.len() && self.slots[index].is_some() {
            self.clear();
            return Err(ChannelError::MalformedMessage);
        }
        assert(!before.chunks.contains_key(index as int));
        let total: Option<u32> = if index == 0 {
            Some(get_be32(fragment, 2))
        } else {
            self.total
        };
        let body: usize = if index == 0 {
            FIRST_HEADER_LEN
        } else {
            NEXT_HEADER_LEN
        };
        let ghost after = before.placed(piece, now);
        match total {
            None => {
                let chunk = copy_range(fragment, body, fragment.len());
                self.place(index, chunk, total, now);
                Ok(None)
            },
            Some(t) => {
                let count: usize = count_fragments(t, self.max_write);
                if index >= count || self.slots.len() > count {
                    proof {
                        if index >= count {
                            assert(after.chunks.contains_key(index as int));
                        } else {
                            assert(after.chunks.contains_key(self.slots@.len() - 1));
                        }
                        assert(after.holds_beyond(count as int));
                    }
                    self.clear();
                    return Err(ChannelError::MalformedMessage);
                }
                let chunk = copy_range(fragment, body, fragment.len());
                self.place(index, chunk, total, now);
                assert(self@ == after);
                assert(!after.holds_beyond(count as int));
                if !self.holds_all(count) {
                    return Ok(None);
                }
                let whole = self.assemble(count, t);
                self.clear();
                match whole {
                    Some(message) => Ok(Some(message)),
                    None => Err(ChannelError::MalformedMessage),
                }
            },
        }
    }
}

/// A row of chunks never gets shorter when more chunks are added.
proof fn lemma_assemble_grows(chunks: Map<int, Seq<u8>>, some: int, all: int)
    requires
        0 <= some <= all,
    ensures
        assemble_spec(chunks, some).len() <= assemble_spec(chunks, all).len(),
    decreases all - some,
{
    if some < all {
        lemma_assemble_grows(chunks, some, all - 1);
    }
}

} // verus!
