//! Content-defined chunking: splitting a byte buffer into variable-length,
//! content-dependent segments, so that a local edit moves only the boundaries
//! near the edit. A boundary fires exactly `window + 1` positions after the
//! most recent strict local maximum, provided no larger byte appeared since.

use vstd::prelude::*;

verus! {

/// The largest byte value among the first `p` bytes of `s` (the running
/// maximum just before position `p` is examined). Before any byte has been
/// examined the scan state is seeded with the first byte, so `p <= 1` gives
/// `s[0]`.
pub open spec fn prefix_max(s: Seq<u8>, p: int) -> u8
    decreases p,
{
    if p <= 1 {
        s[0]
    } else if s[p - 1] > prefix_max(s, p - 1) {
        s[p - 1]
    } else {
        prefix_max(s, p - 1)
    }
}

/// The anchor just before position `p` is examined: the position of the first
/// byte that attains `prefix_max(s, p)`. Only a strictly larger byte moves the
/// anchor, so a plateau of bytes equal to the maximum keeps the earlier anchor.
pub open spec fn anchor(s: Seq<u8>, p: int) -> int
    decreases p,
{
    if p <= 1 {
        0
    } else if s[p - 1] > prefix_max(s, p - 1) {
        p - 1
    } else {
        anchor(s, p - 1)
    }
}

/// A chunk boundary fires at `p` iff the byte there does not exceed the
/// running maximum and `p` lies exactly `w + 1` positions past the anchor.
pub open spec fn is_boundary(s: Seq<u8>, w: int, p: int) -> bool {
    &&& 0 <= p < s.len()
    &&& s[p] <= prefix_max(s, p)
    &&& p == anchor(s, p) + w + 1
}

/// The first boundary of `s` at or after position `p`, or `s.len()` if none
/// fires before the end.
pub open spec fn first_boundary_from(s: Seq<u8>, w: int, p: int) -> int
    decreases s.len() - p,
{
    if p < 0 || p >= s.len() {
        s.len() as int
    } else if is_boundary(s, w, p) {
        p
    } else {
        first_boundary_from(s, w, p + 1)
    }
}

/// The offset of the next chunk boundary in `s`: the first position where a
/// boundary fires, or `s.len()` if none does. An empty `s` gives `0`.
pub open spec fn cutpoint_of(s: Seq<u8>, w: int) -> int {
    first_boundary_from(s, w, 0)
}

/// The anchor never lies outside the scanned prefix.
proof fn lemma_anchor_bounds(s: Seq<u8>, p: int)
    ensures
        0 <= anchor(s, p),
        p >= 1 ==> anchor(s, p) < p,
    decreases p,
{
    if p > 1 {
        lemma_anchor_bounds(s, p - 1);
    }
}

/// A boundary can fire no earlier than `w + 1`, since the anchor starts at 0.
pub proof fn lemma_boundary_min(s: Seq<u8>, w: int, p: int)
    requires
        is_boundary(s, w, p),
    ensures
        p >= w + 1,
{
    lemma_anchor_bounds(s, p);
}

/// `first_boundary_from(s, w, i)` is pinned down by exhibiting the first
/// boundary at or after `i` (or the absence of any).
proof fn lemma_first_boundary_pinned(s: Seq<u8>, w: int, i: int, p: int)
    requires
        0 <= i <= p <= s.len(),
        forall|q: int| i <= q < p ==> !is_boundary(s, w, q),
        p == s.len() || is_boundary(s, w, p),
    ensures
        first_boundary_from(s, w, i) == p,
    decreases p - i,
{
    if i < p {
        assert(!is_boundary(s, w, i));
        lemma_first_boundary_pinned(s, w, i + 1, p);
    }
}

/// What the cutpoint is: at most `s.len()`, either the end or a boundary, and
/// no boundary fires before it. For a nonempty buffer it is at least 1, so a
/// scan always makes progress.
pub proof fn lemma_cutpoint_props(s: Seq<u8>, w: int)
    requires
        w >= 0,
    ensures
        0 <= cutpoint_of(s, w) <= s.len(),
        cutpoint_of(s, w) == s.len() || is_boundary(s, w, cutpoint_of(s, w)),
        forall|q: int| 0 <= q < cutpoint_of(s, w) ==> !is_boundary(s, w, q),
        s.len() > 0 ==> cutpoint_of(s, w) >= 1,
    decreases s.len(),
{
    lemma_cutpoint_from_props(s, w, 0);
    if cutpoint_of(s, w) < s.len() {
        lemma_boundary_min(s, w, cutpoint_of(s, w));
    }
}

/// Induction behind `lemma_cutpoint_props`, from an arbitrary start position.
proof fn lemma_cutpoint_from_props(s: Seq<u8>, w: int, i: int)
    requires
        0 <= i <= s.len(),
    ensures
        i <= first_boundary_from(s, w, i) <= s.len(),
        first_boundary_from(s, w, i) == s.len() || is_boundary(
            s,
            w,
            first_boundary_from(s, w, i),
        ),
        forall|q: int| i <= q < first_boundary_from(s, w, i) ==> !is_boundary(s, w, q),
    decreases s.len() - i,
{
    if i < s.len() && !is_boundary(s, w, i) {
        lemma_cutpoint_from_props(s, w, i + 1);
    }
}

/// The chunk sequence of a buffer: repeatedly cut at the next boundary, each
/// remaining suffix scanned afresh. An empty buffer yields exactly one chunk,
/// the empty one; a nonempty buffer whose scan reaches the end yields itself
/// as the final (possibly short) chunk. The `c < 1` guard is never taken for
/// `w >= 1` (`lemma_cutpoint_props`); it only keeps the recursion well founded.
pub open spec fn chunk_seq(s: Seq<u8>, w: int) -> Seq<Seq<u8>>
    decreases s.len(),
{
    let c = cutpoint_of(s, w);
    if s.len() == 0 || c < 1 || c >= s.len() {
        seq![s]
    } else {
        seq![s.subrange(0, c)] + chunk_seq(s.subrange(c, s.len() as int), w)
    }
}

/// The sum of the lengths of a sequence of chunks.
pub open spec fn sum_len(cs: Seq<Seq<u8>>) -> int
    decreases cs.len(),
{
    if cs.len() == 0 {
        0
    } else {
        cs[0].len() + sum_len(cs.drop_first())
    }
}

/// The concatenation, in order, of a sequence of chunks.
pub open spec fn concat_of(cs: Seq<Seq<u8>>) -> Seq<u8>
    decreases cs.len(),
{
    if cs.len() == 0 {
        Seq::empty()
    } else {
        cs[0] + concat_of(cs.drop_first())
    }
}

/// The chunks of a buffer cover it exactly: the sum of their lengths is the
/// buffer's length.
pub proof fn lemma_chunks_cover_length(s: Seq<u8>, w: int)
    requires
        w >= 1,
    ensures
        sum_len(chunk_seq(s, w)) == s.len(),
    decreases s.len(),
{
    lemma_cutpoint_props(s, w);
    let c = cutpoint_of(s, w);
    if s.len() == 0 || c < 1 || c >= s.len() {
        assert(chunk_seq(s, w) == seq![s]);
        assert(chunk_seq(s, w).drop_first() =~= Seq::<Seq<u8>>::empty());
        assert(sum_len(chunk_seq(s, w)) == s.len() + sum_len(Seq::<Seq<u8>>::empty()));
    } else {
        let rest = s.subrange(c, s.len() as int);
        lemma_chunks_cover_length(rest, w);
        assert(chunk_seq(s, w).drop_first() =~= chunk_seq(rest, w));
        assert(sum_len(chunk_seq(s, w)) == c + sum_len(chunk_seq(rest, w)));
    }
}

/// Concatenating the chunks of a buffer, in order, reproduces the buffer
/// byte for byte.
pub proof fn lemma_chunks_concat_to_buffer(s: Seq<u8>, w: int)
    requires
        w >= 1,
    ensures
        concat_of(chunk_seq(s, w)) == s,
    decreases s.len(),
{
    lemma_cutpoint_props(s, w);
    let c = cutpoint_of(s, w);
    if s.len() == 0 || c < 1 || c >= s.len() {
        assert(chunk_seq(s, w) == seq![s]);
        assert(chunk_seq(s, w).drop_first() =~= Seq::<Seq<u8>>::empty());
        assert(concat_of(chunk_seq(s, w)) == s + concat_of(Seq::<Seq<u8>>::empty()));
        assert(s + Seq::<u8>::empty() =~= s);
    } else {
        let rest = s.subrange(c, s.len() as int);
        lemma_chunks_concat_to_buffer(rest, w);
        assert(chunk_seq(s, w).drop_first() =~= chunk_seq(rest, w));
        assert(concat_of(chunk_seq(s, w)) =~= s.subrange(0, c) + rest);
        assert(s.subrange(0, c) + rest =~= s);
    }
}

/// Every chunk except possibly the last has length at least `w + 1`: an
/// interior chunk ends at a boundary, and no boundary fires earlier.
pub proof fn lemma_interior_chunks_min_len(s: Seq<u8>, w: int)
    requires
        w >= 1,
    ensures
        forall|i: int|
            0 <= i < chunk_seq(s, w).len() - 1 ==> (#[trigger] chunk_seq(s, w)[i]).len() >= w + 1,
    decreases s.len(),
{
    lemma_cutpoint_props(s, w);
    let c = cutpoint_of(s, w);
    if !(s.len() == 0 || c < 1 || c >= s.len()) {
        let rest = s.subrange(c, s.len() as int);
        lemma_boundary_min(s, w, c);
        lemma_interior_chunks_min_len(rest, w);
        assert forall|i: int| 0 <= i < chunk_seq(s, w).len() - 1 implies (#[trigger] chunk_seq(
            s,
            w,
        )[i]).len() >= w + 1 by {
            if i >= 1 {
                assert(chunk_seq(s, w)[i] == chunk_seq(rest, w)[i - 1]);
            }
        }
    }
}

/// An empty buffer yields exactly one chunk, the empty one.
pub proof fn lemma_empty_buffer_one_empty_chunk(w: int)
    requires
        w >= 1,
    ensures
        chunk_seq(Seq::<u8>::empty(), w).len() == 1,
        chunk_seq(Seq::<u8>::empty(), w)[0].len() == 0,
{
}

/// Chunking is deterministic: the chunk sequence is a function of the buffer
/// and the window alone, so two calls on identical inputs produce identical
/// boundary sequences.
pub proof fn lemma_chunking_deterministic(s1: Seq<u8>, w1: int, s2: Seq<u8>, w2: int)
    requires
        s1 == s2,
        w1 == w2,
    ensures
        chunk_seq(s1, w1) == chunk_seq(s2, w2),
{
}

/// Returns the offset of the next chunk boundary within `input`, or
/// `input.len()` if no boundary fires before the end (`0` for an empty slice).
///
/// The scan keeps a running maximum seeded with the first byte: a strictly
/// larger byte moves the maximum, and a boundary fires at the first position
/// that does not exceed the maximum and lies exactly `window + 1` positions
/// past it.
#[verifier::loop_isolation(false)]
pub fn next_cutpoint(input: &[u8], window: usize) -> (r: usize)
    requires
        window >= 1,
    ensures
        r == cutpoint_of(input@, window as int),
        r <= input@.len(),
        input@.len() > 0 ==> r >= 1,
{
    let ghost s = input@;
    let ghost w = window as int;
    let len = input.len();
    if len == 0 {
        return 0;
    }
    let mut max_value: u8 = input[0];
    let mut max_position: usize = 0;
    let mut pos: usize = 0;
    while pos < len
        invariant
            0 <= pos <= len,
            max_position <= pos,
            max_position < len,
            max_value == prefix_max(s, pos as int),
            max_position == anchor(s, pos as int),
            forall|q: int| 0 <= q < pos ==> !is_boundary(s, w, q),
        decreases len - pos,
    {
        let v = input[pos];
        if v <= max_value {
            let gap = pos - max_position;
            if gap >= 1 && gap - 1 == window {
                proof {
                    assert(is_boundary(s, w, pos as int));
                    lemma_first_boundary_pinned(s, w, 0, pos as int);
                }
                return pos;
            }
        } else {
            max_value = v;
            max_position = pos;
        }
        proof {
            assert(prefix_max(s, pos + 1) == max_value);
            assert(anchor(s, pos + 1) == max_position);
            assert(!is_boundary(s, w, pos as int));
        }
        pos = pos + 1;
    }
    proof {
        lemma_first_boundary_pinned(s, w, 0, len as int);
    }
    len
}

/// The one way chunking can fail: a window of zero is rejected before any
/// scanning begins, since it would cut two bytes past every local maximum.
#[derive(Clone, Copy, Debug, PartialEq, Eq, Structural)]
pub enum ChunkError {
    InvalidArgument,
}

/// Yields the chunks of a buffer one at a time: a cursor walks the buffer,
/// and each step scans the unconsumed suffix for its next boundary. The chunks
/// are non-owning views into the buffer.
pub struct ChunkIter<'a> {
    input: &'a [u8],
    current_pos: usize,
    window: usize,
    done: bool,
}

impl<'a> ChunkIter<'a> {
    /// The buffer being chunked.
    pub closed spec fn buffer(self) -> Seq<u8> {
        self.input@
    }

    /// The window the iterator was built with.
    pub closed spec fn window_of(self) -> int {
        self.window as int
    }

    /// Well-formed iterator state: the cursor never passes the end, and once
    /// the iterator is not done on a nonempty buffer, bytes remain. (A cursor
    /// at the end of a not-yet-done empty buffer still owes the one empty
    /// chunk.)
    pub closed spec fn wf(self) -> bool {
        &&& self.window >= 1
        &&& self.current_pos <= self.input@.len()
        &&& (!self.done && self.input@.len() > 0 ==> self.current_pos < self.input@.len())
    }

    /// The chunks still to be yielded: the chunk sequence of the unconsumed
    /// suffix, or nothing once the iterator is done.
    pub closed spec fn remaining(self) -> Seq<Seq<u8>> {
        if self.done {
            Seq::empty()
        } else {
            chunk_seq(
                self.input@.subrange(self.current_pos as int, self.input@.len() as int),
                self.window as int,
            )
        }
    }

    /// Yields the next chunk, or `None` once the whole buffer has been
    /// yielded. Each step scans the unconsumed suffix once.
    pub fn next(&mut self) -> (r: Option<&'a [u8]>)
        requires
            old(self).wf(),
        ensures
            final(self).wf(),
            final(self).buffer() == old(self).buffer(),
            final(self).window_of() == old(self).window_of(),
            old(self).remaining().len() == 0 ==> r is None && final(self).remaining()
                == old(self).remaining(),
            old(self).remaining().len() > 0 ==> (r matches Some(c) && c@ == old(
                self,
            ).remaining()[0] && final(self).remaining() == old(self).remaining().drop_first()),
    {
        let ghost s = self.input@;
        let ghost w = self.window as int;
        if self.done {
            return None;
        }
        if self.current_pos == self.input.len() {
            // Only an empty buffer reaches here while not done: it owes one
            // empty chunk.
            self.done = true;
            let c = vstd::slice::slice_subrange(self.input, 0, 0);
            proof {
                assert(old(self).remaining() == seq![s.subrange(0, 0)]);
                assert(c@ == old(self).remaining()[0]);
                assert(final(self).remaining() =~= old(self).remaining().drop_first());
            }
            return Some(c);
        }
        let ghost suffix = s.subrange(old(self).current_pos as int, s.len() as int);
        let rest = vstd::slice::slice_subrange(self.input, self.current_pos, self.input.len());
        let rel = next_cutpoint(rest, self.window);
        proof {
            lemma_cutpoint_props(suffix, w);
            if rel < suffix.len() {
                lemma_boundary_min(suffix, w, rel as int);
            }
        }
        let chunk = vstd::slice::slice_subrange(
            self.input,
            self.current_pos,
            self.current_pos + rel,
        );
        self.current_pos = self.current_pos + rel;
        if self.current_pos == self.input.len() {
            self.done = true;
        }
        proof {
            let c = cutpoint_of(suffix, w);
            assert(chunk@ =~= suffix.subrange(0, c));
            if c < suffix.len() {
                assert(suffix.subrange(c, suffix.len() as int) =~= s.subrange(
                    final(self).current_pos as int,
                    s.len() as int,
                ));
                assert(old(self).remaining() == seq![suffix.subrange(0, c)] + chunk_seq(
                    s.subrange(final(self).current_pos as int, s.len() as int),
                    w,
                ));
                assert(final(self).remaining() =~= old(self).remaining().drop_first());
            } else {
                assert(old(self).remaining() == seq![suffix]);
                assert(chunk@ =~= suffix);
                assert(final(self).remaining() =~= old(self).remaining().drop_first());
            }
        }
        Some(chunk)
    }
}

/// Chunks `input` with the given window: the returned iterator yields an
/// ordered, gapless, non-overlapping partition of `input`, exactly
/// `chunk_seq(input@, window)`. A window of zero is rejected up front.
pub fn chunk<'a>(input: &'a [u8], window: usize) -> (r: Result<ChunkIter<'a>, ChunkError>)
    ensures
        window == 0 <==> r is Err,
        r matches Err(e) ==> e == ChunkError::InvalidArgument,
        r matches Ok(it) ==> it.wf() && it.buffer() == input@ && it.window_of() == window as int
            && it.remaining() == chunk_seq(input@, window as int),
{
    if window == 0 {
        return Err(ChunkError::InvalidArgument);
    }
    let it = ChunkIter { input, current_pos: 0, window, done: false };
    proof {
        assert(input@.subrange(0, input@.len() as int) =~= input@);
    }
    Ok(it)
}

} // verus!
