//! Two small helpers for one-pass scanning: a three-slot record of a
//! stream's latest differences, and a byte reader that can look ahead
//! without consuming.
use vstd::prelude::*;
use vstd::math::min;
use std::collections::VecDeque;
use std::ops::BitXor;
use vstd::std_specs::ops::BitXorSpec;

verus! {

/// Takes a stream of words X(i) and keeps the newest word together with
/// the two newest differences Y(i) = X(i-1) ^ X(i):
/// slot 0 is X(n), slot 1 is Y(n), slot 2 is Y(n-1).
#[derive(Clone, Copy, PartialEq, Eq, Debug)]
pub struct RollingXor<T>(pub [T; 3]);

/// The three slots after feeding `x` into a buffer that held `state`.
pub open spec fn rolled<T: BitXor<Output = T>>(state: Seq<T>, x: T) -> Seq<T> {
    seq![x, state[0].bitxor_spec(x), state[1]]
}

/// The three slots after feeding all of `xs`, oldest first, into a buffer
/// that held `state`.
pub open spec fn rolled_all<T: BitXor<Output = T>>(state: Seq<T>, xs: Seq<T>) -> Seq<T>
    decreases xs.len(),
{
    if xs.len() == 0 {
        state
    } else {
        rolled(rolled_all(state, xs.drop_last()), xs.last())
    }
}

/// The three slots written out from the last three inputs alone.
pub open spec fn last_differences<T: BitXor<Output = T>>(xs: Seq<T>) -> Seq<T> {
    let n = xs.len() as int;
    seq![xs[n - 1], xs[n - 2].bitxor_spec(xs[n - 1]), xs[n - 3].bitxor_spec(xs[n - 2])]
}

/// Once three words have gone in, the buffer holds exactly what the last
/// three inputs give when the differences are recomputed from scratch;
/// nothing older, and nothing of the starting state, is left in it.
pub proof fn lemma_rolling_matches_recomputation<T: BitXor<Output = T>>(state: Seq<T>, xs: Seq<T>)
    requires
        xs.len() >= 3,
    ensures
        rolled_all(state, xs) == last_differences(xs),
{
    let n = xs.len() as int;
    let x1 = xs.drop_last();
    let x2 = x1.drop_last();
    let x3 = x2.drop_last();
    assert(rolled_all(state, xs) == rolled(rolled_all(state, x1), xs[n - 1]));
    assert(rolled_all(state, x1) == rolled(rolled_all(state, x2), xs[n - 2]));
    assert(rolled_all(state, x2) == rolled(rolled_all(state, x3), xs[n - 3]));
    assert(rolled_all(state, xs) =~= last_differences(xs));
}

impl<T: Copy + BitXor<Output = T>> RollingXor<T> {
    /// Feeds the next word of the stream.
    pub fn update(&mut self, x: T)
        requires
            old(self).0[0].bitxor_req(x),
        ensures
            final(self).0[0] == x,
            final(self).0[2] == old(self).0[1],
            T::obeys_bitxor_spec() ==> final(self).0@ == rolled(old(self).0@, x),
    {
        self.0[2] = self.0[1];
        self.0[1] = self.0[0] ^ x;
        self.0[0] = x;
        proof {
            if T::obeys_bitxor_spec() {
                assert(self.0@ =~= rolled(old(self).0@, x));
            }
        }
    }
}

impl Default for RollingXor<u32> {
    /// The buffer before any word has gone in: all slots zero.
    fn default() -> (r: Self)
        ensures
            r.0@ == seq![0u32, 0u32, 0u32],
    {
        let r = RollingXor([0u32, 0u32, 0u32]);
        assert(r.0@ =~= seq![0u32, 0u32, 0u32]);
        r
    }
}

/// A sequential source of bytes.
pub trait ByteSource {
    /// The bytes this source has yet to hand out, in order.
    spec fn pending(&self) -> Seq<u8>;

    /// Fills `buf` from the front with the next bytes of the source and
    /// returns how many it wrote: all of `buf` while enough bytes are
    /// left, otherwise all that is left.  The rest of `buf` is untouched.
    fn read(&mut self, buf: &mut [u8]) -> (n: usize)
        ensures
            n == min(old(buf)@.len() as int, old(self).pending().len() as int),
            final(buf)@ == old(self).pending().take(n as int) + old(buf)@.skip(n as int),
            final(self).pending() == old(self).pending().skip(n as int),
    ;
}

/// A byte source over an image held in memory.
pub struct MemorySource {
    data: Vec<u8>,
    pos: usize,
}

impl MemorySource {
    #[verifier::type_invariant]
    spec fn wf(self) -> bool {
        self.pos <= self.data.len()
    }

    /// A source that hands out `data` from its first byte.
    pub fn new(data: Vec<u8>) -> (r: Self)
        ensures
            r.pending() == data@,
    {
        MemorySource { data, pos: 0 }
    }
}

impl ByteSource for MemorySource {
    closed spec fn pending(&self) -> Seq<u8> {
        self.data@.skip(self.pos as int)
    }

    fn read(&mut self, buf: &mut [u8]) -> (n: usize) {
        proof {
            use_type_invariant(&*self);
        }
        let avail: usize = self.data.len() - self.pos;
        let n: usize = if buf.len() <= avail { buf.len() } else { avail };
        let mut i: usize = 0;
        while i < n
            invariant
                i <= n,
                n <= buf@.len(),
                self.pos + n <= self.data.len(),
                buf@.len() == old(buf)@.len(),
                *self == *old(self),
                forall|j: int| 0 <= j < i ==> buf@[j] == self.data@[self.pos + j],
                forall|j: int| i <= j < buf@.len() ==> buf@[j] == old(buf)@[j],
            decreases n - i,
        {
            buf[i] = self.data[self.pos + i];
            i += 1;
        }
        self.pos = self.pos + n;
        proof {
            assert(buf@ =~= old(self).pending().take(n as int) + old(buf)@.skip(n as int));
            assert(self.pending() =~= old(self).pending().skip(n as int));
        }
        n
    }
}

/// Offers peek functionality on top of a byte source.
///
/// Bytes that were looked at ahead of time are kept in a queue and handed
/// out again, in the same order, by later peeks and reads.
pub struct PeekRead<R: ByteSource> {
    inner: R,
    buffer: VecDeque<u8>,
}

impl<R: ByteSource> PeekRead<R> {
    /// How many bytes are held in the look-ahead queue.
    pub closed spec fn held(&self) -> nat {
        self.buffer@.len()
    }

    /// Wraps `inner`; nothing has been looked at yet.
    pub fn new(inner: R) -> (r: Self)
        ensures
            r.pending() == inner.pending(),
            r.held() == 0,
    {
        let r = PeekRead { inner, buffer: VecDeque::new() };
        assert(r.pending() =~= inner.pending());
        r
    }

    /// Copies the next bytes of the stream into the front of `buf` without
    /// consuming them, and returns how many it wrote: all of `buf` while
    /// enough bytes are left, otherwise all that is left.
    pub fn peek(&mut self, buf: &mut [u8]) -> (n: usize)
        ensures
            n == min(old(buf)@.len() as int, old(self).pending().len() as int),
            final(buf)@ == old(self).pending().take(n as int) + old(buf)@.skip(n as int),
            final(self).pending() == old(self).pending(),
            final(self).held() == if n >= old(self).held() { n as nat } else { old(self).held() },
    {
        let held: usize = self.buffer.len();
        let total: usize = buf.len();
        let written: usize = if total <= held { total } else { held };
        let mut i: usize = 0;
        while i < written
            invariant
                i <= written,
                written <= held,
                written <= total,
                held == self.buffer@.len(),
                buf@.len() == total,
                total == old(buf)@.len(),
                *self == *old(self),
                forall|j: int| 0 <= j < i ==> buf@[j] == self.buffer@[j],
                forall|j: int| i <= j < total ==> buf@[j] == old(buf)@[j],
            decreases written - i,
        {
            buf[i] = self.buffer[i];
            i += 1;
        }
        let ghost filled = buf@;
        let (head, tail) = buf.split_at_mut(written);
        let got: usize = self.inner.read(tail);
        let ghost drained = self.inner;
        let mut j: usize = 0;
        while j < got
            invariant
                j <= got,
                got <= tail@.len(),
                self.inner == drained,
                self.buffer@ == old(self).buffer@ + tail@.take(j as int),
            decreases got - j,
        {
            self.buffer.push_back(tail[j]);
            proof {
                assert(tail@.take(j + 1) =~= tail@.take(j as int).push(tail@[j as int]));
            }
            j += 1;
        }
        proof {
            let fresh = old(self).inner.pending();
            assert(tail@ == fresh.take(got as int) + filled.subrange(written as int, total as int).skip(
                got as int,
            ));
            assert(tail@.take(got as int) =~= fresh.take(got as int));
            assert(fresh =~= fresh.take(got as int) + fresh.skip(got as int));
            assert(self.pending() =~= old(self).pending());
            assert(written < total ==> written == held);
            assert(written == total ==> got == 0);
            assert(head@ + tail@ =~= old(self).pending().take(written + got) + old(buf)@.skip(
                written + got,
            ));
        }
        written + got
    }
}

impl<R: ByteSource> ByteSource for PeekRead<R> {
    /// What is held in the queue, then what the wrapped source still has.
    closed spec fn pending(&self) -> Seq<u8> {
        self.buffer@ + self.inner.pending()
    }

    /// Drains the look-ahead queue first, then pulls fresh bytes from the
    /// wrapped source.
    fn read(&mut self, buf: &mut [u8]) -> (n: usize)
        ensures
            final(self).held() == old(self).held() - min(
                old(self).held() as int,
                old(buf)@.len() as int,
            ),
    {
        let total: usize = buf.len();
        let mut i: usize = 0;
        while i < total && self.buffer.len() > 0
            invariant
                i <= total,
                buf@.len() == total,
                total == old(buf)@.len(),
                self.inner == old(self).inner,
                i <= old(self).buffer@.len(),
                self.buffer@ == old(self).buffer@.skip(i as int),
                forall|j: int| 0 <= j < i ==> buf@[j] == old(self).buffer@[j],
                forall|j: int| i <= j < total ==> buf@[j] == old(buf)@[j],
            decreases total - i,
        {
            let byte: Option<u8> = self.buffer.pop_front();
            buf[i] = byte.unwrap();
            i += 1;
            proof {
                assert(self.buffer@ =~= old(self).buffer@.skip(i as int));
            }
        }
        let ghost filled = buf@;
        let (head, tail) = buf.split_at_mut(i);
        let got: usize = self.inner.read(tail);
        proof {
            let fresh = old(self).inner.pending();
            assert(tail@ == fresh.take(got as int) + filled.subrange(i as int, total as int).skip(
                got as int,
            ));
            assert(i < total ==> self.buffer@.len() == 0);
            assert(i == total ==> got == 0);
            assert(self.pending() =~= old(self).pending().skip(i + got));
            assert(head@ + tail@ =~= old(self).pending().take(i + got) + old(buf)@.skip(i + got));
        }
        i + got
    }
}

/// What a run of reads hands out, piece after piece: `sizes` are the
/// lengths of the buffers offered, `pending` what the stream held at the
/// start.
pub open spec fn delivered(pending: Seq<u8>, sizes: Seq<nat>) -> Seq<u8>
    decreases sizes.len(),
{
    if sizes.len() == 0 {
        Seq::empty()
    } else {
        let n = min(sizes[0] as int, pending.len() as int);
        pending.take(n) + delivered(pending.skip(n), sizes.skip(1))
    }
}

/// The sum of `sizes`.
pub open spec fn total_size(sizes: Seq<nat>) -> nat
    decreases sizes.len(),
{
    if sizes.len() == 0 {
        0
    } else {
        sizes[0] + total_size(sizes.skip(1))
    }
}

/// However a stream is cut into reads, the pieces put together are the
/// front of the stream, in order: the same bytes a single read of the
/// combined size hands out.  Peeks leave `pending` as it is, so any number
/// of them before or between the reads changes nothing.
pub proof fn lemma_reads_deliver_in_order(pending: Seq<u8>, sizes: Seq<nat>)
    ensures
        delivered(pending, sizes) == pending.take(
            min(total_size(sizes) as int, pending.len() as int),
        ),
    decreases sizes.len(),
{
    if sizes.len() == 0 {
        assert(delivered(pending, sizes) =~= pending.take(0));
    } else {
        let n = min(sizes[0] as int, pending.len() as int);
        lemma_reads_deliver_in_order(pending.skip(n), sizes.skip(1));
        let rest = min(total_size(sizes.skip(1)) as int, pending.skip(n).len() as int);
        assert(pending.take(n) + pending.skip(n).take(rest) =~= pending.take(n + rest));
    }
}

} // verus!
