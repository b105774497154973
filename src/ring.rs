//! A fixed-capacity byte buffer that keeps the most recent bytes written to it.

use vstd::prelude::*;

verus! {

/// The last `n` items of `s`, or all of `s` when it holds no more than `n`.
pub open spec fn keep_last(s: Seq<u8>, n: nat) -> Seq<u8> {
    if s.len() <= n {
        s
    } else {
        s.subrange(s.len() - n, s.len() as int)
    }
}

/// `s` read from position `k` to its end, then from its start up to `k`.
pub open spec fn rotate(s: Seq<u8>, k: int) -> Seq<u8> {
    s.subrange(k, s.len() as int) + s.subrange(0, k)
}

/// The bytes of `chunks`, one chunk after the other.
pub open spec fn concat_chunks(chunks: Seq<Seq<u8>>) -> Seq<u8>
    decreases chunks.len(),
{
    if chunks.len() == 0 {
        Seq::empty()
    } else {
        concat_chunks(chunks.drop_last()) + chunks.last()
    }
}

/// What a buffer of capacity `n` holds after it was created empty and each chunk
/// was given to `RingBuffer::add` in turn.
pub open spec fn after_adds(chunks: Seq<Seq<u8>>, n: nat) -> Seq<u8>
    decreases chunks.len(),
{
    if chunks.len() == 0 {
        Seq::empty()
    } else {
        keep_last(after_adds(chunks.drop_last(), n) + chunks.last(), n)
    }
}

/// Keeping the last `n` bytes once more after appending changes nothing.
pub proof fn lemma_keep_last_append(s: Seq<u8>, t: Seq<u8>, n: nat)
    ensures
        keep_last(keep_last(s, n) + t, n) == keep_last(s + t, n),
{
    let k = keep_last(s, n);
    if s.len() > n {
        if t.len() >= n {
            assert(keep_last(k + t, n) =~= keep_last(s + t, n));
        } else {
            assert(keep_last(k + t, n) =~= keep_last(s + t, n));
        }
    } else {
        assert(k + t == s + t);
    }
}

/// A ring buffer holds the last `min(total appended, capacity)` bytes appended to it,
/// oldest first, whatever the sizes of the writes.
pub proof fn lemma_ring_keeps_last(chunks: Seq<Seq<u8>>, n: nat)
    ensures
        after_adds(chunks, n) == keep_last(concat_chunks(chunks), n),
        after_adds(chunks, n).len() <= n,
    decreases chunks.len(),
{
    if chunks.len() > 0 {
        lemma_ring_keeps_last(chunks.drop_last(), n);
        lemma_keep_last_append(concat_chunks(chunks.drop_last()), chunks.last(), n);
    } else {
        assert(keep_last(concat_chunks(chunks), n) =~= Seq::<u8>::empty());
    }
}

/// Overwriting the oldest byte of a full buffer moves the start one place on.
proof fn lemma_rotate_overwrite(buf: Seq<u8>, k: int, b: u8)
    requires
        0 <= k < buf.len(),
    ensures
        rotate(buf.update(k, b), if k + 1 < buf.len() { k + 1 } else { 0 }) == keep_last(
            rotate(buf, k).push(b),
            buf.len(),
        ),
{
    let n = buf.len() as int;
    let v = rotate(buf, k).push(b);
    let w = rotate(buf.update(k, b), if k + 1 < n { k + 1 } else { 0 });
    assert(keep_last(v, buf.len()) =~= v.subrange(1, n + 1));
    assert forall|i: int| 0 <= i < n implies w[i] == v.subrange(1, n + 1)[i] by {
        if k + 1 < n {
            if i < n - k - 1 {
                assert(w[i] == buf[k + 1 + i]);
            } else if i < n - 1 {
                assert(w[i] == buf[i - (n - k - 1)]);
            }
        }
    }
    assert(w =~= v.subrange(1, n + 1));
}

/// A bounded byte buffer: once full, each new byte overwrites the oldest one.
pub struct RingBuffer {
    index: usize,
    size: usize,
    buffer: Vec<u8>,
}

/// Walks the bytes of a `RingBuffer`, oldest first, without copying them.
pub struct Iter<'a> {
    index: usize,
    offset: usize,
    size: usize,
    buffer: &'a Vec<u8>,
}

impl View for RingBuffer {
    type V = Seq<u8>;

    /// The bytes held, oldest first.
    closed spec fn view(&self) -> Seq<u8> {
        rotate(self.buffer@, self.start())
    }
}

impl RingBuffer {
    /// Internal consistency of the fields.
    pub closed spec fn wf(&self) -> bool {
        &&& self.size > 0
        &&& self.buffer@.len() <= self.size
        &&& self.index < self.size
        &&& self.buffer@.len() < self.size ==> self.index == self.buffer@.len()
    }

    /// The largest number of bytes the buffer holds.
    pub closed spec fn capacity(&self) -> nat {
        self.size as nat
    }

    /// Where the oldest byte sits in the storage.
    pub closed spec fn start(&self) -> int {
        if self.buffer@.len() < self.size {
            0
        } else {
            self.index as int
        }
    }

    /// A well-formed buffer holds no more than its capacity.
    pub proof fn lemma_len(&self)
        requires
            self.wf(),
        ensures
            self@.len() <= self.capacity(),
    {
        self.lemma_view_len();
    }

    proof fn lemma_view_len(&self)
        requires
            self.wf(),
        ensures
            self@.len() == self.buffer@.len(),
            self@.len() <= self.capacity(),
    {
    }

    /// An empty buffer that holds at most `size` bytes.
    pub fn new(size: usize) -> (r: Self)
        requires
            size > 0,
        ensures
            r.wf(),
            r@ == Seq::<u8>::empty(),
            r.capacity() == size,
    {
        let r = RingBuffer { index: 0, size: size, buffer: Vec::new() };
        assert(r@ =~= Seq::<u8>::empty());
        r
    }

    /// Appends one byte, overwriting the oldest when full.
    fn add_byte(&mut self, byte: u8)
        requires
            old(self).wf(),
        ensures
            final(self).wf(),
            final(self).capacity() == old(self).capacity(),
            final(self)@ == keep_last(old(self)@.push(byte), old(self).capacity()),
    {
        let ghost v = self@;
        let ghost buf = self.buffer@;
        if self.buffer.len() < self.size {
            self.buffer.push(byte);
            self.index = self.index + 1;
            if self.index >= self.size {
                self.index = 0;
            }
            assert(v =~= buf);
            assert(self@ =~= buf.push(byte));
        } else {
            let k = self.index;
            self.buffer.set(k, byte);
            self.index = if k + 1 < self.size {
                k + 1
            } else {
                0
            };
            proof {
                lemma_rotate_overwrite(buf, k as int, byte);
            }
        }
    }

    /// Appends `buffer`, overwriting the oldest bytes once full.
    pub fn add(&mut self, buffer: &[u8])
        requires
            old(self).wf(),
        ensures
            final(self).wf(),
            final(self).capacity() == old(self).capacity(),
            final(self)@ == keep_last(old(self)@ + buffer@, old(self).capacity()),
    {
        let ghost start = self@;
        let ghost n = self.capacity();
        let mut i: usize = 0;
        while i < buffer.len()
            invariant
                self.wf(),
                self.capacity() == n,
                i <= buffer.len(),
                self@ == keep_last(start + buffer@.subrange(0, i as int), n),
            decreases buffer.len() - i,
        {
            let ghost before = start + buffer@.subrange(0, i as int);
            self.add_byte(buffer[i]);
            proof {
                lemma_keep_last_append(before, seq![buffer@[i as int]], n);
                assert(keep_last(before, n).push(buffer@[i as int]) =~= keep_last(before, n) + seq![
                    buffer@[i as int],
                ]);
                assert(before + seq![buffer@[i as int]] =~= start + buffer@.subrange(0, i + 1));
            }
            i += 1;
        }
        assert(buffer@.subrange(0, buffer@.len() as int) =~= buffer@);
        proof {
            self.lemma_view_len();
        }
    }

    /// Appends as much of `buffer` as fits without overwriting anything; `Err` when
    /// some of it did not fit.
    pub fn add_no_wraparound(&mut self, buffer: &[u8]) -> (r: Result<(), ()>)
        requires
            old(self).wf(),
        ensures
            final(self).wf(),
            final(self).capacity() == old(self).capacity(),
            r is Ok <==> old(self)@.len() + buffer@.len() <= old(self).capacity(),
            final(self)@ == old(self)@ + buffer@.subrange(
                0,
                vstd::math::min(
                    buffer@.len() as int,
                    old(self).capacity() - old(self)@.len(),
                ),
            ),
    {
        proof {
            self.lemma_view_len();
        }
        let ghost start = self@;
        let mut i: usize = 0;
        while i < buffer.len()
            invariant
                self.wf(),
                self.size == old(self).size,
                i <= buffer.len(),
                start.len() + i <= self.size,
                self@ == start + buffer@.subrange(0, i as int),
                self@.len() == self.buffer@.len(),
                self.buffer@.len() < self.size ==> self@ == self.buffer@,
                i > 0 ==> self@ == self.buffer@,
                start.len() == old(self)@.len(),
                start == old(self)@,
            decreases buffer.len() - i,
        {
            if self.buffer.len() >= self.size {
                assert(buffer@.subrange(0, i as int) =~= buffer@.subrange(
                    0,
                    vstd::math::min(buffer@.len() as int, self.size - start.len()),
                ));
                return Err(());
            }
            let ghost buf = self.buffer@;
            assert(self@ =~= buf);
            self.buffer.push(buffer[i]);
            self.index = self.index + 1;
            if self.index >= self.size {
                self.index = 0;
            }
            assert(self@ =~= buf.push(buffer@[i as int]));
            assert(start + buffer@.subrange(0, i + 1) =~= (start + buffer@.subrange(
                0,
                i as int,
            )).push(buffer@[i as int]));
            i += 1;
        }
        assert(buffer@.subrange(0, buffer@.len() as int) =~= buffer@.subrange(
            0,
            vstd::math::min(buffer@.len() as int, self.size - start.len()),
        ));
        Ok(())
    }

    /// Walks the bytes held, oldest first.
    pub fn iter(&self) -> (it: Iter)
        requires
            self.wf(),
        ensures
            it.wf(),
            it.items() == self@,
            it.pos() == 0,
    {
        let offset = self.get_offset();
        Iter { index: 0, offset: offset, size: self.buffer.len(), buffer: &self.buffer }
    }

    /// The number of bytes held.
    pub fn len(&self) -> (r: usize)
        requires
            self.wf(),
        ensures
            r == self@.len(),
    {
        proof {
            self.lemma_view_len();
        }
        self.buffer.len()
    }

    /// Drops every byte held.
    pub fn clear(&mut self)
        requires
            old(self).wf(),
        ensures
            final(self).wf(),
            final(self).capacity() == old(self).capacity(),
            final(self)@ == Seq::<u8>::empty(),
    {
        self.buffer.clear();
        self.index = 0;
        assert(self@ =~= Seq::<u8>::empty());
    }

    /// A contiguous copy of the bytes held, oldest first.
    pub fn clone(&self) -> (r: Vec<u8>)
        requires
            self.wf(),
        ensures
            r@ == self@,
    {
        let offset = self.get_offset();
        let len = self.buffer.len();
        assert(offset <= len);
        let mut v: Vec<u8> = Vec::with_capacity(len);
        let mut i: usize = offset;
        while i < len
            invariant
                offset <= i <= len,
                len == self.buffer@.len(),
                v@ == self.buffer@.subrange(offset as int, i as int),
            decreases len - i,
        {
            v.push(self.buffer[i]);
            assert(v@ =~= self.buffer@.subrange(offset as int, i + 1));
            i += 1;
        }
        let mut j: usize = 0;
        while j < offset
            invariant
                offset <= len,
                len == self.buffer@.len(),
                j <= offset,
                v@ == self.buffer@.subrange(offset as int, len as int) + self.buffer@.subrange(
                    0,
                    j as int,
                ),
            decreases offset - j,
        {
            v.push(self.buffer[j]);
            assert(v@ =~= self.buffer@.subrange(offset as int, len as int) + self.buffer@.subrange(
                0,
                j + 1,
            ));
            j += 1;
        }
        v
    }

    /// Where the oldest byte sits in the storage.
    pub fn get_offset(&self) -> (r: usize)
        requires
            self.wf(),
        ensures
            r == self.start(),
    {
        if self.buffer.len() < self.size {
            0
        } else {
            self.index
        }
    }
}

impl<'a> Iter<'a> {
    /// Internal consistency of the fields.
    pub closed spec fn wf(&self) -> bool {
        &&& self.size == self.buffer@.len()
        &&& self.offset <= self.size
        &&& self.size > 0 ==> self.offset < self.size
    }

    /// Every byte the walk yields, in order.
    pub closed spec fn items(&self) -> Seq<u8> {
        rotate(self.buffer@, self.offset as int)
    }

    /// How many bytes the walk has yielded.
    pub closed spec fn pos(&self) -> int {
        self.index as int
    }

    /// The next byte of the walk, or `None` once all were yielded.
    pub fn next(&mut self) -> (r: Option<u8>)
        requires
            old(self).wf(),
        ensures
            final(self).wf(),
            final(self).items() == old(self).items(),
            old(self).pos() < old(self).items().len() ==> r == Some(old(self).items()[old(
                self,
            ).pos()]) && final(self).pos() == old(self).pos() + 1,
            old(self).pos() >= old(self).items().len() ==> r is None && final(self).pos() == old(
                self,
            ).pos(),
    {
        if self.index < self.size {
            let i = if self.index < self.size - self.offset {
                self.index + self.offset
            } else {
                self.index - (self.size - self.offset)
            };
            self.index += 1;
            Some(self.buffer[i])
        } else {
            None
        }
    }
}

} // verus!
