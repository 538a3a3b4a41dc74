//! The window: a buffer of fixed capacity that holds the newest output. It is
//! what the caller reads the output from, and what back-references copy from.
//! Writing goes round: once the buffer is full and has been handed out, it is
//! filled again from its start, and what is overwritten last stays available
//! as history.

use vstd::prelude::*;

verus! {

/// The largest capacity of a window.
pub const MAX_WINDOW: usize = 32768;

/// `h` followed by `k` bytes, each a copy of the byte `dist` places before
/// it. A byte that was just written can be the source of a later one.
pub open spec fn lz_copy(h: Seq<u8>, dist: nat, k: nat) -> Seq<u8>
    decreases k,
{
    if k == 0 {
        h
    } else {
        lz_copy(h.push(h[h.len() - dist]), dist, (k - 1) as nat)
    }
}

/// Copying `k` bytes and then one more is copying `k + 1`.
pub proof fn lemma_lz_copy_step(h: Seq<u8>, dist: nat, k: nat)
    ensures
        lz_copy(h, dist, k + 1) == ({
            let g = lz_copy(h, dist, k);
            g.push(g[g.len() - dist])
        }),
    decreases k,
{
    if k == 0 {
        reveal_with_fuel(lz_copy, 2);
    } else {
        lemma_lz_copy_step(h.push(h[h.len() - dist]), dist, (k - 1) as nat);
    }
}

/// A copy appends: what was there stays, and `k` bytes are added.
pub proof fn lemma_lz_copy_extends(h: Seq<u8>, dist: nat, k: nat)
    ensures
        lz_copy(h, dist, k).len() == h.len() + k,
        lz_copy(h, dist, k).subrange(0, h.len() as int) == h,
    decreases k,
{
    if k == 0 {
        assert(h.subrange(0, h.len() as int) =~= h);
    } else {
        let h1 = h.push(h[h.len() - dist]);
        lemma_lz_copy_extends(h1, dist, (k - 1) as nat);
        let g = lz_copy(h1, dist, (k - 1) as nat);
        assert(g.subrange(0, h.len() as int) =~= g.subrange(0, h1.len() as int).subrange(
            0,
            h.len() as int,
        ));
        assert(h1.subrange(0, h.len() as int) =~= h);
    }
}

/// With distance 1 a copy repeats the last byte.
pub proof fn lemma_lz_copy_run(h: Seq<u8>, k: nat, i: int)
    requires
        h.len() > 0,
        h.len() <= i < h.len() + k,
    ensures
        lz_copy(h, 1, k)[i] == h.last(),
    decreases k,
{
    let h1 = h.push(h[h.len() - 1]);
    if i == h.len() {
        lemma_lz_copy_extends(h1, 1, (k - 1) as nat);
        let g = lz_copy(h1, 1, (k - 1) as nat);
        assert(g.subrange(0, h1.len() as int)[i] == g[i]);
    } else {
        lemma_lz_copy_run(h1, (k - 1) as nat, i);
    }
}

/// The output buffer and history window.
pub struct WindowBuffer {
    buffer: Vec<u8>,
    len: usize,
    pos: usize,
    history: Ghost<Seq<u8>>,
}

impl WindowBuffer {
    /// Everything written so far, from the first byte on.
    pub closed spec fn history(&self) -> Seq<u8> {
        self.history@
    }

    /// How many bytes the buffer holds at most.
    pub closed spec fn capacity(&self) -> nat {
        self.buffer@.len()
    }

    /// Where in the buffer the next byte goes.
    pub closed spec fn position(&self) -> nat {
        self.pos as nat
    }

    /// The bytes of the buffer from `from` up to the write position.
    pub closed spec fn pending(&self, from: nat) -> Seq<u8> {
        self.buffer@.subrange(from as int, self.pos as int)
    }

    /// The buffer holds the newest bytes of the history: those written since
    /// it was last started from the beginning lie before the write position,
    /// the ones before them, as far as they still fit, behind it.
    pub closed spec fn wf(&self) -> bool {
        let h = self.history@;
        let cap = self.buffer@.len();
        &&& cap <= MAX_WINDOW
        &&& self.pos <= self.len <= cap
        &&& self.pos <= h.len()
        &&& self.len < cap ==> self.pos == self.len && h.len() == self.len
        &&& self.len == cap ==> h.len() >= cap
        &&& forall|i: int| 0 <= i < self.pos ==> #[trigger] self.buffer@[i] == h[h.len() - self.pos + i]
        &&& forall|i: int|
            self.pos <= i < self.len ==> #[trigger] self.buffer@[i] == h[h.len() - self.pos - cap + i]
    }

    /// What `wf` says of the sizes.
    pub proof fn lemma_wf(&self)
        requires
            self.wf(),
        ensures
            self.capacity() <= MAX_WINDOW,
            self.position() <= self.capacity(),
            self.position() <= self.history().len(),
    {
    }

    /// What lies before the write position is the end of the history.
    pub proof fn lemma_pending(&self, from: nat)
        requires
            self.wf(),
            from <= self.position(),
        ensures
            self.pending(from) == self.history().subrange(
                self.history().len() - (self.position() - from),
                self.history().len() as int,
            ),
    {
        let h = self.history@;
        let a = self.pending(from);
        let b = h.subrange(h.len() - (self.pos - from), h.len() as int);
        assert(a.len() == b.len());
        assert forall|i: int| 0 <= i < a.len() implies a[i] == b[i] by {
            assert(self.buffer@[from + i] == h[h.len() - self.pos + (from + i)]);
        }
        assert(a =~= b);
    }

    /// An empty window of the given capacity.
    pub fn with_capacity(capacity: usize) -> (w: WindowBuffer)
        requires
            capacity <= MAX_WINDOW,
        ensures
            w.wf(),
            w.capacity() == capacity,
            w.position() == 0,
            w.history() == Seq::<u8>::empty(),
    {
        WindowBuffer { buffer: vec![0u8; capacity], len: 0, pos: 0, history: Ghost(Seq::empty()) }
    }

    /// How many bytes the buffer holds at most.
    pub fn cap(&self) -> (r: usize)
        requires
            self.wf(),
        ensures
            r == self.capacity(),
            r <= MAX_WINDOW,
    {
        self.buffer.len()
    }

    /// Where in the buffer the next byte goes.
    pub fn pos(&self) -> (r: usize)
        requires
            self.wf(),
        ensures
            r == self.position(),
            r <= self.capacity(),
    {
        self.pos
    }

    /// Whether a back-reference of this distance has something to copy: the
    /// distance is at least 1 and reaches neither beyond the window nor
    /// beyond the first byte ever written.
    pub fn can_copy(&self, dist: u16) -> (r: bool)
        requires
            self.wf(),
        ensures
            r == (1 <= dist && dist <= self.capacity() && dist <= self.history().len()),
    {
        let d = dist as usize;
        d >= 1 && d <= self.buffer.len() && (d <= self.pos || self.len == self.buffer.len())
    }

    /// Writes one byte, unless the buffer is full. Tells whether it did.
    pub fn push(&mut self, b: u8) -> (r: bool)
        requires
            old(self).wf(),
        ensures
            final(self).wf(),
            final(self).capacity() == old(self).capacity(),
            r == (old(self).position() < old(self).capacity()),
            r ==> final(self).history() == old(self).history().push(b) && final(self).position()
                == old(self).position() + 1,
            !r ==> final(self).history() == old(self).history() && final(self).position() == old(
                self,
            ).position(),
    {
        if self.pos < self.buffer.len() {
            self.buffer[self.pos] = b;
            self.pos = self.pos + 1;
            if self.len < self.pos {
                self.len = self.pos;
            }
            proof {
                let h = old(self).history@;
                let h2 = h.push(b);
                let cap = self.buffer@.len();
                self.history@ = h2;
                assert forall|i: int| 0 <= i < self.pos implies #[trigger] self.buffer@[i] == h2[h2.len()
                    - self.pos + i] by {
                    if i < self.pos - 1 {
                        assert(old(self).buffer@[i] == h[h.len() - old(self).pos + i]);
                    }
                }
                assert forall|i: int| self.pos <= i < self.len implies #[trigger] self.buffer@[i]
                    == h2[h2.len() - self.pos - cap + i] by {
                    assert(old(self).buffer@[i] == h[h.len() - old(self).pos - cap + i]);
                }
            }
            true
        } else {
            false
        }
    }

    /// Writes a copy of the byte `dist` places back. `src` is where that byte
    /// lies in the buffer.
    fn put(&mut self, src: usize, Ghost(dist): Ghost<nat>)
        requires
            old(self).wf(),
            old(self).pos < old(self).buffer@.len(),
            1 <= dist <= old(self).buffer@.len(),
            dist <= old(self).history@.len(),
            dist <= old(self).pos ==> src == old(self).pos - dist,
            dist > old(self).pos ==> src == old(self).pos + old(self).buffer@.len() - dist,
        ensures
            final(self).wf(),
            final(self).buffer@.len() == old(self).buffer@.len(),
            final(self).pos == old(self).pos + 1,
            final(self).history@ == old(self).history@.push(
                old(self).history@[old(self).history@.len() - dist],
            ),
    {
        let b = self.buffer[src];
        let r = self.push(b);
    }

    /// Copies `len` bytes from `dist` places back to the write position, as
    /// far as the buffer has room. Returns how many bytes are left to copy
    /// once the buffer has been handed out, if any.
    pub fn copy(&mut self, len: u16, dist: u16) -> (left: Option<u16>)
        requires
            old(self).wf(),
            1 <= dist <= old(self).capacity(),
            dist <= old(self).history().len(),
        ensures
            final(self).wf(),
            final(self).capacity() == old(self).capacity(),
            ({
                let room = old(self).capacity() - old(self).position();
                let k = if len <= room {
                    len as nat
                } else {
                    room as nat
                };
                &&& final(self).history() == lz_copy(old(self).history(), dist as nat, k)
                &&& final(self).position() == old(self).position() + k
                &&& left == if len <= room {
                    None
                } else {
                    Some((len - room) as u16)
                }
            }),
    {
        let buffer_size = self.buffer.len();
        let len = len as usize;
        let dist = dist as usize;
        let start = self.pos;
        let ghost h0 = self.history@;
        let mut remaining = len;
        if self.pos < dist {
            // Handle copying from ahead, until we hit the end reading.
            let pos_end = if self.pos + len <= dist {
                self.pos + len
            } else {
                dist
            };
            let forward = buffer_size - dist;
            while self.pos < pos_end
                invariant
                    self.wf(),
                    self.buffer@.len() == buffer_size,
                    start <= self.pos <= pos_end <= dist,
                    pos_end <= start + len,
                    1 <= dist <= buffer_size,
                    dist <= h0.len(),
                    forward == buffer_size - dist,
                    self.history@ == lz_copy(h0, dist as nat, (self.pos - start) as nat),
                decreases pos_end - self.pos,
            {
                proof {
                    lemma_lz_copy_step(h0, dist as nat, (self.pos - start) as nat);
                    lemma_lz_copy_extends(h0, dist as nat, (self.pos - start) as nat);
                }
                self.put(self.pos + forward, Ghost(dist as nat));
            }
            remaining = len - (pos_end - start);
        }
        // Handle copying from before, until we hit the end writing.
        let mid = self.pos;
        let (pos_end, left) = if self.pos + remaining <= buffer_size {
            (self.pos + remaining, None)
        } else {
            (buffer_size, Some((self.pos + remaining - buffer_size) as u16))
        };
        while self.pos < pos_end
            invariant
                self.wf(),
                self.buffer@.len() == buffer_size,
                start <= mid <= self.pos <= pos_end <= buffer_size,
                1 <= dist <= buffer_size,
                dist <= h0.len(),
                start < dist ==> mid == dist || mid == pos_end,
                self.history@ == lz_copy(h0, dist as nat, (self.pos - start) as nat),
            decreases pos_end - self.pos,
        {
            proof {
                lemma_lz_copy_step(h0, dist as nat, (self.pos - start) as nat);
                lemma_lz_copy_extends(h0, dist as nat, (self.pos - start) as nat);
            }
            self.put(self.pos - dist, Ghost(dist as nat));
        }
        left
    }

    /// Whether the buffer is full and has to be handed out before more can be
    /// written.
    pub fn is_full(&self) -> (r: bool)
        requires
            self.wf(),
        ensures
            r == (self.position() >= self.capacity()),
    {
        self.pos >= self.buffer.len()
    }

    /// The bytes of the buffer from `from` up to the write position: the
    /// newest bytes of the history.
    pub fn output(&self, from: usize) -> (out: &[u8])
        requires
            self.wf(),
            from <= self.position(),
        ensures
            out@ == self.pending(from as nat),
            out@ == self.history().subrange(
                self.history().len() - (self.position() - from),
                self.history().len() as int,
            ),
    {
        proof {
            self.lemma_pending(from as nat);
        }
        vstd::slice::slice_subrange(self.buffer.as_slice(), from, self.pos)
    }

    /// Hands out the bytes of the buffer from `from` up to the write position,
    /// and starts again from the beginning of the buffer if it is full.
    pub fn take_output<'a>(&'a mut self, from: usize) -> (out: &'a [u8])
        requires
            old(self).wf(),
            from <= old(self).position(),
        ensures
            final(self).wf(),
            final(self).capacity() == old(self).capacity(),
            final(self).history() == old(self).history(),
            final(self).position() == if old(self).position() >= old(self).capacity() {
                0
            } else {
                old(self).position()
            },
            out@ == old(self).history().subrange(
                old(self).history().len() - (old(self).position() - from),
                old(self).history().len() as int,
            ),
    {
        proof {
            self.lemma_pending(from as nat);
        }
        let end = self.pos;
        if self.pos >= self.buffer.len() {
            self.pos = 0;
        }
        vstd::slice::slice_subrange(self.buffer.as_slice(), from, end)
    }

    /// Starts again from the beginning of the buffer, if it is full.
    pub fn rewind(&mut self)
        requires
            old(self).wf(),
        ensures
            final(self).wf(),
            final(self).capacity() == old(self).capacity(),
            final(self).history() == old(self).history(),
            final(self).position() == if old(self).position() >= old(self).capacity() {
                0
            } else {
                old(self).position()
            },
    {
        if self.pos >= self.buffer.len() {
            self.pos = 0;
        }
    }
}

} // verus!
