//! The cyclic dictionary window that decoded bytes are written into and
//! match copies are served from.
//!
//! The window is a byte buffer of a fixed dictionary size with four cursors:
//! `pos` (next write), `full` (how many bytes have ever been valid), `start`
//! (first byte not yet flushed to the consumer) and `limit` (how far the
//! current decode invocation may write). A match longer than the space up to
//! `limit` parks its remainder in `(pending_dist, pending_len)` and is
//! replayed by `repeat_pending` on the next invocation.

use vstd::prelude::*;

use crate::byte_reader::ByteReader;
use crate::Error;

verus! {

/// The mathematical state of the window.
#[verifier::ext_equal]
pub struct LzView {
    pub buf: Seq<u8>,
    pub start: int,
    pub pos: int,
    pub full: int,
    pub limit: int,
    pub pending_dist: int,
    pub pending_len: int,
}

/// The byte at logical distance `dist` behind write position `pos` in a
/// cyclic buffer of `dict` bytes (`dist == 0` is the most recently written
/// byte).
pub open spec fn dict_byte(buf: Seq<u8>, pos: int, dist: int) -> u8 {
    if dist < pos {
        buf[pos - dist - 1]
    } else {
        buf[buf.len() + pos - dist - 1]
    }
}

/// The buffer after `n` single-byte match-copy steps at distance `dist`,
/// starting from write position `pos`: each step appends the byte `dist`
/// behind the cursor, so an overlapping copy re-reads its own fresh output.
pub open spec fn repeat_model(buf: Seq<u8>, pos: int, dist: int, n: nat) -> Seq<u8>
    decreases n,
{
    if n == 0 {
        buf
    } else {
        let prev = repeat_model(buf, pos, dist, (n - 1) as nat);
        prev.update(pos + n - 1, dict_byte(prev, pos + n - 1, dist))
    }
}

/// The model keeps the buffer length.
pub proof fn lemma_repeat_model_len(buf: Seq<u8>, pos: int, dist: int, n: nat)
    requires
        0 <= pos,
        pos + n <= buf.len(),
    ensures
        repeat_model(buf, pos, dist, n).len() == buf.len(),
    decreases n,
{
    if n > 0 {
        lemma_repeat_model_len(buf, pos, dist, (n - 1) as nat);
    }
}

/// The model touches only the `n` bytes at `pos` and above.
pub proof fn lemma_repeat_model_frame(buf: Seq<u8>, pos: int, dist: int, n: nat, j: int)
    requires
        0 <= pos,
        pos + n <= buf.len(),
        0 <= j < buf.len(),
        !(pos <= j < pos + n),
    ensures
        repeat_model(buf, pos, dist, n)[j] == buf[j],
    decreases n,
{
    if n > 0 {
        lemma_repeat_model_frame(buf, pos, dist, (n - 1) as nat, j);
        lemma_repeat_model_len(buf, pos, dist, (n - 1) as nat);
    }
}

/// The window after one appended byte: the byte lands at the write
/// position, the position advances, and the high-water mark follows it.
pub open spec fn spec_put_byte(v: LzView, b: u8) -> LzView {
    LzView {
        buf: v.buf.update(v.pos, b),
        pos: v.pos + 1,
        full: if v.full < v.pos + 1 {
            v.pos + 1
        } else {
            v.full
        },
        ..v
    }
}

/// The window after a match copy of `len` bytes at the already validated
/// distance `dist`: copy byte-by-byte until `len` bytes are written or
/// `limit` is reached, park the remainder as pending, and let the high-water
/// mark follow the write position.
pub open spec fn spec_apply_repeat(v: LzView, dist: int, len: int) -> LzView {
    let copied = if len <= v.limit - v.pos {
        len
    } else {
        v.limit - v.pos
    };
    LzView {
        buf: repeat_model(v.buf, v.pos, dist, copied as nat),
        pos: v.pos + copied,
        full: if v.full < v.pos + copied {
            v.pos + copied
        } else {
            v.full
        },
        pending_dist: dist,
        pending_len: len - copied,
        ..v
    }
}

/// `repeat_ok` pins every cursor and the buffer, so a successful copy lands
/// exactly on [`spec_apply_repeat`].
pub proof fn lemma_repeat_ok_is_apply(pre: LzView, post: LzView, dist: int, len: int)
    requires
        LZDecoder::repeat_ok(pre, post, dist, len),
    ensures
        post == spec_apply_repeat(pre, dist, len),
{
    assert(post =~= spec_apply_repeat(pre, dist, len));
}

/// The cyclic dictionary window.
pub struct LZDecoder {
    buf: Vec<u8>,
    start: usize,
    pos: usize,
    full: usize,
    limit: usize,
    pending_len: usize,
    pending_dist: usize,
}

impl LZDecoder {
    pub closed spec fn view(&self) -> LzView {
        LzView {
            buf: self.buf@,
            start: self.start as int,
            pos: self.pos as int,
            full: self.full as int,
            limit: self.limit as int,
            pending_dist: self.pending_dist as int,
            pending_len: self.pending_len as int,
        }
    }

    /// The window invariant: the cursors sit in order inside the dictionary,
    /// and `full` never exceeds it.
    pub open spec fn inv(v: LzView) -> bool {
        &&& v.buf.len() >= 1
        &&& 0 <= v.start <= v.pos <= v.limit <= v.buf.len()
        &&& 0 <= v.full <= v.buf.len()
        &&& v.pending_len >= 0
        &&& v.pending_dist >= 0
    }

    pub open spec fn wf(self) -> bool {
        Self::inv(self@)
    }

    /// The byte `get_byte(dist)` must return, as a function of the view.
    pub open spec fn spec_get_byte(v: LzView, dist: int) -> u8 {
        dict_byte(v.buf, v.pos, dist)
    }

    /// A window over a zeroed dictionary of `dict_size` bytes, optionally
    /// preloaded with the tail of a preset dictionary. With a preset of `n`
    /// bytes (capped at the dictionary size), `start`, `pos` and `full` all
    /// begin at `n`, so the preset is never flushed but is visible to match
    /// copies.
    pub fn new(dict_size: usize, preset_dict: Option<&Vec<u8>>) -> (r: LZDecoder)
        requires
            dict_size >= 1,
        ensures
            r.wf(),
            r@.buf.len() == dict_size,
            r@.limit == dict_size,
            r@.pending_len == 0,
            r@.start == r@.pos && r@.pos == r@.full,
            match preset_dict {
                Some(p) => r@.pos == (if p@.len() < dict_size {
                    p@.len() as int
                } else {
                    dict_size as int
                }) && (forall|i: int|
                    0 <= i < r@.pos ==> r@.buf[i] == p@[p@.len() - r@.pos + i]),
                None => r@.pos == 0,
            },
    {
        let mut buf: Vec<u8> = Vec::new();
        let mut i: usize = 0;
        while i < dict_size
            invariant
                buf@.len() == i,
                i <= dict_size,
                forall|j: int| 0 <= j < i ==> buf@[j] == 0u8,
            decreases dict_size - i,
        {
            buf.push(0);
            i = i + 1;
        }
        match preset_dict {
            Some(p) => {
                let n = if p.len() < dict_size {
                    p.len()
                } else {
                    dict_size
                };
                let plen = p.len();
                let base = plen - n;
                let mut k: usize = 0;
                while k < n
                    invariant
                        buf@.len() == dict_size,
                        n <= dict_size,
                        base + n == plen,
                        plen == p@.len(),
                        k <= n,
                        forall|j: int| 0 <= j < k ==> buf@[j] == p@[base + j],
                    decreases n - k,
                {
                    let b = p[base + k];
                    buf.set(k, b);
                    k = k + 1;
                }
                LZDecoder {
                    buf,
                    start: n,
                    pos: n,
                    full: n,
                    limit: dict_size,
                    pending_len: 0,
                    pending_dist: 0,
                }
            },
            None => LZDecoder {
                buf,
                start: 0,
                pos: 0,
                full: 0,
                limit: dict_size,
                pending_len: 0,
                pending_dist: 0,
            },
        }
    }

    /// Forget all history: every cursor returns to zero, and the byte that
    /// `get_byte(0)` reads at position zero is cleared.
    pub fn reset(&mut self)
        requires
            old(self).wf(),
        ensures
            final(self).wf(),
            final(self)@.start == 0 && final(self)@.pos == 0 && final(self)@.full == 0 && final(self)@.limit == 0,
            final(self)@.buf.len() == old(self)@.buf.len(),
            final(self)@.pending_dist == old(self)@.pending_dist,
            final(self)@.pending_len == old(self)@.pending_len,
            final(self)@.buf == old(self)@.buf.update(old(self)@.buf.len() - 1, 0u8),
    {
        self.start = 0;
        self.pos = 0;
        self.full = 0;
        self.limit = 0;
        let last = self.buf.len() - 1;
        self.buf.set(last, 0);
    }

    /// Allow at most `out_max` more bytes before the decoder must yield:
    /// `limit` becomes `min(pos + out_max, dict_size)`.
    pub fn set_limit(&mut self, out_max: usize)
        requires
            old(self).wf(),
        ensures
            final(self).wf(),
            final(self)@ == (LzView {
                limit: if old(self)@.pos + out_max <= old(self)@.buf.len() {
                    old(self)@.pos + out_max
                } else {
                    old(self)@.buf.len() as int
                },
                ..old(self)@
            }),
    {
        if out_max <= self.buf.len() - self.pos {
            self.limit = self.pos + out_max;
        } else {
            self.limit = self.buf.len();
        }
    }

    /// May the decoder still write a byte?
    pub fn has_space(&self) -> (r: bool)
        ensures
            r == (self@.pos < self@.limit),
    {
        self.pos < self.limit
    }

    /// Is part of a match copy still parked for the next invocation?
    pub fn has_pending(&self) -> (r: bool)
        ensures
            r == (self@.pending_len > 0),
    {
        self.pending_len > 0
    }

    /// The current write position.
    pub fn get_pos(&self) -> (r: usize)
        ensures
            r == self@.pos,
    {
        self.pos
    }

    /// How many bytes of the dictionary hold decoded history.
    pub fn get_full(&self) -> (r: usize)
        ensures
            r == self@.full,
    {
        self.full
    }

    /// The byte at logical distance `dist` behind the write position.
    /// Its value is decoded history only for `dist < full`; the format
    /// guarantees callers stay inside that bound.
    pub fn get_byte(&self, dist: usize) -> (r: u8)
        requires
            self.wf(),
            dist < self@.buf.len(),
        ensures
            r == Self::spec_get_byte(self@, dist as int),
    {
        if dist < self.pos {
            self.buf[self.pos - dist - 1]
        } else {
            self.buf[self.buf.len() - (dist - self.pos) - 1]
        }
    }

    /// Append one literal byte.
    pub fn put_byte(&mut self, b: u8)
        requires
            old(self).wf(),
            old(self)@.pos < old(self)@.limit,
        ensures
            final(self).wf(),
            final(self)@ == spec_put_byte(old(self)@, b),
            final(self)@.full >= old(self)@.full,
    {
        self.buf.set(self.pos, b);
        self.pos = self.pos + 1;
        if self.full < self.pos {
            self.full = self.pos;
        }
    }

    /// What a successful `repeat(dist, len)` does to the window: copy
    /// byte-by-byte until `len` bytes are written or `limit` is reached, and
    /// park the remainder as pending.
    pub open spec fn repeat_ok(pre: LzView, post: LzView, dist: int, len: int) -> bool {
        let copied = if len <= pre.limit - pre.pos {
            len
        } else {
            pre.limit - pre.pos
        };
        &&& post.buf == repeat_model(pre.buf, pre.pos, dist, copied as nat)
        &&& post.pos == pre.pos + copied
        &&& post.full == (if pre.full < post.pos {
            post.pos
        } else {
            pre.full
        })
        &&& post.start == pre.start
        &&& post.limit == pre.limit
        &&& post.pending_dist == dist
        &&& post.pending_len == len - copied
    }

    /// Copy `len` bytes from logical distance `dist` behind the write
    /// position, truncating at `limit`. Fails without writing anything when
    /// the distance reaches beyond the decoded history (`dist >= full`).
    pub fn repeat(&mut self, dist: usize, len: usize) -> (r: Result<(), Error>)
        requires
            old(self).wf(),
        ensures
            final(self).wf(),
            dist >= old(self)@.full ==> r == Err::<(), Error>(Error::InvalidInput) && final(self)@
                == old(self)@,
            dist < old(self)@.full ==> r == Ok::<(), Error>(()) && Self::repeat_ok(
                old(self)@,
                final(self)@,
                dist as int,
                len as int,
            ) && (forall|j: int|
                0 <= j < old(self)@.buf.len() && !(old(self)@.pos <= j < final(self)@.pos)
                    ==> final(self)@.buf[j] == old(self)@.buf[j]),
            final(self)@.full >= old(self)@.full,
            final(self)@.buf.len() == old(self)@.buf.len(),
    {
        if dist >= self.full {
            return Err(Error::InvalidInput);
        }
        let copied = if len <= self.limit - self.pos {
            len
        } else {
            self.limit - self.pos
        };
        self.pending_len = len - copied;
        self.pending_dist = dist;
        let ghost buf0 = self.buf@;
        let ghost pos0 = self.pos as int;
        let mut i: usize = 0;
        while i < copied
            invariant
                i <= copied,
                0 <= pos0,
                self.pos == pos0 + i,
                pos0 + copied <= self.limit <= self.buf@.len(),
                self.buf@.len() == buf0.len(),
                buf0.len() >= 1,
                dist < buf0.len(),
                self.buf@ == repeat_model(buf0, pos0, dist as int, i as nat),
                self.start == old(self).start,
                self.limit == old(self).limit,
                self.full == old(self).full,
                self.pending_dist == dist,
                self.pending_len == len - copied,
            decreases copied - i,
        {
            proof {
                lemma_repeat_model_len(buf0, pos0, dist as int, (i + 1) as nat);
            }
            let b = if dist < self.pos {
                self.buf[self.pos - dist - 1]
            } else {
                self.buf[self.buf.len() - (dist - self.pos) - 1]
            };
            self.buf.set(self.pos, b);
            self.pos = self.pos + 1;
            i = i + 1;
        }
        if self.full < self.pos {
            self.full = self.pos;
        }
        proof {
            assert forall|j: int|
                0 <= j < old(self)@.buf.len() && !(old(self)@.pos <= j < self@.pos) implies self@.buf[j]
                == old(self)@.buf[j] by {
                lemma_repeat_model_frame(old(self)@.buf, old(self)@.pos, dist as int, (self@.pos
                    - old(self)@.pos) as nat, j);
            }
        }
        Ok(())
    }

    /// Replay a match copy that an earlier invocation truncated at `limit`.
    pub fn repeat_pending(&mut self) -> (r: Result<(), Error>)
        requires
            old(self).wf(),
        ensures
            final(self).wf(),
            old(self)@.pending_len == 0 ==> r == Ok::<(), Error>(()) && final(self)@ == old(self)@,
            old(self)@.pending_len > 0 && old(self)@.pending_dist >= old(self)@.full ==> r
                == Err::<(), Error>(Error::InvalidInput) && final(self)@ == old(self)@,
            old(self)@.pending_len > 0 && old(self)@.pending_dist < old(self)@.full ==> r == Ok::<
                (),
                Error,
            >(()) && Self::repeat_ok(
                old(self)@,
                final(self)@,
                old(self)@.pending_dist,
                old(self)@.pending_len,
            ),
            final(self)@.full >= old(self)@.full,
            final(self)@.buf.len() == old(self)@.buf.len(),
    {
        if self.pending_len > 0 {
            let dist = self.pending_dist;
            let len = self.pending_len;
            match self.repeat(dist, len) {
                Ok(_) => Ok(()),
                Err(e) => Err(e),
            }
        } else {
            Ok(())
        }
    }

    /// Stream `len` raw bytes from the source straight into the window
    /// (LZMA2 uncompressed chunks), truncating at `limit`.
    pub fn copy_uncompressed(&mut self, src: &mut ByteReader, len: usize) -> (r: Result<
        (),
        Error,
    >)
        requires
            old(self).wf(),
            old(src).wf(),
        ensures
            final(self).wf(),
            final(src).wf(),
            ({
                let copied = if len <= old(self)@.limit - old(self)@.pos {
                    len as int
                } else {
                    old(self)@.limit - old(self)@.pos
                };
                if old(src).remaining().len() < copied {
                    r == Err::<(), Error>(Error::UnexpectedEof) && final(self)@ == old(self)@
                        && final(src).remaining() == old(src).remaining()
                } else {
                    r == Ok::<(), Error>(()) && final(src).remaining() == old(src).remaining().skip(copied) && final(self)@ == (LzView {
                        buf: old(self)@.buf.take(old(self)@.pos) + old(src).remaining().take(
                            copied,
                        ) + old(self)@.buf.skip(old(self)@.pos + copied),
                        pos: old(self)@.pos + copied,
                        full: if old(self)@.full < old(self)@.pos + copied {
                            old(self)@.pos + copied
                        } else {
                            old(self)@.full
                        },
                        ..old(self)@
                    })
                }
            }),
            final(self)@.full >= old(self)@.full,
            final(self)@.buf.len() == old(self)@.buf.len(),
    {
        let copied = if len <= self.limit - self.pos {
            len
        } else {
            self.limit - self.pos
        };
        let bytes = match src.read_bytes(copied) {
            Ok(v) => v,
            Err(e) => {
                return Err(e);
            },
        };
        let mut k: usize = 0;
        while k < copied
            invariant
                k <= copied,
                bytes@.len() == copied,
                self.pos == old(self)@.pos + k,
                old(self)@.pos + copied <= self.limit <= self.buf@.len(),
                self.buf@.len() == old(self)@.buf.len(),
                self.buf@ =~= old(self)@.buf.take(old(self)@.pos) + bytes@.take(k as int) + old(self)@.buf.skip(old(self)@.pos + k),
                self.start == old(self).start,
                self.limit == old(self).limit,
                self.full == old(self).full,
                self.pending_dist == old(self).pending_dist,
                self.pending_len == old(self).pending_len,
            decreases copied - k,
        {
            let b = bytes[k];
            self.buf.set(self.pos, b);
            self.pos = self.pos + 1;
            k = k + 1;
        }
        if self.full < self.pos {
            self.full = self.pos;
        }
        proof {
            assert(final(self)@.buf =~= old(self)@.buf.take(old(self)@.pos) + old(src).remaining().take(copied as int) + old(self)@.buf.skip(old(self)@.pos + copied));
        }
        Ok(())
    }

    /// Hand the bytes decoded since the last flush to the consumer: copy
    /// `[start, pos)` into `out` at `out_off`, wrap `pos` when it hit the end
    /// of the dictionary, and advance `start`.
    pub fn flush(&mut self, out: &mut Vec<u8>, out_off: usize) -> (n: usize)
        requires
            old(self).wf(),
            out_off + (old(self)@.pos - old(self)@.start) <= old(out)@.len(),
        ensures
            final(self).wf(),
            n == old(self)@.pos - old(self)@.start,
            final(out)@.len() == old(out)@.len(),
            forall|j: int|
                0 <= j < old(out)@.len() && !(out_off <= j < out_off + n) ==> final(out)@[j]
                    == old(out)@[j],
            forall|j: int|
                0 <= j < n ==> #[trigger] final(out)@[out_off + j] == old(self)@.buf[old(self)@.start
                    + j],
            final(self)@ == (LzView {
                pos: if old(self)@.pos == old(self)@.buf.len() {
                    0
                } else {
                    old(self)@.pos
                },
                start: if old(self)@.pos == old(self)@.buf.len() {
                    0
                } else {
                    old(self)@.pos
                },
                ..old(self)@
            }),
    {
        let copy_size = self.pos - self.start;
        if self.pos == self.buf.len() {
            self.pos = 0;
        }
        let olen = out.len();
        let mut j: usize = 0;
        while j < copy_size
            invariant
                j <= copy_size,
                out_off + copy_size <= olen,
                out@.len() == olen,
                self.start + copy_size == old(self)@.pos,
                old(self)@.start + copy_size <= self.buf@.len(),
                out@.len() == old(out)@.len(),
                self.buf@ == old(self)@.buf,
                self.start == old(self).start,
                self.limit == old(self).limit,
                self.full == old(self).full,
                self.pending_dist == old(self).pending_dist,
                self.pending_len == old(self).pending_len,
                self.pos == (if old(self)@.pos == old(self)@.buf.len() {
                    0int
                } else {
                    old(self)@.pos
                }),
                forall|t: int|
                    0 <= t < out@.len() && !(out_off <= t < out_off + j) ==> out@[t] == old(out)@[t],
                forall|t: int|
                    0 <= t < j ==> #[trigger] out@[out_off + t] == old(self)@.buf[old(self)@.start
                        + t],
            decreases copy_size - j,
        {
            let b = self.buf[self.start + j];
            out.set(out_off + j, b);
            j = j + 1;
        }
        self.start = self.pos;
        copy_size
    }
}

/// Reading back a freshly copied match: after `repeat(dist, len)` completed
/// without truncation, `get_byte(len - 1 - i)` returns exactly the `i`-th
/// byte that the copy wrote, so the queries replay the written sequence.
pub proof fn lemma_repeat_reads_back(pre: LzView, post: LzView, dist: int, len: int)
    requires
        LZDecoder::inv(pre),
        LZDecoder::inv(post),
        0 <= len <= pre.limit - pre.pos,
        0 <= dist,
        LZDecoder::repeat_ok(pre, post, dist, len),
    ensures
        forall|i: int|
            0 <= i < len ==> #[trigger] LZDecoder::spec_get_byte(post, len - 1 - i) == post.buf[pre.pos
                + i],
{
    lemma_repeat_model_len(pre.buf, pre.pos, dist, len as nat);
    assert forall|i: int| 0 <= i < len implies #[trigger] LZDecoder::spec_get_byte(post, len - 1 - i)
        == post.buf[pre.pos + i] by {
        assert(post.pos == pre.pos + len);
        assert(len - 1 - i < post.pos);
    }
}

} // verus!
