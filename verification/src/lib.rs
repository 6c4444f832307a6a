//! Truncation-safe text assembly into fixed-size byte buffers.
//!
//! [`WriteBuf`] appends UTF-8 text to a buffer of fixed capacity without ever
//! growing it. When a write cannot fit, the retained prefix is cut back to the
//! end of the last complete character, so the written region is valid UTF-8 at
//! every observable point. A finishing operation can place a suffix (a null
//! terminator, an ellipsis) at the tail, overwriting earlier content if that
//! is the only way to keep the suffix whole.

use vstd::prelude::*;

pub mod utf8;

pub use utf8::rfind_utf8_end;
pub use utf8::utf8_char_width;

verus! {

use vstd::string::StringSliceAdditionalSpecFns;
use vstd::utf8::{valid_utf8, valid_utf8_concat};
use crate::utf8::{
    complete_len, leaderless_prefix_len, lemma_skip_to_leader, lemma_take_almost_valid,
};

/// `dst` with `src` written over its bytes starting at `at`; everything
/// before `at` and from `at + src.len()` on is unchanged.
pub open spec fn spliced(dst: Seq<u8>, at: int, src: Seq<u8>) -> Seq<u8> {
    dst.take(at) + src + dst.skip(at + src.len())
}

/// Copy all of `src` into `dst` starting at `at`, leaving the length and the
/// surrounding bytes unchanged.
fn write_bytes_at(dst: &mut Vec<u8>, at: usize, src: &[u8])
    requires
        at + src@.len() <= old(dst)@.len(),
    ensures
        final(dst)@ == spliced(old(dst)@, at as int, src@),
        final(dst)@.len() == old(dst)@.len(),
{
    let n: usize = src.len();
    let cap: usize = dst.len();
    let mut i: usize = 0;
    while i < n
        invariant
            n == src@.len(),
            cap == old(dst)@.len(),
            at + n <= cap,
            i <= n,
            dst@ == old(dst)@.take(at as int) + src@.take(i as int) + old(dst)@.skip(
                at as int + i as int,
            ),
        decreases n - i,
    {
        let ghost prev = dst@;
        dst.set(at + i, src[i]);
        proof {
            assert(dst@ =~= old(dst)@.take(at as int) + src@.take(i as int + 1) + old(dst)@.skip(
                at as int + i as int + 1,
            ));
        }
        i = i + 1;
    }
    proof {
        assert(dst@ =~= spliced(old(dst)@, at as int, src@));
    }
}

/// How one write call transforms the writer: `post` is `pre` after appending
/// `input`, and `ok` tells whether the whole input was placed.
///
/// A write is refused outright when the writer is already truncated or when
/// even the reserve no longer fits; it succeeds whole when the input fits in
/// the writable region; otherwise the input's longest prefix of complete
/// characters that fits is written and the writer is marked truncated.
pub open spec fn append_transition(pre: WriteBuf, post: WriteBuf, input: Seq<u8>, ok: bool) -> bool {
    let cap = pre.target@.len() as int;
    let pos = pre.position as int;
    let res = pre.reserve as int;
    &&& post.reserve == pre.reserve
    &&& post.target@.len() == cap
    &&& if pre.truncated {
        &&& !ok
        &&& post.truncated
        &&& post.position == pre.position
        &&& post.target@ == pre.target@
    } else if cap - pos < res {
        &&& !ok
        &&& post.truncated
        &&& post.position == pre.position
        &&& post.target@ == pre.target@
    } else if input.len() <= cap - pos - res {
        &&& ok
        &&& !post.truncated
        &&& post.position == pos + input.len()
        &&& post.target@ == spliced(pre.target@, pos, input)
    } else {
        let cut = complete_len(input.take(cap - pos - res));
        &&& !ok
        &&& post.truncated
        &&& post.position == pos + cut
        &&& post.target@ == spliced(pre.target@, pos, input.take(cut))
    }
}

/// The outcome of a finishing operation: the final buffer contents, the
/// final position, and whether the operation counts as untruncated.
///
/// With `buf` of capacity `cap` written up to `pos`, `trunc` the sticky
/// truncation flag, `normal` the suffix for the untruncated case and `alt`
/// the one for the truncated case:
/// - not truncated and `normal` fits in the remaining space: `normal` goes
///   after the written content, success;
/// - otherwise, if `alt` fits in the remaining space it goes there, reported
///   as truncated;
/// - otherwise, if `alt` fits in the buffer at all, the written content is
///   cut back to the last complete character that leaves room, and `alt`
///   ends exactly at the buffer's end;
/// - otherwise only the tail of `alt` is kept, from the first byte that
///   starts a character; if no byte of that tail starts a character, nothing
///   is written at all.
pub open spec fn finish_with_spec(
    buf: Seq<u8>,
    pos: int,
    trunc: bool,
    normal: Seq<u8>,
    alt: Seq<u8>,
) -> (Seq<u8>, int, bool) {
    let cap = buf.len() as int;
    let remaining = cap - pos;
    if !trunc && normal.len() <= remaining {
        (spliced(buf, pos, normal), pos + normal.len(), true)
    } else if alt.len() <= remaining {
        (spliced(buf, pos, alt), pos + alt.len(), false)
    } else if alt.len() <= cap {
        let cut = complete_len(buf.take(cap - alt.len()));
        (spliced(buf, cut, alt), cut + alt.len(), false)
    } else {
        let tail = alt.skip(alt.len() - cap);
        let d = leaderless_prefix_len(tail);
        if d == tail.len() {
            (buf, 0, false)
        } else {
            let kept = tail.skip(d);
            (kept + buf.skip(kept.len() as int), kept.len() as int, false)
        }
    }
}

/// What every finishing operation that takes suffixes guarantees: the
/// returned buffer and result match [`finish_with_spec`], the final position
/// stays inside the buffer, and the contents up to it are valid UTF-8.
pub open spec fn finish_post(
    pre: WriteBuf,
    normal: Seq<u8>,
    alt: Seq<u8>,
    res: Result<usize, usize>,
    out: Seq<u8>,
) -> bool {
    let (b2, p2, ok) = finish_with_spec(pre.target@, pre.position as int, pre.truncated, normal, alt);
    &&& out == b2
    &&& b2.len() == pre.target@.len()
    &&& 0 <= p2 <= b2.len()
    &&& valid_utf8(b2.take(p2))
    &&& res == (if ok {
        Result::<usize, usize>::Ok(p2 as usize)
    } else {
        Result::<usize, usize>::Err(p2 as usize)
    })
}

/// A write buffer over a fixed-size byte buffer.
///
/// The writer takes ownership of the buffer for its lifetime; every finishing
/// operation hands the buffer back together with the final write position.
/// `target[0..position]` is valid UTF-8 at every observable point.
pub struct WriteBuf {
    /// The buffer written into; its length is the writer's capacity and
    /// never changes.
    pub target: Vec<u8>,
    /// One past the end of the written content; the next byte written to.
    pub position: usize,
    /// Bytes at the tail that ordinary writes must leave untouched.
    pub reserve: usize,
    /// Sticky flag: set the first time a write cannot fit, never reset.
    pub truncated: bool,
}

impl WriteBuf {
    /// The written region: everything up to the current position.
    pub open spec fn written_view(self) -> Seq<u8> {
        self.target@.take(self.position as int)
    }

    /// The writer's invariant: the position stays inside the buffer and the
    /// written region is valid UTF-8.
    pub open spec fn wf(self) -> bool {
        &&& self.position <= self.target@.len()
        &&& valid_utf8(self.written_view())
    }

    /// Create an instance that will write to the given `target`. The contents
    /// of the target need not be initialized, as they will be overwritten by
    /// writing.
    pub fn new(target: Vec<u8>) -> (w: WriteBuf)
        ensures
            w.target@ == target@,
            w.position == 0,
            w.reserve == 0,
            !w.truncated,
            w.wf(),
    {
        let w = WriteBuf { target, position: 0, reserve: 0, truncated: false };
        proof {
            assert(w.written_view() =~= Seq::<u8>::empty());
        }
        w
    }

    /// Create an instance that will write to the given `target`, keeping
    /// `reserve` bytes at the end that ordinary write operations never touch.
    ///
    /// Useful when a finishing suffix of known size (say, a null terminator)
    /// will always be written at the end. `reserve` may exceed the buffer
    /// length; ordinary writes then never succeed.
    pub fn with_reserve(target: Vec<u8>, reserve: usize) -> (w: WriteBuf)
        ensures
            w.target@ == target@,
            w.position == 0,
            w.reserve == reserve,
            !w.truncated,
            w.wf(),
    {
        let w = WriteBuf { target, position: 0, reserve, truncated: false };
        proof {
            assert(w.written_view() =~= Seq::<u8>::empty());
        }
        w
    }

    /// The position in the target buffer: one past the end of the written
    /// content, and the next position to be written to.
    pub fn position(&self) -> (r: usize)
        ensures
            r == self.position,
    {
        self.position
    }

    /// Whether a truncated write has happened.
    pub fn truncated(&self) -> (r: bool)
        ensures
            r == self.truncated,
    {
        self.truncated
    }

    /// The count of reserved bytes.
    pub fn reserve(&self) -> (r: usize)
        ensures
            r == self.reserve,
    {
        self.reserve
    }

    /// Set the reserved byte count to `count`. If writing has already reached
    /// into the new reserve, nothing already written changes, but future
    /// writes are prevented. A truncation that has already happened is not
    /// reset.
    pub fn set_reserve(&mut self, count: usize)
        ensures
            final(self).reserve == count,
            final(self).target@ == old(self).target@,
            final(self).position == old(self).position,
            final(self).truncated == old(self).truncated,
    {
        self.reserve = count;
    }

    /// Append `input` to the target buffer; `input` must be UTF-8 encoded
    /// text. This is the write primitive behind [`WriteBuf::write_str`].
    ///
    /// # Error
    ///
    /// An error is returned if the entirety of `input` cannot fit in the
    /// writable region (the buffer less the reserve) or if a previous write
    /// already failed. On a failed write that found some room, as much of
    /// `input` as fits is still written, cut back to the end of the last
    /// complete character, and the writer is marked truncated; after that,
    /// every write fails without writing.
    pub fn _write(&mut self, input: &[u8]) -> (r: Result<(), ()>)
        requires
            old(self).wf(),
            valid_utf8(input@),
        ensures
            final(self).wf(),
            append_transition(*old(self), *final(self), input@, r is Ok),
            // position never decreases across writes
            final(self).position >= old(self).position,
            // once truncated, writes change nothing and fail
            old(self).truncated ==> r is Err && final(self).position == old(self).position
                && final(self).target@ == old(self).target@,
            // input that exactly fills the writable region succeeds and
            // leaves only the reserve unwritten
            ({
                let cap = old(self).target@.len() as int;
                let pos = old(self).position as int;
                let res = old(self).reserve as int;
                (!old(self).truncated && pos + res <= cap && input@.len() == cap - pos - res)
                    ==> (r is Ok && final(self).position + final(self).reserve == cap)
            }),
    {
        if self.truncated {
            return Err(());
        }
        let cap: usize = self.target.len();
        let remaining: usize = cap - self.position;
        if remaining < self.reserve {
            self.truncated = true;
            return Err(());
        }
        let writable: usize = remaining - self.reserve;
        if input.len() <= writable {
            write_bytes_at(&mut self.target, self.position, input);
            proof {
                let pre = *old(self);
                assert(self.target@.take(self.position + input@.len() as int)
                    =~= pre.written_view() + input@);
                valid_utf8_concat(pre.written_view(), input@);
            }
            self.position = self.position + input.len();
            Ok(())
        } else {
            let to_write = vstd::slice::slice_subrange(input, 0, writable);
            let cut = rfind_utf8_end(to_write);
            proof {
                lemma_take_almost_valid(input@, writable as int);
            }
            let pref = vstd::slice::slice_subrange(input, 0, cut);
            write_bytes_at(&mut self.target, self.position, pref);
            proof {
                let pre = *old(self);
                assert(pref@ == input@.take(cut as int));
                assert(self.target@.take(self.position + cut as int)
                    =~= pre.written_view() + input@.take(cut as int));
                assert(valid_utf8(input@.take(cut as int)));
                valid_utf8_concat(pre.written_view(), input@.take(cut as int));
            }
            self.position = self.position + cut;
            self.truncated = true;
            Err(())
        }
    }

    /// Append the text `s` to the target buffer. Behaves exactly as
    /// [`WriteBuf::_write`] on the UTF-8 encoding of `s`.
    pub fn write_str(&mut self, s: &str) -> (r: Result<(), ()>)
        requires
            old(self).wf(),
        ensures
            final(self).wf(),
            append_transition(*old(self), *final(self), s.spec_bytes(), r is Ok),
            final(self).position >= old(self).position,
            old(self).truncated ==> r is Err && final(self).position == old(self).position
                && final(self).target@ == old(self).target@,
    {
        proof {
            vstd::utf8::encode_utf8_valid_utf8(s@);
        }
        self._write(s.as_bytes())
    }

    /// Finish writing to the buffer. Returns the number of bytes written
    /// together with the buffer, whose ownership goes back to the caller.
    ///
    /// # Returns
    ///
    /// In both the `Ok` and the `Err` case the final position is returned;
    /// `Ok` means no truncation occurred, `Err` that it did.
    pub fn finish(self) -> (r: (Result<usize, usize>, Vec<u8>))
        ensures
            r.1@ == self.target@,
            r.0 == (if self.truncated {
                Result::<usize, usize>::Err(self.position)
            } else {
                Result::<usize, usize>::Ok(self.position)
            }),
    {
        if self.truncated {
            (Err(self.position), self.target)
        } else {
            (Ok(self.position), self.target)
        }
    }

    /// Finish the buffer, placing `normal` at the end when nothing was
    /// truncated, and `truncated` otherwise. The suffix always ends up at the
    /// tail of the written region, even when earlier content must be cut back
    /// to make room for it — see [`finish_with_spec`] for the exact outcome
    /// of every case. Both suffixes must be UTF-8 encoded text; the returned
    /// buffer is valid UTF-8 up to the returned position.
    pub fn _finish_with(self, normal: &[u8], truncated: &[u8]) -> (r: (
        Result<usize, usize>,
        Vec<u8>,
    ))
        requires
            self.wf(),
            valid_utf8(normal@),
            valid_utf8(truncated@),
        ensures
            finish_post(self, normal@, truncated@, r.0, r.1@),
    {
        let mut this = self;
        let ghost pre = this;
        let cap: usize = this.target.len();
        let remaining: usize = cap - this.position;
        if !this.truncated && normal.len() <= remaining {
            // the normal suffix fits after what was written
            write_bytes_at(&mut this.target, this.position, normal);
            let p: usize = this.position + normal.len();
            proof {
                assert(this.target@.take(p as int) =~= pre.written_view() + normal@);
                valid_utf8_concat(pre.written_view(), normal@);
            }
            return (Ok(p), this.target);
        }
        if truncated.len() <= remaining {
            // the truncation suffix fits after what was written
            write_bytes_at(&mut this.target, this.position, truncated);
            let p: usize = this.position + truncated.len();
            proof {
                assert(this.target@.take(p as int) =~= pre.written_view() + truncated@);
                valid_utf8_concat(pre.written_view(), truncated@);
            }
            return (Err(p), this.target);
        }
        if truncated.len() <= cap {
            // cut the written content back far enough that the suffix ends
            // exactly at the buffer's end, without splitting a character
            let pei: usize = cap - truncated.len();
            let head = vstd::slice::slice_subrange(this.target.as_slice(), 0, pei);
            let write_idx = rfind_utf8_end(head);
            proof {
                lemma_take_almost_valid(pre.written_view(), pei as int);
                assert(head@ =~= pre.written_view().take(pei as int));
                assert(head@.take(complete_len(head@)) =~= pre.target@.take(complete_len(head@)));
            }
            write_bytes_at(&mut this.target, write_idx, truncated);
            let p: usize = write_idx + truncated.len();
            proof {
                let cut = complete_len(pre.target@.take(cap as int - truncated@.len() as int));
                assert(pre.target@.take(pei as int) =~= pre.written_view().take(pei as int));
                assert(cut == complete_len(head@));
                assert(write_idx == cut);
                assert(this.target@.take(p as int) =~= pre.target@.take(cut) + truncated@);
                valid_utf8_concat(pre.target@.take(cut), truncated@);
            }
            return (Err(p), this.target);
        }
        // the suffix alone is longer than the whole buffer: keep its tail,
        // starting at the first byte that starts a character
        let start: usize = truncated.len() - cap;
        let tail = vstd::slice::slice_subrange(truncated, start, truncated.len());
        match crate::utf8::ffind_utf8_start(tail) {
            None => {
                proof {
                    let m = lemma_skip_to_leader(truncated@, start as int);
                    if m < truncated@.len() {
                        assert(tail@[m - start] == truncated@[m as int]);
                        assert(false);
                    }
                    assert(this.target@.take(0) =~= Seq::<u8>::empty());
                }
                (Err(0), this.target)
            },
            Some(i) => {
                let kept = vstd::slice::slice_subrange(tail, i, cap);
                let klen: usize = cap - i;
                write_bytes_at(&mut this.target, 0, kept);
                proof {
                    let m = lemma_skip_to_leader(truncated@, start as int);
                    if m - start < i {
                        assert(tail@[m - start] == truncated@[m]);
                        assert(false);
                    }
                    if m - start > i {
                        assert(tail@[i as int] == truncated@[start + i]);
                        assert(vstd::utf8::is_continuation_byte(truncated@[start + i]));
                        assert(false);
                    }
                    assert(kept@ =~= truncated@.skip(m));
                    assert(this.target@.take(klen as int) =~= kept@);
                    assert(this.target@ =~= kept@ + pre.target@.skip(klen as int));
                }
                (Err(klen), this.target)
            },
        }
    }

    /// Finish the buffer, adding `suffix` at the end. A common use is a null
    /// terminator. The suffix always ends up at the tail of the written
    /// region, whether or not writing was truncated; when it is longer than
    /// the whole buffer only its tail survives, cut at a character start.
    /// Behaves as [`WriteBuf::finish_with_or`] with the same suffix for both
    /// cases.
    ///
    /// # Returns
    ///
    /// As for [`WriteBuf::finish`]: the final position, tagged `Err` when
    /// truncation occurred, together with the buffer.
    pub fn finish_with(self, suffix: &[u8]) -> (r: (Result<usize, usize>, Vec<u8>))
        requires
            self.wf(),
            valid_utf8(suffix@),
        ensures
            finish_post(self, suffix@, suffix@, r.0, r.1@),
    {
        self._finish_with(suffix, suffix)
    }

    /// Finish the buffer by adding `normal_suffix` if nothing was truncated,
    /// or `truncated_suffix` if it was (or if `normal_suffix` itself does not
    /// fit). In every other way this operates as [`WriteBuf::finish_with`].
    pub fn finish_with_or(self, normal_suffix: &[u8], truncated_suffix: &[u8]) -> (r: (
        Result<usize, usize>,
        Vec<u8>,
    ))
        requires
            self.wf(),
            valid_utf8(normal_suffix@),
            valid_utf8(truncated_suffix@),
        ensures
            finish_post(self, normal_suffix@, truncated_suffix@, r.0, r.1@),
    {
        self._finish_with(normal_suffix, truncated_suffix)
    }

    /// The contents that have been written so far.
    pub fn written_bytes(&self) -> (r: &[u8])
        requires
            self.position <= self.target@.len(),
        ensures
            r@ == self.written_view(),
    {
        vstd::slice::slice_subrange(self.target.as_slice(), 0, self.position)
    }

    /// The contents that have been written so far, as text. The write paths
    /// only ever leave valid UTF-8 behind, so the conversion cannot fail.
    pub fn written(&self) -> (r: &str)
        requires
            self.wf(),
        ensures
            r.spec_bytes() == self.written_view(),
    {
        match bytes_as_str(self.written_bytes()) {
            Some(s) => s,
            None => unreached(),
        }
    }
}

/// Relies on `core::str::from_utf8`: it succeeds exactly on UTF-8 encoded
/// input, and the returned string slice views the same bytes.
#[verifier::external_body]
fn bytes_as_str(bytes: &[u8]) -> (r: Option<&str>)
    ensures
        r is Some <==> valid_utf8(bytes@),
        r matches Some(s) ==> s.spec_bytes() == bytes@,
{
    core::str::from_utf8(bytes).ok()
}

} // verus!
