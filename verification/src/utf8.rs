//! UTF-8 byte classification and boundary scanning.
//!
//! The writer in this crate must be able to cut a byte sequence short without
//! leaving a dangling fragment of a multi-byte character. The functions here
//! classify single bytes by the width of the encoded character they would
//! start, and locate the end of the last complete character in an
//! almost-valid sequence.

use vstd::prelude::*;
use vstd::utf8::{
    is_continuation_byte, length_of_first_scalar, pop_first_scalar, valid_first_scalar,
    valid_utf8, valid_utf8_concat,
};

verus! {

/// Width in bytes of the character encoding that `byte` would start, or 0 if
/// `byte` cannot start a character (it is a continuation byte, or a byte that
/// never occurs in valid UTF-8).
pub open spec fn leading_width(byte: u8) -> int {
    if byte < 0x80 {
        1
    } else if byte < 0xc2 {
        0
    } else if byte < 0xe0 {
        2
    } else if byte < 0xf0 {
        3
    } else if byte < 0xf5 {
        4
    } else {
        0
    }
}

/// True when `bytes` is a strict prefix of a single character encoding: empty,
/// or a leading byte whose declared width exceeds the bytes available,
/// followed only by continuation bytes.
pub open spec fn partial_char(bytes: Seq<u8>) -> bool {
    bytes.len() == 0 || {
        &&& leading_width(bytes[0]) > bytes.len()
        &&& forall|i: int| 1 <= i < bytes.len() ==> is_continuation_byte(#[trigger] bytes[i])
    }
}

/// Length of the longest prefix of `bytes` that decomposes into complete
/// character encodings: each step consumes a leading byte of declared width
/// `w` together with `w - 1` continuation bytes.
pub open spec fn complete_len(bytes: Seq<u8>) -> int
    decreases bytes.len(),
{
    if bytes.len() == 0 {
        0
    } else {
        let w = leading_width(bytes[0]);
        if 1 <= w <= bytes.len() && (forall|i: int|
            1 <= i < w ==> is_continuation_byte(#[trigger] bytes[i])) {
            w + complete_len(bytes.skip(w))
        } else {
            0
        }
    }
}

/// True when `bytes` is valid UTF-8 up to `complete_len(bytes)` and what
/// follows is at most one incomplete trailing character. Every prefix of a
/// valid UTF-8 sequence has this shape.
pub open spec fn almost_valid_utf8(bytes: Seq<u8>) -> bool {
    &&& valid_utf8(bytes.take(complete_len(bytes)))
    &&& partial_char(bytes.skip(complete_len(bytes)))
}

/// Number of leading bytes of `bytes` that cannot start a character.
pub open spec fn leaderless_prefix_len(bytes: Seq<u8>) -> int
    decreases bytes.len(),
{
    if bytes.len() == 0 {
        0
    } else if leading_width(bytes[0]) == 0 {
        1 + leaderless_prefix_len(bytes.skip(1))
    } else {
        0
    }
}

/// `complete_len` always names a point inside the sequence.
pub proof fn lemma_complete_len_bounds(bytes: Seq<u8>)
    ensures
        0 <= complete_len(bytes) <= bytes.len(),
    decreases bytes.len(),
{
    if bytes.len() > 0 {
        let w = leading_width(bytes[0]);
        if 1 <= w <= bytes.len() && (forall|i: int|
            1 <= i < w ==> is_continuation_byte(#[trigger] bytes[i])) {
            lemma_complete_len_bounds(bytes.skip(w));
        }
    }
}

/// In a well-formed first scalar, the leading byte's declared width is
/// exactly the scalar's encoded length, and the bytes after the leading byte
/// are continuation bytes. Overlong encodings and out-of-range codepoints are
/// excluded by well-formedness, which is what rules the widths `0xc0`/`0xc1`
/// and `0xf5`..`0xf7` out of the first branch of `leading_width`.
pub proof fn lemma_first_scalar_structure(bytes: Seq<u8>)
    requires
        valid_first_scalar(bytes),
    ensures
        1 <= length_of_first_scalar(bytes) <= bytes.len(),
        leading_width(bytes[0]) == length_of_first_scalar(bytes),
        forall|i: int|
            1 <= i < length_of_first_scalar(bytes) ==> is_continuation_byte(#[trigger] bytes[i]),
{
    let b = bytes[0];
    if vstd::utf8::is_leading_byte_width_1(b) {
    } else if vstd::utf8::is_leading_byte_width_2(b) {
        let c = bytes[1];
        let cp = vstd::utf8::codepoint_width_2(b, c);
        assert(cp >= 0x80);
        assert(b >= 0xc2) by (bit_vector)
            requires
                0xc0 <= b <= 0xdf,
                ((((b & 0x1f) as u32) << 6) | ((c & 0x3f) as u32)) >= 0x80,
        ;
    } else if vstd::utf8::is_leading_byte_width_3(b) {
    } else {
        assert(vstd::utf8::is_leading_byte_width_4(b));
        let c1 = bytes[1];
        let c2 = bytes[2];
        let c3 = bytes[3];
        let cp = vstd::utf8::codepoint_width_4(b, c1, c2, c3);
        assert(cp <= 0x10ffff);
        assert(b <= 0xf4) by (bit_vector)
            requires
                0xf0 <= b <= 0xf7,
                ((((b & 0x07) as u32) << 18) | (((c1 & 0x3f) as u32) << 12) | (((c2 & 0x3f)
                    as u32) << 6) | ((c3 & 0x3f) as u32)) <= 0x10ffff,
        ;
    }
}

/// The first scalar's bytes, taken on their own, are a valid UTF-8 sequence.
proof fn lemma_first_scalar_valid(bytes: Seq<u8>)
    requires
        valid_utf8(bytes),
        bytes.len() > 0,
    ensures
        valid_utf8(bytes.take(length_of_first_scalar(bytes))),
{
    reveal_with_fuel(valid_utf8, 2);
    let w = length_of_first_scalar(bytes);
    lemma_first_scalar_structure(bytes);
    let head = bytes.take(w);
    assert(valid_first_scalar(head));
    assert(pop_first_scalar(head) =~= Seq::<u8>::empty());
}

/// A valid UTF-8 sequence consists entirely of complete characters.
pub proof fn lemma_valid_utf8_complete_len(bytes: Seq<u8>)
    requires
        valid_utf8(bytes),
    ensures
        complete_len(bytes) == bytes.len(),
    decreases bytes.len(),
{
    if bytes.len() > 0 {
        lemma_first_scalar_structure(bytes);
        let w = length_of_first_scalar(bytes);
        assert(bytes.skip(w) =~= pop_first_scalar(bytes));
        lemma_valid_utf8_complete_len(bytes.skip(w));
    }
}

/// A valid UTF-8 sequence is in particular almost valid, with an empty
/// incomplete tail.
pub proof fn lemma_valid_utf8_almost_valid(bytes: Seq<u8>)
    requires
        valid_utf8(bytes),
    ensures
        almost_valid_utf8(bytes),
        complete_len(bytes) == bytes.len(),
{
    lemma_valid_utf8_complete_len(bytes);
    lemma_take_almost_valid(bytes, bytes.len() as int);
    assert(bytes.take(bytes.len() as int) =~= bytes);
}

/// Cutting a valid UTF-8 sequence at an arbitrary point leaves a sequence of
/// complete characters followed by at most one incomplete trailing character,
/// and the complete part is itself valid UTF-8.
pub proof fn lemma_take_almost_valid(bytes: Seq<u8>, n: int)
    requires
        valid_utf8(bytes),
        0 <= n <= bytes.len(),
    ensures
        almost_valid_utf8(bytes.take(n)),
        0 <= complete_len(bytes.take(n)) <= n,
        bytes.take(n).take(complete_len(bytes.take(n))) == bytes.take(complete_len(bytes.take(n))),
    decreases bytes.len(),
{
    let t = bytes.take(n);
    if n == 0 {
        assert(complete_len(t) == 0);
        assert(t.take(0) =~= Seq::<u8>::empty());
        assert(t.skip(0) =~= Seq::<u8>::empty());
    } else {
        lemma_first_scalar_structure(bytes);
        let w = length_of_first_scalar(bytes);
        if w <= n {
            let rest = pop_first_scalar(bytes);
            assert(bytes.skip(w) =~= rest);
            lemma_take_almost_valid(rest, n - w);
            let tr = rest.take(n - w);
            let k = complete_len(tr);
            lemma_complete_len_bounds(tr);
            assert(t.skip(w) =~= tr);
            assert(t[0] == bytes[0]);
            assert(forall|i: int| 1 <= i < w ==> is_continuation_byte(#[trigger] t[i]));
            assert(complete_len(t) == w + k);
            lemma_first_scalar_valid(bytes);
            assert(t.take(w + k) =~= bytes.take(w) + tr.take(k)) by {
                assert forall|i: int| 0 <= i < w + k implies t.take(w + k)[i] == (bytes.take(w)
                    + tr.take(k))[i] by {
                    if i >= w {
                        assert(tr[i - w] == rest[i - w]);
                        assert(rest[i - w] == bytes[i]);
                    }
                }
            }
            valid_utf8_concat(bytes.take(w), tr.take(k));
            assert(t.skip(w + k) =~= tr.skip(k)) by {
                assert forall|i: int| 0 <= i < t.skip(w + k).len() implies t.skip(w + k)[i]
                    == tr.skip(k)[i] by {
                    assert(t.skip(w + k)[i] == bytes[w + k + i]);
                    assert(tr.skip(k)[i] == tr[k + i]);
                    assert(tr[k + i] == rest[k + i]);
                    assert(rest[k + i] == bytes[w + k + i]);
                }
            }
            assert(t.take(complete_len(t)) =~= bytes.take(complete_len(t)));
        } else {
            // the cut lands inside the first character
            assert(leading_width(t[0]) == w > n == t.len());
            assert(complete_len(t) == 0);
            assert(forall|i: int| 1 <= i < t.len() ==> is_continuation_byte(#[trigger] t[i]));
            assert(partial_char(t.skip(0)) ==> partial_char(t));
            assert(t.skip(0) =~= t);
            assert(t.take(0) =~= Seq::<u8>::empty());
        }
    }
}

/// A non-empty valid UTF-8 sequence ends with one complete character: a
/// leading byte whose declared width reaches exactly to the end, with only
/// continuation bytes after it.
proof fn lemma_last_char(bytes: Seq<u8>) -> (j: int)
    requires
        valid_utf8(bytes),
        bytes.len() > 0,
    ensures
        0 <= j < bytes.len(),
        valid_utf8(bytes.take(j)),
        leading_width(bytes[j]) == bytes.len() - j,
        forall|i: int| j < i < bytes.len() ==> is_continuation_byte(#[trigger] bytes[i]),
    decreases bytes.len(),
{
    lemma_first_scalar_structure(bytes);
    let w = length_of_first_scalar(bytes);
    let rest = pop_first_scalar(bytes);
    assert(bytes.skip(w) =~= rest);
    if w == bytes.len() {
        assert(bytes.take(0) =~= Seq::<u8>::empty());
        0
    } else {
        let jr = lemma_last_char(rest);
        let j = w + jr;
        assert(bytes[j] == rest[jr]);
        lemma_first_scalar_valid(bytes);
        assert(bytes.take(j) =~= bytes.take(w) + rest.take(jr));
        valid_utf8_concat(bytes.take(w), rest.take(jr));
        assert forall|i: int| j < i < bytes.len() implies is_continuation_byte(
            #[trigger] bytes[i],
        ) by {
            assert(bytes[i] == rest[i - w]);
        }
        j
    }
}

/// Skipping from any point of a valid UTF-8 sequence, the bytes up to the
/// next leading byte (or the end) are continuation bytes, and the sequence
/// from that leading byte on is itself valid UTF-8.
pub(crate) proof fn lemma_skip_to_leader(bytes: Seq<u8>, n: int) -> (m: int)
    requires
        valid_utf8(bytes),
        0 <= n <= bytes.len(),
    ensures
        n <= m <= bytes.len(),
        forall|i: int| n <= i < m ==> is_continuation_byte(#[trigger] bytes[i]),
        m < bytes.len() ==> leading_width(bytes[m]) > 0,
        valid_utf8(bytes.skip(m)),
    decreases bytes.len(),
{
    if n == 0 {
        if bytes.len() > 0 {
            lemma_first_scalar_structure(bytes);
        }
        assert(bytes.skip(0) =~= bytes);
        0
    } else {
        lemma_first_scalar_structure(bytes);
        let w = length_of_first_scalar(bytes);
        let rest = pop_first_scalar(bytes);
        assert(bytes.skip(w) =~= rest);
        if n >= w {
            let mr = lemma_skip_to_leader(rest, n - w);
            let m = w + mr;
            assert(bytes.skip(m) =~= rest.skip(mr));
            assert(m < bytes.len() ==> bytes[m] == rest[mr]);
            assert forall|i: int| n <= i < m implies is_continuation_byte(
                #[trigger] bytes[i],
            ) by {
                assert(bytes[i] == rest[i - w]);
            }
            m
        } else {
            // n lands inside the first character
            if w < bytes.len() {
                assert(valid_utf8(rest));
                assert(rest.len() > 0);
                assert(valid_first_scalar(rest)) by {
                    reveal_with_fuel(valid_utf8, 2);
                }
                lemma_first_scalar_structure(rest);
                assert(bytes[w] == rest[0]);
            }
            w
        }
    }
}

/// If `code_unit` is a UTF-8 starting byte, return `Some(len)`, where `len` is
/// the total number of bytes in the encoded character it starts. Return `None`
/// for continuation bytes and for bytes that valid UTF-8 never contains
/// (`0xc0`, `0xc1`, and `0xf5` and above). Total for all 256 byte values.
pub fn utf8_char_width(code_unit: u8) -> (r: Option<usize>)
    ensures
        r == (if leading_width(code_unit) == 0 {
            Option::<usize>::None
        } else {
            Option::<usize>::Some(leading_width(code_unit) as usize)
        }),
{
    if code_unit < 0x80 {
        Some(1)
    } else if code_unit < 0xc2 {
        None
    } else if code_unit < 0xe0 {
        Some(2)
    } else if code_unit < 0xf0 {
        Some(3)
    } else if code_unit < 0xf5 {
        Some(4)
    } else {
        None
    }
}

/// When the first `i` bytes cannot start a character and the byte at `i`
/// (if any) can, `leaderless_prefix_len` is exactly `i`.
proof fn lemma_leaderless_prefix_len_eq(bytes: Seq<u8>, i: int)
    requires
        0 <= i <= bytes.len(),
        forall|j: int| 0 <= j < i ==> leading_width(#[trigger] bytes[j]) == 0,
        i < bytes.len() ==> leading_width(bytes[i]) > 0,
    ensures
        leaderless_prefix_len(bytes) == i,
    decreases bytes.len(),
{
    if i > 0 {
        let rest = bytes.skip(1);
        assert forall|j: int| 0 <= j < i - 1 implies leading_width(#[trigger] rest[j]) == 0 by {
            assert(rest[j] == bytes[j + 1]);
        }
        lemma_leaderless_prefix_len_eq(rest, i - 1);
    }
}

/// Find the end of the last complete character in `buf`.
///
/// `buf` should be valid UTF-8 except that its final bytes may be an
/// incomplete multi-byte character; the result is then the index one past the
/// last byte of the last complete character (`complete_len`). For arbitrary
/// byte sequences the scan still terminates without panicking and returns an
/// index in `[0, buf.len()]`, but no further claim is made.
pub fn rfind_utf8_end(buf: &[u8]) -> (r: usize)
    ensures
        r <= buf@.len(),
        almost_valid_utf8(buf@) ==> r == complete_len(buf@) && valid_utf8(buf@.take(r as int)),
        valid_utf8(buf@) ==> r == buf@.len(),
{
    proof {
        if valid_utf8(buf@) {
            lemma_valid_utf8_almost_valid(buf@);
        }
    }
    let len: usize = buf.len();
    let mut position: usize = len;
    while position > 0 && utf8_char_width(buf[position - 1]).is_none()
        invariant
            position <= len,
            len == buf@.len(),
            forall|i: int| position <= i < len ==> leading_width(#[trigger] buf@[i]) == 0,
        decreases position,
    {
        position = position - 1;
    }
    if position == 0 {
        proof {
            if almost_valid_utf8(buf@) {
                lemma_complete_len_bounds(buf@);
                let k = complete_len(buf@);
                if k > 0 {
                    assert(leading_width(buf@[0]) >= 1);
                }
                assert(buf@.take(0) =~= Seq::<u8>::empty());
            }
        }
        return 0;
    }
    let j = position - 1;
    let r = match utf8_char_width(buf[j]) {
        Some(w) => {
            if w <= len - j {
                j + w
            } else {
                j
            }
        },
        None => unreached(),  // the scan stopped on a byte that starts a character
    };
    proof {
        if almost_valid_utf8(buf@) {
            lemma_rfind_result(buf@, j as int);
        }
    }
    r
}

/// With an almost-valid sequence, the backward scan's stopping point `j` (the
/// last byte that can start a character) determines `complete_len`: the
/// character at `j` is either fully present and ends the complete region, or
/// it is cut off and the complete region ends at `j`.
proof fn lemma_rfind_result(bytes: Seq<u8>, j: int)
    requires
        almost_valid_utf8(bytes),
        0 <= j < bytes.len(),
        leading_width(bytes[j]) > 0,
        forall|i: int| j < i < bytes.len() ==> leading_width(#[trigger] bytes[i]) == 0,
    ensures
        j + leading_width(bytes[j]) <= bytes.len() ==> complete_len(bytes) == j + leading_width(
            bytes[j],
        ),
        j + leading_width(bytes[j]) > bytes.len() ==> complete_len(bytes) == j,
        valid_utf8(bytes.take(complete_len(bytes))),
{
    let len = bytes.len() as int;
    let k = complete_len(bytes);
    lemma_complete_len_bounds(bytes);
    let v = bytes.take(k);
    let t = bytes.skip(k);
    if k < len {
        // incomplete tail: its first byte is the last leading byte, so j == k
        assert(t[0] == bytes[k]);
        assert(leading_width(bytes[k]) > t.len() >= 1);
        if j > k {
            assert(is_continuation_byte(t[j - k]));
            assert(leading_width(bytes[j]) == 0);
            assert(false);
        }
        if j < k {
            // a leading byte sits at k, above j, contradicting that the scan
            // walked over nothing but continuation bytes there
            assert(leading_width(bytes[k]) == 0);
            assert(false);
        }
        assert(j == k);
        assert(j + leading_width(bytes[j]) > len);
    } else {
        // the whole sequence is complete characters
        assert(v =~= bytes);
        let jv = lemma_last_char(bytes);
        if jv < j {
            assert(is_continuation_byte(bytes[j]));
            assert(false);
        }
        if jv > j {
            assert(leading_width(bytes[jv]) == 0);
            assert(false);
        }
        assert(j == jv);
        assert(j + leading_width(bytes[j]) == len);
    }
}

/// Find the first byte of `buf` that can start a character, scanning forward.
///
/// Returns `None` when no byte of `buf` can start a character. Used when a
/// finishing suffix is longer than the whole buffer: its copied tail must not
/// begin in the middle of a multi-byte character.
pub(crate) fn ffind_utf8_start(buf: &[u8]) -> (r: Option<usize>)
    ensures
        match r {
            Some(i) => {
                &&& i < buf@.len()
                &&& leading_width(buf@[i as int]) > 0
                &&& forall|j: int| 0 <= j < i ==> leading_width(#[trigger] buf@[j]) == 0
                &&& leaderless_prefix_len(buf@) == i
            },
            None => {
                &&& forall|j: int| 0 <= j < buf@.len() ==> leading_width(#[trigger] buf@[j]) == 0
                &&& leaderless_prefix_len(buf@) == buf@.len()
            },
        },
{
    let len: usize = buf.len();
    let mut i: usize = 0;
    while i < len && utf8_char_width(buf[i]).is_none()
        invariant
            i <= len,
            len == buf@.len(),
            forall|j: int| 0 <= j < i ==> leading_width(#[trigger] buf@[j]) == 0,
        decreases len - i,
    {
        i = i + 1;
    }
    if i < len {
        proof {
            lemma_leaderless_prefix_len_eq(buf@, i as int);
        }
        Some(i)
    } else {
        proof {
            lemma_leaderless_prefix_len_eq(buf@, buf@.len() as int);
        }
        None
    }
}

} // verus!
