//! The salvage scan: the single-pass walk over a byte buffer that splits it
//! into maximal valid UTF-8 runs, invalid (garbage) runs, and — possibly —
//! an undecided truncated tail.
//!
//! The specification side models one scan of a chunk as four sequences:
//! [`scan_safe`] (the valid bytes, in input order), [`scan_garbage`] (the
//! invalid bytes, in input order), [`scan_spans`] (the half-open intervals
//! of the maximal invalid runs, in chunk coordinates, oldest first) and
//! [`scan_tail`] (the trailing bytes of a multi-byte character that the
//! chunk cut off, which are neither safe nor garbage).  The executable side
//! classifies one position at a time with [`classify_step`], whose contract
//! ties the byte-range checks to vstd's UTF-8 scalar model.

use vstd::prelude::*;
use vstd::utf8::is_continuation_byte;
use vstd::utf8::length_of_first_scalar;
use vstd::utf8::valid_first_scalar;
use vstd::utf8::valid_utf8;

verus! {

/// The suffix of `chunk` that starts at position `i`.
pub open spec fn rest_of(chunk: Seq<u8>, i: int) -> Seq<u8> {
    chunk.subrange(i, chunk.len() as int)
}

/// Acceptable second byte of a three-byte encoding that starts with `b0`:
/// the ranges that rule out overlong encodings (`0xe0`) and surrogate
/// values (`0xed`).
pub open spec fn second_byte_ok_3(b0: u8, b1: u8) -> bool {
    if b0 == 0xe0 {
        0xa0 <= b1 <= 0xbf
    } else if b0 == 0xed {
        0x80 <= b1 <= 0x9f
    } else {
        0x80 <= b1 <= 0xbf
    }
}

/// Acceptable second byte of a four-byte encoding that starts with `b0`:
/// the ranges that rule out overlong encodings (`0xf0`) and values above
/// the last Unicode scalar (`0xf4`).
pub open spec fn second_byte_ok_4(b0: u8, b1: u8) -> bool {
    if b0 == 0xf0 {
        0x90 <= b1 <= 0xbf
    } else if b0 == 0xf4 {
        0x80 <= b1 <= 0x8f
    } else {
        0x80 <= b1 <= 0xbf
    }
}

/// The whole sequence is a proper prefix of a single scalar's encoding:
/// every byte present is acceptable, but the encoding is cut off by the end
/// of the input.
pub open spec fn truncated_scalar(s: Seq<u8>) -> bool {
    ||| (s.len() == 1 && (0xc2 <= s[0] <= 0xdf || 0xe0 <= s[0] <= 0xef || 0xf0 <= s[0] <= 0xf4))
    ||| (s.len() == 2 && 0xe0 <= s[0] <= 0xef && second_byte_ok_3(s[0], s[1]))
    ||| (s.len() == 2 && 0xf0 <= s[0] <= 0xf4 && second_byte_ok_4(s[0], s[1]))
    ||| (s.len() == 3 && 0xf0 <= s[0] <= 0xf4 && second_byte_ok_4(s[0], s[1])
        && is_continuation_byte(s[2]))
}

/// Position `i` of `chunk` starts neither a well-formed scalar encoding nor
/// a truncated one: the byte at `i` is garbage.
pub open spec fn bad_at(chunk: Seq<u8>, i: int) -> bool {
    &&& 0 <= i < chunk.len()
    &&& !valid_first_scalar(rest_of(chunk, i))
    &&& !truncated_scalar(rest_of(chunk, i))
}

/// The end of the maximal garbage run that contains position `i`: the first
/// position at or after `i` that is not garbage.
pub open spec fn garbage_run_end(chunk: Seq<u8>, i: int) -> int
    decreases chunk.len() - i,
{
    if bad_at(chunk, i) {
        garbage_run_end(chunk, i + 1)
    } else {
        i
    }
}

/// The byte-range shape of a well-formed scalar encoding at the head of
/// `s`, stated without codepoint arithmetic.  [`lemma_scalar_byte_shape`]
/// proves it equivalent to [`valid_first_scalar`].
pub open spec fn scalar_shape(s: Seq<u8>) -> bool {
    ||| (s.len() >= 1 && s[0] < 0x80)
    ||| (s.len() >= 2 && 0xc2 <= s[0] <= 0xdf && is_continuation_byte(s[1]))
    ||| (s.len() >= 3 && 0xe0 <= s[0] <= 0xef && second_byte_ok_3(s[0], s[1])
        && is_continuation_byte(s[2]))
    ||| (s.len() >= 4 && 0xf0 <= s[0] <= 0xf4 && second_byte_ok_4(s[0], s[1])
        && is_continuation_byte(s[2]) && is_continuation_byte(s[3]))
}

/// A well-formed scalar encoding is exactly one whose bytes fall in the
/// ranges of [`scalar_shape`], and its length is determined by the leading
/// byte alone.
pub proof fn lemma_scalar_byte_shape(s: Seq<u8>)
    requires
        s.len() > 0,
    ensures
        valid_first_scalar(s) <==> scalar_shape(s),
        valid_first_scalar(s) ==> length_of_first_scalar(s) == (if s[0] < 0x80 {
            1int
        } else if s[0] <= 0xdf {
            2int
        } else if s[0] <= 0xef {
            3int
        } else {
            4int
        }),
{
    let b0 = s[0];
    if b0 < 0x80 {
        assert((b0 & 0x7f) as u32 <= 0x7f) by (bit_vector);
    } else if b0 < 0xc0 {
        // a continuation byte in leading position: no disjunct applies
    } else if b0 <= 0xdf {
        if s.len() >= 2 && is_continuation_byte(s[1]) {
            let b1 = s[1];
            assert(((((b0 & 0x1f) as u32) << 6) | ((b1 & 0x3f) as u32)) <= 0x7ff) by (bit_vector);
            assert((((((b0 & 0x1f) as u32) << 6) | ((b1 & 0x3f) as u32)) >= 0x80) <==> (b0 >= 0xc2))
                by (bit_vector)
                requires
                    0xc0 <= b0 <= 0xdf,
            ;
        }
    } else if b0 <= 0xef {
        if s.len() >= 3 && is_continuation_byte(s[1]) && is_continuation_byte(s[2]) {
            let b1 = s[1];
            let b2 = s[2];
            assert(((((b0 & 0x0f) as u32) << 12) | (((b1 & 0x3f) as u32) << 6) | ((b2
                & 0x3f) as u32)) <= 0xffff) by (bit_vector);
            assert((((((b0 & 0x0f) as u32) << 12) | (((b1 & 0x3f) as u32) << 6) | ((b2
                & 0x3f) as u32)) >= 0x800) <==> !(b0 == 0xe0 && b1 < 0xa0)) by (bit_vector)
                requires
                    0xe0 <= b0 <= 0xef,
                    0x80 <= b1 <= 0xbf,
            ;
            assert((0xd800 <= ((((b0 & 0x0f) as u32) << 12) | (((b1 & 0x3f) as u32) << 6) | ((b2
                & 0x3f) as u32)) && ((((b0 & 0x0f) as u32) << 12) | (((b1 & 0x3f) as u32) << 6) | ((
            b2 & 0x3f) as u32)) <= 0xdfff) <==> (b0 == 0xed && b1 >= 0xa0)) by (bit_vector)
                requires
                    0xe0 <= b0 <= 0xef,
                    0x80 <= b1 <= 0xbf,
            ;
        }
    } else if b0 <= 0xf7 {
        if s.len() >= 4 && is_continuation_byte(s[1]) && is_continuation_byte(s[2])
            && is_continuation_byte(s[3]) {
            let b1 = s[1];
            let b2 = s[2];
            let b3 = s[3];
            assert((((((b0 & 0x07) as u32) << 18) | (((b1 & 0x3f) as u32) << 12) | (((b2
                & 0x3f) as u32) << 6) | ((b3 & 0x3f) as u32)) >= 0x10000) <==> !(b0 == 0xf0 && b1
                < 0x90)) by (bit_vector)
                requires
                    0xf0 <= b0 <= 0xf7,
                    0x80 <= b1 <= 0xbf,
            ;
            assert((((((b0 & 0x07) as u32) << 18) | (((b1 & 0x3f) as u32) << 12) | (((b2
                & 0x3f) as u32) << 6) | ((b3 & 0x3f) as u32)) <= 0x10ffff) <==> (b0 < 0xf4 || (b0
                == 0xf4 && b1 < 0x90))) by (bit_vector)
                requires
                    0xf0 <= b0 <= 0xf7,
                    0x80 <= b1 <= 0xbf,
            ;
        }
    } else {
        // 0xf8..=0xff: no leading pattern applies
    }
}

/// A well-formed scalar encoding has between one and `s.len()` bytes.
pub proof fn lemma_first_scalar_len(s: Seq<u8>)
    requires
        valid_first_scalar(s),
    ensures
        1 <= length_of_first_scalar(s) <= s.len(),
{
    lemma_scalar_byte_shape(s);
}

/// A garbage run ends no earlier than it starts and no later than the end
/// of the chunk.
pub proof fn lemma_run_end_bounds(chunk: Seq<u8>, i: int)
    requires
        0 <= i <= chunk.len(),
    ensures
        i <= garbage_run_end(chunk, i) <= chunk.len(),
        !bad_at(chunk, garbage_run_end(chunk, i)),
    decreases chunk.len() - i,
{
    if bad_at(chunk, i) {
        lemma_run_end_bounds(chunk, i + 1);
    }
}

/// The valid bytes that one scan of `chunk`, started at position `i`,
/// appends to the safe stream, in input order.
pub open spec fn scan_safe(chunk: Seq<u8>, i: int) -> Seq<u8>
    decreases chunk.len() - i,
    via scan_safe_decreases
{
    if !(0 <= i < chunk.len()) {
        Seq::empty()
    } else if valid_first_scalar(rest_of(chunk, i)) {
        let l = length_of_first_scalar(rest_of(chunk, i));
        chunk.subrange(i, i + l) + scan_safe(chunk, i + l)
    } else if truncated_scalar(rest_of(chunk, i)) {
        Seq::empty()
    } else {
        scan_safe(chunk, i + 1)
    }
}

#[via_fn]
proof fn scan_safe_decreases(chunk: Seq<u8>, i: int) {
    if 0 <= i < chunk.len() && valid_first_scalar(rest_of(chunk, i)) {
        lemma_first_scalar_len(rest_of(chunk, i));
    }
}

/// The invalid bytes that one scan of `chunk`, started at position `i`,
/// appends to the garbage stream, in input order.
pub open spec fn scan_garbage(chunk: Seq<u8>, i: int) -> Seq<u8>
    decreases chunk.len() - i,
    via scan_garbage_decreases
{
    if !(0 <= i < chunk.len()) {
        Seq::empty()
    } else if valid_first_scalar(rest_of(chunk, i)) {
        scan_garbage(chunk, i + length_of_first_scalar(rest_of(chunk, i)))
    } else if truncated_scalar(rest_of(chunk, i)) {
        Seq::empty()
    } else {
        seq![chunk[i]] + scan_garbage(chunk, i + 1)
    }
}

#[via_fn]
proof fn scan_garbage_decreases(chunk: Seq<u8>, i: int) {
    if 0 <= i < chunk.len() && valid_first_scalar(rest_of(chunk, i)) {
        lemma_first_scalar_len(rest_of(chunk, i));
    }
}

/// The spans of the maximal invalid runs that one scan of `chunk`, started
/// at position `i`, records: half-open `[start, end)` intervals in chunk
/// coordinates, oldest first.
pub open spec fn scan_spans(chunk: Seq<u8>, i: int) -> Seq<(usize, usize)>
    decreases chunk.len() - i,
    via scan_spans_decreases
{
    if !(0 <= i < chunk.len()) {
        Seq::empty()
    } else if valid_first_scalar(rest_of(chunk, i)) {
        scan_spans(chunk, i + length_of_first_scalar(rest_of(chunk, i)))
    } else if truncated_scalar(rest_of(chunk, i)) {
        Seq::empty()
    } else {
        let e = garbage_run_end(chunk, i);
        seq![(i as usize, e as usize)] + scan_spans(chunk, e)
    }
}

#[via_fn]
proof fn scan_spans_decreases(chunk: Seq<u8>, i: int) {
    if 0 <= i < chunk.len() {
        if valid_first_scalar(rest_of(chunk, i)) {
            lemma_first_scalar_len(rest_of(chunk, i));
        } else if !truncated_scalar(rest_of(chunk, i)) {
            lemma_run_end_bounds(chunk, i + 1);
        }
    }
}

/// The undecided trailing bytes that one scan of `chunk`, started at
/// position `i`, leaves neither safe nor garbage: the bytes of a truncated
/// multi-byte character at the very end of the chunk.
pub open spec fn scan_tail(chunk: Seq<u8>, i: int) -> Seq<u8>
    decreases chunk.len() - i,
    via scan_tail_decreases
{
    if !(0 <= i < chunk.len()) {
        Seq::empty()
    } else if valid_first_scalar(rest_of(chunk, i)) {
        scan_tail(chunk, i + length_of_first_scalar(rest_of(chunk, i)))
    } else if truncated_scalar(rest_of(chunk, i)) {
        rest_of(chunk, i)
    } else {
        scan_tail(chunk, i + 1)
    }
}

#[via_fn]
proof fn scan_tail_decreases(chunk: Seq<u8>, i: int) {
    if 0 <= i < chunk.len() && valid_first_scalar(rest_of(chunk, i)) {
        lemma_first_scalar_len(rest_of(chunk, i));
    }
}

/// The first position at or after `i` that does not start a well-formed
/// scalar encoding, or the length of the chunk when the rest decodes
/// entirely as whole characters.
pub open spec fn fault_pos(chunk: Seq<u8>, i: int) -> int
    decreases chunk.len() - i,
    via fault_pos_decreases
{
    if !(0 <= i < chunk.len()) {
        chunk.len() as int
    } else if valid_first_scalar(rest_of(chunk, i)) {
        fault_pos(chunk, i + length_of_first_scalar(rest_of(chunk, i)))
    } else {
        i
    }
}

#[via_fn]
proof fn fault_pos_decreases(chunk: Seq<u8>, i: int) {
    if 0 <= i < chunk.len() && valid_first_scalar(rest_of(chunk, i)) {
        lemma_first_scalar_len(rest_of(chunk, i));
    }
}

/// Every byte of a scanned chunk lands in exactly one of the three
/// streams: the lengths of the safe stream, the garbage stream and the
/// undecided tail always add up to the length of the chunk.
pub proof fn lemma_scan_partition(chunk: Seq<u8>)
    ensures
        scan_safe(chunk, 0).len() + scan_garbage(chunk, 0).len() + scan_tail(chunk, 0).len()
            == chunk.len(),
{
    lemma_scan_partition_from(chunk, 0);
}

proof fn lemma_scan_partition_from(chunk: Seq<u8>, i: int)
    requires
        0 <= i <= chunk.len(),
    ensures
        scan_safe(chunk, i).len() + scan_garbage(chunk, i).len() + scan_tail(chunk, i).len()
            == chunk.len() - i,
    decreases chunk.len() - i,
{
    if i == chunk.len() {
    } else if valid_first_scalar(rest_of(chunk, i)) {
        let l = length_of_first_scalar(rest_of(chunk, i));
        lemma_first_scalar_len(rest_of(chunk, i));
        lemma_scan_partition_from(chunk, i + l);
    } else if truncated_scalar(rest_of(chunk, i)) {
    } else {
        lemma_scan_partition_from(chunk, i + 1);
    }
}

/// When the scan leaves no undecided tail — the chunk does not end in a
/// truncated multi-byte character — the safe and garbage streams alone
/// partition the chunk.  (A chunk such as the lone leading byte of a
/// two-byte character ends in a truncated encoding, and its undecided
/// bytes are counted by neither stream.)
pub proof fn lemma_scan_partition_no_tail(chunk: Seq<u8>)
    requires
        scan_tail(chunk, 0).len() == 0,
    ensures
        scan_safe(chunk, 0).len() + scan_garbage(chunk, 0).len() == chunk.len(),
{
    lemma_scan_partition(chunk);
}

/// The safe stream of a scan is valid UTF-8, whatever the chunk holds:
/// decoding it can never fail.
pub proof fn lemma_scan_safe_valid(chunk: Seq<u8>)
    ensures
        valid_utf8(scan_safe(chunk, 0)),
{
    lemma_scan_safe_valid_from(chunk, 0);
}

proof fn lemma_scan_safe_valid_from(chunk: Seq<u8>, i: int)
    requires
        0 <= i <= chunk.len(),
    ensures
        valid_utf8(scan_safe(chunk, i)),
    decreases chunk.len() - i,
{
    if i == chunk.len() {
    } else if valid_first_scalar(rest_of(chunk, i)) {
        let l = length_of_first_scalar(rest_of(chunk, i));
        lemma_first_scalar_len(rest_of(chunk, i));
        lemma_scan_safe_valid_from(chunk, i + l);
        lemma_scalar_block_valid(rest_of(chunk, i));
        assert(rest_of(chunk, i).subrange(0, l) =~= chunk.subrange(i, i + l));
        vstd::utf8::valid_utf8_concat(chunk.subrange(i, i + l), scan_safe(chunk, i + l));
    } else if truncated_scalar(rest_of(chunk, i)) {
    } else {
        lemma_scan_safe_valid_from(chunk, i + 1);
    }
}

/// The bytes of `chunk` covered by the given spans, in span order.
pub open spec fn spans_bytes(chunk: Seq<u8>, spans: Seq<(usize, usize)>) -> Seq<u8>
    decreases spans.len(),
{
    if spans.len() == 0 {
        Seq::empty()
    } else {
        chunk.subrange(spans[0].0 as int, spans[0].1 as int) + spans_bytes(
            chunk,
            spans.drop_first(),
        )
    }
}

/// The recorded spans describe the garbage exactly: each span is a
/// non-empty interval inside the chunk, the spans are ordered and disjoint
/// — each ends before the next begins — and the bytes they cover, taken in
/// order, are precisely the garbage stream.
pub proof fn lemma_spans_describe_garbage(chunk: Seq<u8>)
    requires
        chunk.len() <= usize::MAX,
    ensures
        spans_bytes(chunk, scan_spans(chunk, 0)) == scan_garbage(chunk, 0),
        forall|k: int|
            0 <= k < scan_spans(chunk, 0).len() ==> #[trigger] scan_spans(chunk, 0)[k].0
                < scan_spans(chunk, 0)[k].1 <= chunk.len(),
        forall|k: int|
            0 < k < scan_spans(chunk, 0).len() ==> #[trigger] scan_spans(chunk, 0)[k - 1].1
                <= scan_spans(chunk, 0)[k].0,
{
    lemma_spans_describe_garbage_from(chunk, 0);
}

proof fn lemma_spans_describe_garbage_from(chunk: Seq<u8>, i: int)
    requires
        0 <= i <= chunk.len() <= usize::MAX,
    ensures
        spans_bytes(chunk, scan_spans(chunk, i)) == scan_garbage(chunk, i),
        forall|k: int|
            0 <= k < scan_spans(chunk, i).len() ==> i <= #[trigger] scan_spans(chunk, i)[k].0
                < scan_spans(chunk, i)[k].1 <= chunk.len(),
        forall|k: int|
            0 < k < scan_spans(chunk, i).len() ==> #[trigger] scan_spans(chunk, i)[k - 1].1
                <= scan_spans(chunk, i)[k].0,
    decreases chunk.len() - i,
{
    if i == chunk.len() {
    } else if valid_first_scalar(rest_of(chunk, i)) {
        let l = length_of_first_scalar(rest_of(chunk, i));
        lemma_first_scalar_len(rest_of(chunk, i));
        lemma_spans_describe_garbage_from(chunk, i + l);
    } else if truncated_scalar(rest_of(chunk, i)) {
    } else {
        assert(bad_at(chunk, i));
        lemma_scan_bad_run(chunk, i);
        let e = garbage_run_end(chunk, i);
        lemma_spans_describe_garbage_from(chunk, e);
        let sp = scan_spans(chunk, i);
        assert(sp.drop_first() =~= scan_spans(chunk, e));
        assert(sp[0] == (i as usize, e as usize));
        assert(spans_bytes(chunk, sp) == chunk.subrange(i, e) + spans_bytes(
            chunk,
            scan_spans(chunk, e),
        ));
    }
}

/// How one byte of a scanned chunk was classified.
pub enum ByteClass {
    /// Part of a valid UTF-8 run: went to the safe stream.
    Kept,
    /// Part of an invalid run: went to the garbage stream.
    Flagged,
    /// Part of a truncated trailing encoding: went to neither stream.
    Undecided,
}

/// The per-byte classification of one scan of `chunk` from position `i`:
/// one mark for each byte from `i` to the end of the chunk.
pub open spec fn scan_marks(chunk: Seq<u8>, i: int) -> Seq<ByteClass>
    decreases chunk.len() - i,
    via scan_marks_decreases
{
    if !(0 <= i < chunk.len()) {
        Seq::empty()
    } else if valid_first_scalar(rest_of(chunk, i)) {
        let l = length_of_first_scalar(rest_of(chunk, i));
        Seq::new(l as nat, |t: int| ByteClass::Kept) + scan_marks(chunk, i + l)
    } else if truncated_scalar(rest_of(chunk, i)) {
        Seq::new((chunk.len() - i) as nat, |t: int| ByteClass::Undecided)
    } else {
        seq![ByteClass::Flagged] + scan_marks(chunk, i + 1)
    }
}

#[via_fn]
proof fn scan_marks_decreases(chunk: Seq<u8>, i: int) {
    if 0 <= i < chunk.len() && valid_first_scalar(rest_of(chunk, i)) {
        lemma_first_scalar_len(rest_of(chunk, i));
    }
}

/// The subsequence of `b` at the positions whose mark in `m` is `k`, in
/// order.
pub open spec fn sieve(b: Seq<u8>, m: Seq<ByteClass>, k: ByteClass) -> Seq<u8>
    decreases b.len(),
{
    if b.len() == 0 || m.len() == 0 {
        Seq::empty()
    } else {
        let rest = sieve(b.drop_first(), m.drop_first(), k);
        if m[0] == k {
            seq![b[0]] + rest
        } else {
            rest
        }
    }
}

proof fn lemma_sieve_concat(b1: Seq<u8>, m1: Seq<ByteClass>, b2: Seq<u8>, m2: Seq<ByteClass>, k: ByteClass)
    requires
        b1.len() == m1.len(),
    ensures
        sieve(b1 + b2, m1 + m2, k) == sieve(b1, m1, k) + sieve(b2, m2, k),
    decreases b1.len(),
{
    if b1.len() == 0 {
        assert(b1 + b2 =~= b2);
        assert(m1 + m2 =~= m2);
        assert(sieve(b1, m1, k) + sieve(b2, m2, k) =~= sieve(b2, m2, k));
    } else {
        lemma_sieve_concat(b1.drop_first(), m1.drop_first(), b2, m2, k);
        assert((b1 + b2).drop_first() =~= b1.drop_first() + b2);
        assert((m1 + m2).drop_first() =~= m1.drop_first() + m2);
        assert((b1 + b2)[0] == b1[0]);
        assert((m1 + m2)[0] == m1[0]);
        if m1[0] == k {
            assert(seq![b1[0]] + (sieve(b1.drop_first(), m1.drop_first(), k) + sieve(b2, m2, k))
                =~= (seq![b1[0]] + sieve(b1.drop_first(), m1.drop_first(), k)) + sieve(b2, m2, k));
        }
    }
}

proof fn lemma_sieve_uniform(b: Seq<u8>, k: ByteClass, k2: ByteClass)
    ensures
        sieve(b, Seq::new(b.len(), |t: int| k), k2) == (if k == k2 {
            b
        } else {
            Seq::<u8>::empty()
        }),
    decreases b.len(),
{
    let m = Seq::new(b.len(), |t: int| k);
    if b.len() > 0 {
        lemma_sieve_uniform(b.drop_first(), k, k2);
        assert(m.drop_first() =~= Seq::new(b.drop_first().len(), |t: int| k));
        if k == k2 {
            assert(seq![b[0]] + b.drop_first() =~= b);
        }
    }
}

/// No reordering: one scan classifies each byte of the chunk — the marks
/// cover the chunk one for one — and the safe stream, the garbage stream
/// and the undecided tail are exactly the subsequences of the chunk at the
/// positions so marked, each in its original relative order.  Merging the
/// safe and garbage fragments back at their original offsets therefore
/// reconstructs the chunk (up to its undecided tail) exactly.
pub proof fn lemma_no_reordering(chunk: Seq<u8>)
    ensures
        scan_marks(chunk, 0).len() == chunk.len(),
        scan_safe(chunk, 0) == sieve(chunk, scan_marks(chunk, 0), ByteClass::Kept),
        scan_garbage(chunk, 0) == sieve(chunk, scan_marks(chunk, 0), ByteClass::Flagged),
        scan_tail(chunk, 0) == sieve(chunk, scan_marks(chunk, 0), ByteClass::Undecided),
{
    lemma_no_reordering_from(chunk, 0);
    assert(rest_of(chunk, 0) =~= chunk);
}

proof fn lemma_no_reordering_from(chunk: Seq<u8>, i: int)
    requires
        0 <= i <= chunk.len(),
    ensures
        scan_marks(chunk, i).len() == chunk.len() - i,
        scan_safe(chunk, i) == sieve(rest_of(chunk, i), scan_marks(chunk, i), ByteClass::Kept),
        scan_garbage(chunk, i) == sieve(
            rest_of(chunk, i),
            scan_marks(chunk, i),
            ByteClass::Flagged,
        ),
        scan_tail(chunk, i) == sieve(
            rest_of(chunk, i),
            scan_marks(chunk, i),
            ByteClass::Undecided,
        ),
    decreases chunk.len() - i,
{
    let rest = rest_of(chunk, i);
    let m = scan_marks(chunk, i);
    if i == chunk.len() {
        assert(rest =~= Seq::<u8>::empty());
    } else if valid_first_scalar(rest) {
        let l = length_of_first_scalar(rest);
        lemma_first_scalar_len(rest);
        lemma_no_reordering_from(chunk, i + l);
        let block = chunk.subrange(i, i + l);
        let mk = Seq::new(l as nat, |t: int| ByteClass::Kept);
        assert(rest =~= block + rest_of(chunk, i + l));
        lemma_sieve_concat(block, mk, rest_of(chunk, i + l), scan_marks(chunk, i + l), ByteClass::Kept);
        lemma_sieve_concat(
            block,
            mk,
            rest_of(chunk, i + l),
            scan_marks(chunk, i + l),
            ByteClass::Flagged,
        );
        lemma_sieve_concat(
            block,
            mk,
            rest_of(chunk, i + l),
            scan_marks(chunk, i + l),
            ByteClass::Undecided,
        );
        lemma_sieve_uniform(block, ByteClass::Kept, ByteClass::Kept);
        lemma_sieve_uniform(block, ByteClass::Kept, ByteClass::Flagged);
        lemma_sieve_uniform(block, ByteClass::Kept, ByteClass::Undecided);
        assert(scan_safe(chunk, i) =~= sieve(rest, m, ByteClass::Kept));
        assert(scan_garbage(chunk, i) =~= sieve(rest, m, ByteClass::Flagged));
        assert(scan_tail(chunk, i) =~= sieve(rest, m, ByteClass::Undecided));
    } else if truncated_scalar(rest) {
        lemma_sieve_uniform(rest, ByteClass::Undecided, ByteClass::Kept);
        lemma_sieve_uniform(rest, ByteClass::Undecided, ByteClass::Flagged);
        lemma_sieve_uniform(rest, ByteClass::Undecided, ByteClass::Undecided);
        assert(m =~= Seq::new(rest.len(), |t: int| ByteClass::Undecided));
    } else {
        lemma_no_reordering_from(chunk, i + 1);
        let one = seq![chunk[i]];
        let mo = seq![ByteClass::Flagged];
        assert(rest =~= one + rest_of(chunk, i + 1));
        lemma_sieve_concat(one, mo, rest_of(chunk, i + 1), scan_marks(chunk, i + 1), ByteClass::Kept);
        lemma_sieve_concat(
            one,
            mo,
            rest_of(chunk, i + 1),
            scan_marks(chunk, i + 1),
            ByteClass::Flagged,
        );
        lemma_sieve_concat(
            one,
            mo,
            rest_of(chunk, i + 1),
            scan_marks(chunk, i + 1),
            ByteClass::Undecided,
        );
        lemma_sieve_uniform(one, ByteClass::Flagged, ByteClass::Kept);
        lemma_sieve_uniform(one, ByteClass::Flagged, ByteClass::Flagged);
        lemma_sieve_uniform(one, ByteClass::Flagged, ByteClass::Undecided);
        assert(mo =~= Seq::new(one.len(), |t: int| ByteClass::Flagged));
        assert(scan_safe(chunk, i) =~= sieve(rest, m, ByteClass::Kept));
        assert(scan_garbage(chunk, i) =~= sieve(rest, m, ByteClass::Flagged));
        assert(scan_tail(chunk, i) =~= sieve(rest, m, ByteClass::Undecided));
    }
}

/// The outcome of classifying one position of a buffer.
pub(crate) enum StepKind {
    /// A well-formed scalar encoding of the given byte length starts here.
    Scalar(usize),
    /// The buffer ends in a truncated multi-byte encoding starting here.
    Cut,
    /// The byte here is garbage.
    Bad,
}

/// True when `b1` is an acceptable second byte of a three-byte encoding
/// led by `b0`.
fn chk3(b0: u8, b1: u8) -> (r: bool)
    ensures
        r == second_byte_ok_3(b0, b1),
{
    if b0 == 0xe0 {
        0xa0 <= b1 && b1 <= 0xbf
    } else if b0 == 0xed {
        0x80 <= b1 && b1 <= 0x9f
    } else {
        0x80 <= b1 && b1 <= 0xbf
    }
}

/// True when `b1` is an acceptable second byte of a four-byte encoding led
/// by `b0`.
fn chk4(b0: u8, b1: u8) -> (r: bool)
    ensures
        r == second_byte_ok_4(b0, b1),
{
    if b0 == 0xf0 {
        0x90 <= b1 && b1 <= 0xbf
    } else if b0 == 0xf4 {
        0x80 <= b1 && b1 <= 0x8f
    } else {
        0x80 <= b1 && b1 <= 0xbf
    }
}

/// True when `b` has the bit pattern of a UTF-8 continuation byte.
fn is_cont(b: u8) -> (r: bool)
    ensures
        r == is_continuation_byte(b),
{
    0x80 <= b && b <= 0xbf
}

/// The head of a well-formed scalar encoding is on its own a valid UTF-8
/// byte sequence.
pub proof fn lemma_scalar_block_valid(s: Seq<u8>)
    requires
        valid_first_scalar(s),
    ensures
        valid_utf8(s.subrange(0, length_of_first_scalar(s))),
{
    lemma_scalar_byte_shape(s);
    let l = length_of_first_scalar(s);
    let t = s.subrange(0, l);
    lemma_scalar_byte_shape(t);
    assert(valid_first_scalar(t));
    assert(vstd::utf8::pop_first_scalar(t) =~= Seq::<u8>::empty());
    reveal_with_fuel(valid_utf8, 2);
}

/// Decomposes a scan at `i` around the first fault position `f`: the bytes
/// between `i` and `f` are whole valid characters and go to the safe
/// stream, and everything else the scan produces comes from `f` onward.
pub proof fn lemma_scan_to_fault(chunk: Seq<u8>, i: int)
    requires
        0 <= i <= chunk.len(),
    ensures
        i <= fault_pos(chunk, i) <= chunk.len(),
        valid_utf8(chunk.subrange(i, fault_pos(chunk, i))),
        scan_safe(chunk, i) == chunk.subrange(i, fault_pos(chunk, i)) + scan_safe(
            chunk,
            fault_pos(chunk, i),
        ),
        scan_garbage(chunk, i) == scan_garbage(chunk, fault_pos(chunk, i)),
        scan_spans(chunk, i) == scan_spans(chunk, fault_pos(chunk, i)),
        scan_tail(chunk, i) == scan_tail(chunk, fault_pos(chunk, i)),
    decreases chunk.len() - i,
{
    let f = fault_pos(chunk, i);
    if i == chunk.len() {
        assert(chunk.subrange(i, i) =~= Seq::<u8>::empty());
        assert(chunk.subrange(i, i) + scan_safe(chunk, i) =~= scan_safe(chunk, i));
    } else if valid_first_scalar(rest_of(chunk, i)) {
        let l = length_of_first_scalar(rest_of(chunk, i));
        lemma_first_scalar_len(rest_of(chunk, i));
        lemma_scan_to_fault(chunk, i + l);
        lemma_scalar_block_valid(rest_of(chunk, i));
        assert(rest_of(chunk, i).subrange(0, l) =~= chunk.subrange(i, i + l));
        vstd::utf8::valid_utf8_concat(chunk.subrange(i, i + l), chunk.subrange(i + l, f));
        assert(chunk.subrange(i, i + l) + chunk.subrange(i + l, f) =~= chunk.subrange(i, f));
        assert(chunk.subrange(i, i + l) + (chunk.subrange(i + l, f) + scan_safe(chunk, f))
            =~= chunk.subrange(i, f) + scan_safe(chunk, f));
    } else {
        assert(chunk.subrange(i, i) =~= Seq::<u8>::empty());
        assert(chunk.subrange(i, i) + scan_safe(chunk, i) =~= scan_safe(chunk, i));
    }
}

/// Decomposes a scan at a garbage position `j` around the end `e` of the
/// maximal garbage run: the bytes of `[j, e)` go to the garbage stream as
/// one recorded span, and the rest of the scan continues at `e`.
pub proof fn lemma_scan_bad_run(chunk: Seq<u8>, j: int)
    requires
        bad_at(chunk, j),
    ensures
        j < garbage_run_end(chunk, j) <= chunk.len(),
        scan_safe(chunk, j) == scan_safe(chunk, garbage_run_end(chunk, j)),
        scan_garbage(chunk, j) == chunk.subrange(j, garbage_run_end(chunk, j)) + scan_garbage(
            chunk,
            garbage_run_end(chunk, j),
        ),
        scan_spans(chunk, j) == seq![(j as usize, garbage_run_end(chunk, j) as usize)]
            + scan_spans(chunk, garbage_run_end(chunk, j)),
        scan_tail(chunk, j) == scan_tail(chunk, garbage_run_end(chunk, j)),
    decreases chunk.len() - j,
{
    let e = garbage_run_end(chunk, j);
    lemma_run_end_bounds(chunk, j + 1);
    if bad_at(chunk, j + 1) {
        lemma_scan_bad_run(chunk, j + 1);
        assert(seq![chunk[j]] + (chunk.subrange(j + 1, e) + scan_garbage(chunk, e))
            =~= chunk.subrange(j, e) + scan_garbage(chunk, e));
    } else {
        assert(e == j + 1);
        assert(seq![chunk[j]] + scan_garbage(chunk, j + 1) =~= chunk.subrange(j, e) + scan_garbage(
            chunk,
            e,
        ));
    }
}

/// The rest of the chunk is valid UTF-8 exactly when the scan reaches the
/// end of the chunk without a fault, in which case everything goes to the
/// safe stream.
pub proof fn lemma_valid_iff_no_fault(chunk: Seq<u8>, i: int)
    requires
        0 <= i <= chunk.len(),
    ensures
        valid_utf8(rest_of(chunk, i)) <==> fault_pos(chunk, i) == chunk.len(),
        valid_utf8(rest_of(chunk, i)) ==> scan_safe(chunk, i) == rest_of(chunk, i) && scan_garbage(
            chunk,
            i,
        ) == Seq::<u8>::empty() && scan_spans(chunk, i) == Seq::<(usize, usize)>::empty()
            && scan_tail(chunk, i) == Seq::<u8>::empty(),
    decreases chunk.len() - i,
{
    if i == chunk.len() {
        assert(rest_of(chunk, i) =~= Seq::<u8>::empty());
    } else if valid_first_scalar(rest_of(chunk, i)) {
        let l = length_of_first_scalar(rest_of(chunk, i));
        lemma_first_scalar_len(rest_of(chunk, i));
        lemma_valid_iff_no_fault(chunk, i + l);
        assert(vstd::utf8::pop_first_scalar(rest_of(chunk, i)) =~= rest_of(chunk, i + l));
        if valid_utf8(rest_of(chunk, i)) {
            assert(chunk.subrange(i, i + l) + rest_of(chunk, i + l) =~= rest_of(chunk, i));
        }
    } else {
        assert(rest_of(chunk, i).len() > 0);
    }
}

/// The outcome of searching for the first fault in a buffer.
pub(crate) enum ScanHalt {
    /// The rest of the buffer decodes entirely as whole characters.
    Done,
    /// The first fault sits at position `at`; `cut` tells a truncated
    /// trailing encoding apart from a garbage byte.
    Fault { at: usize, cut: bool },
}

/// Walks whole valid characters from `start` and reports either the end of
/// the buffer or the first position that faults.
pub(crate) fn find_fault(v: &Vec<u8>, start: usize) -> (r: ScanHalt)
    requires
        start <= v@.len(),
    ensures
        match r {
            ScanHalt::Done => fault_pos(v@, start as int) == v@.len() && valid_utf8(
                rest_of(v@, start as int),
            ),
            ScanHalt::Fault { at, cut } => at as int == fault_pos(v@, start as int) && start <= at
                < v@.len() && valid_utf8(v@.subrange(start as int, at as int))
                && !valid_first_scalar(rest_of(v@, at as int)) && (cut <==> truncated_scalar(
                rest_of(v@, at as int),
            )),
        },
{
    let mut j = start;
    loop
        invariant
            start <= j <= v@.len(),
            fault_pos(v@, start as int) == fault_pos(v@, j as int),
            valid_utf8(v@.subrange(start as int, j as int)),
        decreases v@.len() - j,
    {
        if j == v.len() {
            proof {
                assert(rest_of(v@, start as int) =~= v@.subrange(start as int, j as int));
            }
            return ScanHalt::Done;
        }
        match classify_step(v, j) {
            StepKind::Scalar(l) => {
                proof {
                    lemma_scalar_block_valid(rest_of(v@, j as int));
                    assert(rest_of(v@, j as int).subrange(
                        0,
                        length_of_first_scalar(rest_of(v@, j as int)),
                    ) =~= v@.subrange(j as int, j + l as int));
                    vstd::utf8::valid_utf8_concat(
                        v@.subrange(start as int, j as int),
                        v@.subrange(j as int, j + l as int),
                    );
                    assert(v@.subrange(start as int, j as int) + v@.subrange(
                        j as int,
                        j + l as int,
                    ) =~= v@.subrange(start as int, j + l as int));
                }
                j = j + l;
            },
            StepKind::Cut => {
                return ScanHalt::Fault { at: j, cut: true };
            },
            StepKind::Bad => {
                return ScanHalt::Fault { at: j, cut: false };
            },
        }
    }
}

/// Walks the maximal garbage run that starts at `start` and returns its
/// end position.
pub(crate) fn run_end(v: &Vec<u8>, start: usize) -> (e: usize)
    requires
        bad_at(v@, start as int),
    ensures
        e as int == garbage_run_end(v@, start as int),
        start < e <= v@.len(),
{
    let n = v.len();
    assert(start < n);
    let mut j = start + 1;
    loop
        invariant
            start < j <= v@.len(),
            garbage_run_end(v@, start as int) == garbage_run_end(v@, j as int),
        decreases v@.len() - j,
    {
        if j == v.len() {
            return j;
        }
        match classify_step(v, j) {
            StepKind::Bad => {
                j = j + 1;
            },
            _ => {
                return j;
            },
        }
    }
}

/// Appends the bytes of `src[a..b]` to `dst`, in order.
pub(crate) fn push_range(dst: &mut Vec<u8>, src: &Vec<u8>, a: usize, b: usize)
    requires
        a <= b <= src@.len(),
    ensures
        final(dst)@ == old(dst)@ + src@.subrange(a as int, b as int),
{
    let mut k = a;
    proof {
        assert(dst@ =~= old(dst)@ + src@.subrange(a as int, a as int));
    }
    while k < b
        invariant
            a <= k <= b <= src@.len(),
            dst@ == old(dst)@ + src@.subrange(a as int, k as int),
        decreases b - k,
    {
        dst.push(src[k]);
        proof {
            assert(dst@ =~= old(dst)@ + src@.subrange(a as int, (k + 1) as int));
        }
        k = k + 1;
    }
}

/// Relies on `String::from_utf8`: on a byte vector that is valid UTF-8 it
/// returns `Ok` with the string holding exactly those bytes.
#[verifier::external_body]
pub(crate) fn string_from_utf8(v: Vec<u8>) -> (r: String)
    requires
        valid_utf8(v@),
    ensures
        vstd::utf8::encode_utf8(r@) == v@,
{
    String::from_utf8(v).expect("valid UTF-8 bytes")
}

/// Returns a copy of the bytes of `src[a..b]`.
pub(crate) fn copy_range(src: &Vec<u8>, a: usize, b: usize) -> (r: Vec<u8>)
    requires
        a <= b <= src@.len(),
    ensures
        r@ == src@.subrange(a as int, b as int),
{
    let mut out: Vec<u8> = Vec::new();
    push_range(&mut out, src, a, b);
    proof {
        assert(out@ =~= src@.subrange(a as int, b as int));
    }
    out
}

/// Classifies position `i` of `v`: the start of a well-formed scalar
/// encoding, the start of a truncated one cut off by the end of the
/// buffer, or a garbage byte.
pub(crate) fn classify_step(v: &Vec<u8>, i: usize) -> (r: StepKind)
    requires
        i < v@.len(),
    ensures
        match r {
            StepKind::Scalar(l) => valid_first_scalar(rest_of(v@, i as int)) && l
                == length_of_first_scalar(rest_of(v@, i as int)) && 1 <= l <= v@.len() - i,
            StepKind::Cut => !valid_first_scalar(rest_of(v@, i as int)) && truncated_scalar(
                rest_of(v@, i as int),
            ),
            StepKind::Bad => bad_at(v@, i as int),
        },
{
    proof {
        lemma_scalar_byte_shape(rest_of(v@, i as int));
    }
    let n = v.len();
    let rem = n - i;
    let b0 = v[i];
    if b0 < 0x80 {
        StepKind::Scalar(1)
    } else if b0 < 0xc2 {
        StepKind::Bad
    } else if b0 <= 0xdf {
        if rem < 2 {
            StepKind::Cut
        } else if is_cont(v[i + 1]) {
            StepKind::Scalar(2)
        } else {
            StepKind::Bad
        }
    } else if b0 <= 0xef {
        if rem < 2 {
            StepKind::Cut
        } else if !chk3(b0, v[i + 1]) {
            StepKind::Bad
        } else if rem < 3 {
            StepKind::Cut
        } else if is_cont(v[i + 2]) {
            StepKind::Scalar(3)
        } else {
            StepKind::Bad
        }
    } else if b0 <= 0xf4 {
        if rem < 2 {
            StepKind::Cut
        } else if !chk4(b0, v[i + 1]) {
            StepKind::Bad
        } else if rem < 3 {
            StepKind::Cut
        } else if !is_cont(v[i + 2]) {
            StepKind::Bad
        } else if rem < 4 {
            StepKind::Cut
        } else if is_cont(v[i + 3]) {
            StepKind::Scalar(4)
        } else {
            StepKind::Bad
        }
    } else {
        StepKind::Bad
    }
}

} // verus!
