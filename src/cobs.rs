//! Consistent overhead byte stuffing: the mathematical model of the frame
//! codec and the facts proved about it.
//!
//! A frame is the encoded body followed by one `0x00` delimiter. The body is
//! a sequence of blocks; each block opens with a pointer byte `c` (the
//! distance to the next pointer) followed by `c - 1` data bytes. Between two
//! blocks the decoder re-inserts a zero, unless the first block was a full
//! run of 254 non-zero bytes (pointer `0xFF`), which consumed no zero.
use vstd::prelude::*;

verus! {

/// Longest run of non-zero bytes that one block carries.
pub const MAX_RUN: usize = 254;

/// Pointer value that marks a full run, after which no zero is re-inserted.
pub const FULL_RUN_CODE: u8 = 0xFF;

/// Why a frame could not be decoded.
#[derive(Debug, Clone, Copy, PartialEq, Eq, Structural)]
pub enum DecodeError {
    /// A pointer runs past the end of the frame, or the frame lacks its
    /// delimiter: the frame was cut short or corrupted.
    Truncated,
    /// The decoded bytes do not fit in a packet.
    PayloadOverflow,
}

/// Counts the non-zero bytes of `s` from index `k` on, stopping at the first
/// zero, at the end of `s`, or at `MAX_RUN`; the result is an index.
pub open spec fn run_end(s: Seq<u8>, k: nat) -> nat
    decreases MAX_RUN - k,
{
    if k >= MAX_RUN || k >= s.len() || s[k as int] == 0 {
        k
    } else {
        run_end(s, k + 1)
    }
}

/// Length of the block that opens `s`: its leading non-zero bytes, at most
/// `MAX_RUN` of them.
pub open spec fn block_len(s: Seq<u8>) -> nat {
    run_end(s, 0)
}

/// The encoded body of `s` (without the delimiter).
pub open spec fn encode_body(s: Seq<u8>) -> Seq<u8>
    decreases s.len(),
{
    let n = block_len(s) as int;
    if n >= s.len() {
        seq![(n + 1) as u8] + s
    } else if n >= MAX_RUN {
        seq![FULL_RUN_CODE] + s.take(MAX_RUN as int) + encode_body(s.skip(MAX_RUN as int))
    } else {
        seq![(n + 1) as u8] + s.take(n as int) + encode_body(s.skip(n + 1))
    }
}

/// The frame that encodes `s`: its body and the delimiter.
pub open spec fn cobs_encode(s: Seq<u8>) -> Seq<u8> {
    encode_body(s).push(0)
}

/// The bytes that an encoded body stands for, or `None` where a pointer is
/// zero or runs past the end of the body.
pub open spec fn decode_body(b: Seq<u8>) -> Option<Seq<u8>>
    decreases b.len(),
{
    if b.len() == 0 {
        None
    } else {
        let c = b[0] as int;
        if c == 0 || c > b.len() {
            None
        } else if c == b.len() {
            Some(b.subrange(1, c))
        } else {
            match decode_body(b.skip(c)) {
                Some(rest) => Some(
                    b.subrange(1, c) + (if c < FULL_RUN_CODE as int {
                        seq![0u8]
                    } else {
                        Seq::empty()
                    }) + rest,
                ),
                None => None,
            }
        }
    }
}

/// The bytes that a frame stands for: `None` where the frame is empty, does
/// not end with the delimiter, or has a body that does not decode.
pub open spec fn decode_frame(f: Seq<u8>) -> Option<Seq<u8>> {
    if f.len() == 0 || f.last() != 0 {
        None
    } else {
        decode_body(f.drop_last())
    }
}

/// Decoding a frame undoes its encoding, for every byte sequence.
pub proof fn lemma_round_trip(s: Seq<u8>)
    ensures
        decode_frame(cobs_encode(s)) == Some(s),
{
    lemma_decode_encode_body(s);
    assert(cobs_encode(s).drop_last() =~= encode_body(s));
}

/// A run of `MAX_RUN` non-zero bytes forms one block under the pointer
/// `0xFF`, and no zero is counted for it: what follows the run is encoded on
/// its own, a zero right after the run included.
pub proof fn lemma_full_run(s: Seq<u8>)
    requires
        s.len() >= MAX_RUN,
        forall|k: int| 0 <= k < MAX_RUN ==> s[k] != 0,
    ensures
        s.len() == MAX_RUN ==> encode_body(s) == seq![FULL_RUN_CODE] + s,
        s.len() > MAX_RUN ==> encode_body(s) == seq![FULL_RUN_CODE] + s.take(MAX_RUN as int)
            + encode_body(s.skip(MAX_RUN as int)),
        decode_frame(cobs_encode(s)) == Some(s),
{
    lemma_block_len(s);
    lemma_round_trip(s);
}

/// Facts on the block that opens `s`.
pub proof fn lemma_block_len(s: Seq<u8>)
    ensures
        block_len(s) <= MAX_RUN,
        block_len(s) <= s.len(),
        forall|k: int| 0 <= k < block_len(s) ==> s[k] != 0,
        block_len(s) == MAX_RUN || block_len(s) == s.len() || s[block_len(s) as int] == 0,
{
    lemma_run_end(s, 0);
}

proof fn lemma_run_end(s: Seq<u8>, k: nat)
    requires
        k <= MAX_RUN,
        k <= s.len(),
        forall|j: int| 0 <= j < k ==> s[j] != 0,
    ensures
        k <= run_end(s, k) <= MAX_RUN,
        run_end(s, k) <= s.len(),
        forall|j: int| 0 <= j < run_end(s, k) ==> s[j] != 0,
        run_end(s, k) == MAX_RUN || run_end(s, k) == s.len() || s[run_end(s, k) as int] == 0,
    decreases MAX_RUN - k,
{
    if k >= MAX_RUN || k >= s.len() || s[k as int] == 0 {
    } else {
        lemma_run_end(s, k + 1);
    }
}

/// Decoding the body of an encoding gives back the bytes encoded.
pub proof fn lemma_decode_encode_body(s: Seq<u8>)
    ensures
        decode_body(encode_body(s)) == Some(s),
    decreases s.len(),
{
    lemma_block_len(s);
    let n = block_len(s) as int;
    let b = encode_body(s);
    if n >= s.len() {
        assert(b[0] as int == n + 1);
        assert(b.subrange(1, n + 1) =~= s);
    } else if n >= MAX_RUN {
        let t = s.skip(MAX_RUN as int);
        lemma_decode_encode_body(t);
        lemma_encode_body_len(t);
        assert(b.skip(255) =~= encode_body(t));
        assert(b.subrange(1, 255) =~= s.take(MAX_RUN as int));
        assert(s.take(MAX_RUN as int) + Seq::<u8>::empty() + t =~= s);
    } else {
        let t = s.skip(n + 1);
        lemma_decode_encode_body(t);
        lemma_encode_body_len(t);
        assert(b.skip(n + 1) =~= encode_body(t));
        assert(b.subrange(1, n + 1) =~= s.take(n as int));
        assert(s.take(n as int) + seq![0u8] + t =~= s);
    }
}

/// The length of an encoded body: one pointer more than the bytes encoded,
/// plus one for each full run after which input remains.
pub proof fn lemma_encode_body_len(s: Seq<u8>)
    ensures
        encode_body(s).len() >= s.len() + 1,
        s.len() == 0 ==> encode_body(s).len() == 1,
        s.len() > 0 ==> 254 * (encode_body(s).len() - s.len() - 1) + 1 <= s.len(),
    decreases s.len(),
{
    lemma_block_len(s);
    let n = block_len(s) as int;
    if n >= s.len() {
    } else if n >= MAX_RUN {
        lemma_encode_body_len(s.skip(MAX_RUN as int));
    } else {
        lemma_encode_body_len(s.skip(n + 1));
    }
}

/// An encoded body holds no zero byte.
pub proof fn lemma_encode_body_nonzero(s: Seq<u8>)
    ensures
        forall|k: int| 0 <= k < encode_body(s).len() ==> encode_body(s)[k] != 0,
    decreases s.len(),
{
    lemma_block_len(s);
    let n = block_len(s) as int;
    let b = encode_body(s);
    if n >= s.len() {
        assert forall|k: int| 0 <= k < b.len() implies b[k] != 0 by {
            if k > 0 {
                assert(b[k] == s[k - 1]);
            }
        }
    } else {
        let m = if n >= MAX_RUN { MAX_RUN as int } else { n + 1 };
        let t = s.skip(m);
        lemma_encode_body_nonzero(t);
        assert forall|k: int| 0 <= k < b.len() implies b[k] != 0 by {
            if 0 < k <= n {
                assert(b[k] == s[k - 1]);
            } else if k > n {
                assert(b[k] == encode_body(t)[k - n - 1]);
            }
        }
    }
}

} // verus!
