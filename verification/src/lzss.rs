//! The sliding-window decompressor for LZSS-compressed member files.
//!
//! A compressed stream is a 4-byte little-endian size hint (used only to
//! pre-size the output) followed by control groups.  Each group starts
//! with one control byte whose bits, least significant first, pick the
//! next token: a literal byte copied to the output, or a two-byte
//! back-reference naming an offset and a length inside a 4096-byte
//! circular history of what was decoded so far.

use vstd::arithmetic::div_mod::{
    lemma_add_mod_noop_right, lemma_fundamental_div_mod, lemma_mod_division_less_than_divisor,
    lemma_mod_multiples_vanish, lemma_small_mod, lemma_sub_mod_noop, lemma_sub_mod_noop_right,
};
use vstd::prelude::*;
use vstd::slice::slice_index_get;

use crate::parse::ParseError;

verus! {

/// Capacity of the circular history buffer.
pub const HIST_LEN: usize = 4096;

/// Conventional initial write cursor into the history buffer.
pub const HIST_START: usize = 0xFEE;

/// The history buffer a decompression starts from: all zero.
pub open spec fn hist_init() -> Seq<u8> {
    Seq::new(HIST_LEN as nat, |i: int| 0u8)
}

/// Whether bit `i` (counting from the least significant) of a control
/// byte selects a literal token.
pub open spec fn ctrl_bit(ctrl: u8, i: int) -> bool {
    (ctrl >> (i as u8)) & 1 == 1
}

/// The 12-bit history offset encoded by a back-reference pair: the first
/// byte gives the low eight bits, the high nibble of the second byte the
/// top four.
pub open spec fn ref_offset(lo: u8, hi: u8) -> u16 {
    (lo as u16) | (((hi as u16) & 0xF0) << 4)
}

/// The byte count encoded by a back-reference pair: the low nibble of the
/// second byte plus three.
pub open spec fn ref_len(hi: u8) -> int {
    (hi & 0x0F) + 3
}

/// Copies `n` bytes out of the circular history starting at `off`, one
/// byte at a time: each byte read is also written back at the cursor
/// before the next read, so a span that overlaps the cursor re-reads what
/// the same token just produced.  Returns the new history, the new cursor
/// and the bytes copied.
pub open spec fn spec_copy(hist: Seq<u8>, cur: int, off: int, n: nat) -> (Seq<u8>, int, Seq<u8>)
    decreases n,
{
    if n == 0 {
        (hist, cur, Seq::<u8>::empty())
    } else {
        let b = hist[off % (HIST_LEN as int)];
        let h2 = hist.update(cur % (HIST_LEN as int), b);
        let rest = spec_copy(
            h2,
            (cur + 1) % (HIST_LEN as int),
            (off + 1) % (HIST_LEN as int),
            (n - 1) as nat,
        );
        (rest.0, rest.1, seq![b] + rest.2)
    }
}

/// Decodes the remaining tokens of the current control group: `ctrl` is
/// the group's control byte and `i` the next bit to consume.  Yields the
/// bytes the rest of the stream decodes to, or nothing when the stream is
/// cut in the middle of a token.
pub open spec fn spec_tokens(
    data: Seq<u8>,
    ptr: int,
    hist: Seq<u8>,
    cur: int,
    ctrl: u8,
    i: int,
) -> Option<Seq<u8>>
    decreases data.len() - ptr, if i >= 8 { 1int } else { 9 - i },
{
    if i >= 8 {
        spec_groups(data, ptr, hist, cur)
    } else if ptr >= data.len() {
        // the stream may end cleanly at any token boundary
        Some(Seq::<u8>::empty())
    } else if ctrl_bit(ctrl, i) {
        let b = data[ptr];
        match spec_tokens(
            data,
            ptr + 1,
            hist.update(cur % (HIST_LEN as int), b),
            (cur + 1) % (HIST_LEN as int),
            ctrl,
            i + 1,
        ) {
            Some(rest) => Some(seq![b] + rest),
            None => None,
        }
    } else if ptr + 2 > data.len() {
        // a reference token needs two more bytes
        None
    } else {
        let off = ref_offset(data[ptr], data[ptr + 1]) as int;
        let n = ref_len(data[ptr + 1]) as nat;
        let c = spec_copy(hist, cur, off, n);
        match spec_tokens(data, ptr + 2, c.0, c.1, ctrl, i + 1) {
            Some(rest) => Some(c.2 + rest),
            None => None,
        }
    }
}

/// Decodes the control groups of `data` from `ptr` on, given the current
/// history and cursor.
pub open spec fn spec_groups(data: Seq<u8>, ptr: int, hist: Seq<u8>, cur: int) -> Option<Seq<u8>>
    decreases data.len() - ptr, 0int,
{
    if ptr >= data.len() {
        Some(Seq::<u8>::empty())
    } else {
        spec_tokens(data, ptr + 1, hist, cur, data[ptr], 0)
    }
}

/// What a whole compressed stream decodes to: nothing when it is shorter
/// than its 4-byte size hint or is cut mid-token, otherwise the bytes its
/// tokens produce.  The hint's value itself never affects the result.
pub open spec fn spec_decompress(data: Seq<u8>) -> Option<Seq<u8>> {
    if data.len() < 4 {
        None
    } else {
        spec_groups(data, 4, hist_init(), HIST_START as int)
    }
}

/// `prefix` followed by whatever `rest` decodes to, when it decodes.
pub open spec fn opt_cat(prefix: Seq<u8>, rest: Option<Seq<u8>>) -> Option<Seq<u8>> {
    match rest {
        Some(s) => Some(prefix + s),
        None => None,
    }
}

/// Decompresses an LZSS stream: the bytes after the 4-byte size hint are
/// consumed as control groups until the input ends.  Returns exactly the
/// byte sequence [`spec_decompress`] assigns to the input, and fails with
/// [`ParseError::EndOfData`] exactly when the input ends inside a token
/// or inside the size hint.
#[verifier::rlimit(60)]
pub fn decompress_lzss(data: &[u8]) -> (r: Result<Vec<u8>, ParseError>)
    ensures
        match r {
            Ok(out) => spec_decompress(data@) == Some(out@),
            Err(e) => spec_decompress(data@) is None && e == ParseError::EndOfData,
        },
{
    let n = data.len();
    if n < 4 {
        return Err(ParseError::EndOfData);
    }
    // The declared size is an allocation hint only; it is not validated
    // against the actual output length, and it is capped so that an
    // adversarial hint cannot force a huge allocation up front.
    let size_hint = crate::parse::read_le32(data, 0);
    let mut out: Vec<u8> = Vec::with_capacity(if size_hint <= 0x0010_0000 {
        size_hint as usize
    } else {
        0x0010_0000
    });
    let mut hist: Vec<u8> = vec![0u8; HIST_LEN];
    let mut cur: usize = HIST_START;
    let mut ptr: usize = 4;
    proof {
        assert(hist@ =~= hist_init());
    }
    while ptr < n
        invariant
            4 <= ptr <= n == data@.len(),
            hist@.len() == HIST_LEN,
            cur < HIST_LEN,
            spec_decompress(data@) == opt_cat(
                out@,
                spec_groups(data@, ptr as int, hist@, cur as int),
            ),
        decreases n - ptr,
    {
        let ghost group_start = ptr as int;
        let ctrl = *slice_index_get(data, ptr);
        ptr = ptr + 1;
        let mut i: u8 = 0;
        while i < 8
            invariant
                0 <= i <= 8,
                group_start < ptr as int,
                4 <= ptr <= n == data@.len(),
                hist@.len() == HIST_LEN,
                cur < HIST_LEN,
                spec_decompress(data@) == opt_cat(
                    out@,
                    spec_tokens(data@, ptr as int, hist@, cur as int, ctrl, i as int),
                ),
            decreases 8 - i,
        {
            if ptr >= n {
                // the input ended at a token boundary: a clean stop
                return Ok(out);
            }
            if (ctrl >> i) & 1 == 1 {
                // literal token: one byte goes to the output and into the
                // history
                let b = *slice_index_get(data, ptr);
                let ghost pre_out = out@;
                let ghost pre_hist = hist@;
                let ghost pre_cur = cur as int;
                ptr = ptr + 1;
                out.push(b);
                hist[cur] = b;
                cur = (cur + 1) % HIST_LEN;
                proof {
                    let rest = spec_tokens(
                        data@,
                        ptr as int,
                        hist@,
                        cur as int,
                        ctrl,
                        i as int + 1,
                    );
                    if rest is Some {
                        assert(pre_out + (seq![b] + rest.unwrap()) =~= out@ + rest.unwrap());
                    }
                }
            } else {
                // back-reference token: two bytes name a span of the
                // history to replay
                if ptr + 1 >= n {
                    return Err(ParseError::EndOfData);
                }
                let lo = *slice_index_get(data, ptr);
                let hi = *slice_index_get(data, ptr + 1);
                ptr = ptr + 2;
                let off_start = (lo as u16) | (((hi as u16) & 0xF0) << 4);
                let len = ((hi & 0x0F) as usize) + 3;
                let mut o: usize = (off_start as usize) % HIST_LEN;
                let ghost h0 = hist@;
                let ghost c0 = cur as int;
                let ghost o0 = ref_offset(lo, hi) as int;
                let ghost pre_out = out@;
                proof {
                    assert(o as int == o0 % (HIST_LEN as int));
                }
                let mut k: usize = 0;
                while k < len
                    invariant
                        0 <= k <= len,
                        hist@.len() == HIST_LEN,
                        cur < HIST_LEN,
                        o < HIST_LEN,
                        out@.len() == pre_out.len() + k,
                        out@.subrange(0, pre_out.len() as int) == pre_out,
                        spec_copy(h0, c0, o0, len as nat) == {
                            let c = spec_copy(hist@, cur as int, o as int, (len - k) as nat);
                            (c.0, c.1, out@.subrange(pre_out.len() as int, out@.len() as int)
                                + c.2)
                        },
                    decreases len - k,
                {
                    let ghost mid_out = out@;
                    let b = hist[o];
                    out.push(b);
                    hist[cur] = b;
                    cur = (cur + 1) % HIST_LEN;
                    o = (o + 1) % HIST_LEN;
                    k = k + 1;
                    proof {
                        let c = spec_copy(hist@, cur as int, o as int, (len - k) as nat);
                        assert(mid_out.subrange(pre_out.len() as int, mid_out.len() as int)
                            + (seq![b] + c.2) =~= out@.subrange(
                            pre_out.len() as int,
                            out@.len() as int,
                        ) + c.2);
                    }
                }
                proof {
                    let c = spec_copy(h0, c0, o0, len as nat);
                    assert(c.2 =~= out@.subrange(pre_out.len() as int, out@.len() as int));
                    let rest = spec_tokens(
                        data@,
                        ptr as int,
                        hist@,
                        cur as int,
                        ctrl,
                        i as int + 1,
                    );
                    if rest is Some {
                        assert(pre_out + (c.2 + rest.unwrap()) =~= out@ + rest.unwrap());
                    }
                }
            }
            i = i + 1;
        }
    }
    Ok(out)
}

/// A copy of `n` bytes out of the history emits exactly `n` bytes.
pub proof fn lemma_copy_len(hist: Seq<u8>, cur: int, off: int, n: nat)
    ensures
        spec_copy(hist, cur, off, n).2.len() == n,
    decreases n,
{
    if n > 0 {
        let m = HIST_LEN as int;
        let b = hist[off % m];
        lemma_copy_len(hist.update(cur % m, b), (cur + 1) % m, (off + 1) % m, (n - 1) as nat);
    }
}

/// A back-reference token always emits `raw_length + 3` bytes: exactly 3
/// when the raw-length nibble of its second byte is 0, exactly 18 when it
/// is 0xF.
pub proof fn lemma_backref_token_length(hist: Seq<u8>, cur: int, lo: u8, hi: u8)
    ensures
        3 <= ref_len(hi) <= 18,
        spec_copy(hist, cur, ref_offset(lo, hi) as int, ref_len(hi) as nat).2.len() == ref_len(hi),
        hi & 0x0F == 0x0 ==> ref_len(hi) == 3,
        hi & 0x0F == 0xF ==> ref_len(hi) == 18,
{
    assert(hi & 0x0F <= 0xF) by (bit_vector);
    lemma_copy_len(hist, cur, ref_offset(lo, hi) as int, ref_len(hi) as nat);
}

/// A back-reference replays bytes decoded earlier in the same stream.
/// Let `d` be the circular distance from the read position `off` to the
/// write cursor `cur`.  Byte `k` of the copy is the history byte `k`
/// positions past `off` while `k < d`, and from `k == d` on it repeats
/// byte `k - d` of the copy itself: a span that overlaps the cursor
/// reproduces, byte for byte, what the same token just wrote.  All
/// positions wrap modulo the buffer capacity, so the law covers spans
/// that cross the wraparound boundary.
#[verifier::rlimit(100)]
pub proof fn lemma_backref_replays_history(hist: Seq<u8>, cur: int, off: int, n: nat, k: int)
    requires
        hist.len() == HIST_LEN,
        (cur - off) % (HIST_LEN as int) != 0,
        0 <= k < n,
    ensures
        ({
            let m = HIST_LEN as int;
            let d = (cur - off) % m;
            let out = spec_copy(hist, cur, off, n).2;
            out[k] == if k < d {
                hist[(off + k) % m]
            } else {
                out[k - d]
            }
        }),
    decreases n,
{
    let m = HIST_LEN as int;
    let d = (cur - off) % m;
    lemma_mod_division_less_than_divisor(cur - off, m);
    let b = hist[off % m];
    let h2 = hist.update(cur % m, b);
    let c2 = (cur + 1) % m;
    let o2 = (off + 1) % m;
    let out = spec_copy(hist, cur, off, n).2;
    let out2 = spec_copy(h2, c2, o2, (n - 1) as nat).2;
    lemma_copy_len(hist, cur, off, n);
    lemma_copy_len(h2, c2, o2, (n - 1) as nat);
    assert(out == seq![b] + out2);
    lemma_sub_mod_noop(cur + 1, off + 1, m);
    assert((c2 - o2) % m == d);
    if k == 0 {
        assert(out[0] == hist[(off + 0) % m]);
    } else {
        let j = k - 1;
        lemma_backref_replays_history(h2, c2, o2, (n - 1) as nat, j);
        // index j of the inner copy reads at (off + k) mod m
        lemma_add_mod_noop_right(j, off + 1, m);
        assert((o2 + j) % m == (off + k) % m);
        if k < d {
            // the write at the cursor cannot alias this read: their
            // circular distance is d - k, which is strictly between 0 and m
            lemma_sub_mod_noop(cur, off + k, m);
            lemma_sub_mod_noop_right(cur - off, k, m);
            assert((cur % m - (off + k) % m) % m == (d - k) % m);
            lemma_small_mod((d - k) as nat, m as nat);
            assert((off + k) % m != cur % m);
            lemma_mod_division_less_than_divisor(off + k, m);
            assert(h2[(off + k) % m] == hist[(off + k) % m]);
            assert(out[k] == hist[(off + k) % m]);
        } else if k == d {
            // index j reads the byte the token wrote first
            lemma_add_mod_noop_right(off, cur - off, m);
            assert((off + d) % m == cur % m);
            lemma_mod_division_less_than_divisor(cur, m);
            assert(h2[(off + k) % m] == b);
            assert(out[k] == out[k - d]);
        } else {
            assert(out2[j] == out2[j - d]);
            assert(out[k] == out[k - d]);
        }
    }
}

/// How the history buffer relates to the bytes decoded so far: the
/// cursor sits `out.len()` write steps past its initial position, and
/// the last 4096 decoded bytes sit in the buffer at the positions those
/// steps wrote.  This holds at the start of a decode and is preserved by
/// every token (see [`lemma_records_init`], [`lemma_records_push`] and
/// [`lemma_copy_records`]).
pub open spec fn hist_records(hist: Seq<u8>, cur: int, out: Seq<u8>) -> bool {
    &&& hist.len() == HIST_LEN
    &&& cur == (HIST_START + out.len()) % (HIST_LEN as int)
    &&& forall|t: int|
        0 <= t < out.len() && out.len() - (HIST_LEN as int) <= t ==> hist[
            (HIST_START + t) % (HIST_LEN as int)
        ] == out[t]
}

/// At the start of a decode the history records the (empty) output.
pub proof fn lemma_records_init()
    ensures
        hist_records(hist_init(), HIST_START as int, Seq::<u8>::empty()),
{
    lemma_small_mod(HIST_START as nat, HIST_LEN as nat);
}

/// Writing one decoded byte at the cursor keeps the history in step with
/// the output: this is what a literal token does, and what each single
/// step of a back-reference copy does.
pub proof fn lemma_records_push(hist: Seq<u8>, cur: int, out: Seq<u8>, b: u8)
    requires
        hist_records(hist, cur, out),
    ensures
        hist_records(
            hist.update(cur % (HIST_LEN as int), b),
            (cur + 1) % (HIST_LEN as int),
            out.push(b),
        ),
{
    let m = HIST_LEN as int;
    let s = HIST_START as int;
    let len = out.len() as int;
    let h2 = hist.update(cur % m, b);
    let out2 = out.push(b);
    lemma_mod_division_less_than_divisor(s + len, m);
    lemma_small_mod((cur % m) as nat, m as nat);
    lemma_add_mod_noop_right(1, s + len, m);
    assert((cur + 1) % m == (s + len + 1) % m);
    assert forall|t: int| 0 <= t < out2.len() && out2.len() - m <= t implies h2[(s + t) % m]
        == out2[t] by {
        lemma_mod_division_less_than_divisor(s + t, m);
        if t == len {
            assert(h2[(s + t) % m] == b);
        } else {
            // this slot is not the one the write touched: the two
            // positions are fewer than a full lap apart
            if (s + t) % m == (s + len) % m {
                lemma_sub_mod_noop(s + len, s + t, m);
                assert((len - t) % m == 0);
                lemma_small_mod((len - t) as nat, m as nat);
            }
            assert(h2[(s + t) % m] == hist[(s + t) % m]);
        }
    }
}

/// A whole back-reference copy keeps the history in step with the
/// output: the bytes it emits are exactly the bytes it records.
pub proof fn lemma_copy_records(hist: Seq<u8>, cur: int, off: int, n: nat, out: Seq<u8>)
    requires
        hist_records(hist, cur, out),
    ensures
        hist_records(
            spec_copy(hist, cur, off, n).0,
            spec_copy(hist, cur, off, n).1,
            out + spec_copy(hist, cur, off, n).2,
        ),
    decreases n,
{
    let m = HIST_LEN as int;
    if n == 0 {
        assert(out + spec_copy(hist, cur, off, n).2 =~= out);
    } else {
        let b = hist[off % m];
        lemma_records_push(hist, cur, out, b);
        lemma_copy_records(
            hist.update(cur % m, b),
            (cur + 1) % m,
            (off + 1) % m,
            (n - 1) as nat,
            out.push(b),
        );
        let rest = spec_copy(hist.update(cur % m, b), (cur + 1) % m, (off + 1) % m, (n - 1) as nat);
        assert(out + spec_copy(hist, cur, off, n).2 =~= out.push(b) + rest.2);
    }
}

/// A back-reference that points at bytes decoded earlier in the same
/// stream reproduces them exactly: while `k` stays below the circular
/// distance `d` from the read position to the cursor, byte `k` of the
/// copy equals the output byte written `d - k` steps before — however
/// the span wraps around the buffer boundary.  (From `k == d` on,
/// [`lemma_backref_replays_history`] shows the copy repeats its own
/// first `d` bytes.)
pub proof fn lemma_backref_reads_earlier_output(
    hist: Seq<u8>,
    cur: int,
    off: int,
    n: nat,
    out: Seq<u8>,
    k: int,
)
    requires
        hist_records(hist, cur, out),
        (cur - off) % (HIST_LEN as int) != 0,
        0 <= k < n,
        k < (cur - off) % (HIST_LEN as int),
        (cur - off) % (HIST_LEN as int) - k <= out.len(),
    ensures
        spec_copy(hist, cur, off, n).2[k] == out[out.len() - ((cur - off) % (HIST_LEN as int) - k)],
{
    let m = HIST_LEN as int;
    let s = HIST_START as int;
    let len = out.len() as int;
    let d = (cur - off) % m;
    let t = len - (d - k);
    lemma_mod_division_less_than_divisor(cur - off, m);
    lemma_backref_replays_history(hist, cur, off, n, k);
    assert(spec_copy(hist, cur, off, n).2[k] == hist[(off + k) % m]);
    // off + k is d - k write steps behind the cursor, which sits
    // s + len steps past the start: both reduce to position s + t
    lemma_fundamental_div_mod(cur - off, m);
    lemma_mod_multiples_vanish(-((cur - off) / m), cur - (d - k), m);
    assert((off + k) % m == (cur - (d - k)) % m);
    lemma_small_mod((d - k) as nat, m as nat);
    lemma_sub_mod_noop(s + len, d - k, m);
    assert((cur - (d - k)) % m == (s + t) % m);
    assert(hist[(s + t) % m] == out[t]);
}

/// A control byte of 0xFF selects eight literal tokens; when exactly the
/// eight literal bytes remain after it, they are emitted unchanged.
#[verifier::rlimit(60)]
proof fn lemma_literal_tail(data: Seq<u8>, ptr: int, hist: Seq<u8>, cur: int, i: int)
    requires
        0 <= i <= 8,
        0 <= ptr,
        data.len() == ptr + (8 - i),
    ensures
        spec_tokens(data, ptr, hist, cur, 0xFF, i) == Some(
            data.subrange(ptr, data.len() as int),
        ),
    decreases 8 - i,
{
    let m = HIST_LEN as int;
    if i == 8 {
        assert(spec_tokens(data, ptr, hist, cur, 0xFF, i) == spec_groups(data, ptr, hist, cur));
        assert(spec_groups(data, ptr, hist, cur) == Some(Seq::<u8>::empty()));
        assert(data.subrange(ptr, data.len() as int) =~= Seq::<u8>::empty());
    } else {
        let iu = i as u8;
        assert(iu < 8 ==> (0xFFu8 >> iu) & 1 == 1) by (bit_vector);
        assert(ctrl_bit(0xFF, i));
        let b = data[ptr];
        lemma_literal_tail(data, ptr + 1, hist.update(cur % m, b), (cur + 1) % m, i + 1);
        assert(spec_tokens(data, ptr, hist, cur, 0xFF, i) == Some(
            seq![b] + data.subrange(ptr + 1, data.len() as int),
        ));
        assert(seq![b] + data.subrange(ptr + 1, data.len() as int) =~= data.subrange(
            ptr,
            data.len() as int,
        ));
    }
}

/// A stream whose single control byte is 0xFF, followed by exactly eight
/// literal bytes, decodes to those eight bytes unchanged — whatever the
/// four size-hint bytes before the control byte say.
pub proof fn lemma_all_literal_group(data: Seq<u8>)
    requires
        data.len() == 13,
        data[4] == 0xFF,
    ensures
        spec_decompress(data) == Some(data.subrange(5, 13)),
{
    lemma_literal_tail(data, 5, hist_init(), HIST_START as int, 0);
}

} // verus!
