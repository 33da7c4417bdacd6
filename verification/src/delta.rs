//! Delta encoding between similar chunks: a same/diff run-length code
//! over aligned positions.  A delta opens with the reconstructed length
//! as a little-endian u32; then commands follow.  Command 0 copies a
//! 16-bit count of bytes from the base; command 1 carries an 8-bit
//! count of literal bytes.  Positions past either input read as zero.

use vstd::prelude::*;

verus! {

/// Delta compression data for storing similar chunks efficiently.
#[derive(Debug, Clone)]
pub struct ChunkDelta {
    pub base_hash: String,
    pub delta_data: Vec<u8>,
    pub original_size: usize,
}

/// A chunk held either whole or as a delta against a base.
#[derive(Debug, Clone)]
pub enum CompressedChunk {
    Full(Vec<u8>),
    Delta(ChunkDelta),
}

/// The smaller of two integers.
pub open spec fn imin(a: int, b: int) -> int {
    if a <= b { a } else { b }
}

/// The byte of `s` at `i`, reading zero past the end.
pub open spec fn padded_byte(s: Seq<u8>, i: int) -> u8 {
    if 0 <= i < s.len() { s[i] } else { 0 }
}

/// The little-endian 32-bit value opening a delta.
pub open spec fn le32(d: Seq<u8>) -> int {
    d[0] as int + 256 * (d[1] as int) + 65536 * (d[2] as int) + 16777216 * (d[3] as int)
}

/// The bytes one run appends: up to `count` bytes read from `src`
/// starting at `start` (zero past the end), stopping when `rem` bytes
/// have been produced.
pub open spec fn run_bytes(src: Seq<u8>, start: int, count: int, rem: int) -> Seq<u8> {
    Seq::new(imin(count, rem) as nat, |k: int| padded_byte(src, start + k))
}

/// The decoder's command loop: consume commands off the front of
/// `tail`, appending to `acc`, until the tail or the output budget is
/// exhausted.  A truncated command stops the loop.
pub open spec fn apply_tail(base: Seq<u8>, tail: Seq<u8>, base_pos: int, acc: Seq<u8>, orig: int)
    -> Seq<u8>
    decreases tail.len(),
{
    if tail.len() == 0 || acc.len() >= orig {
        acc
    } else {
        let cmd = tail[0];
        if cmd == 0 {
            if tail.len() < 3 {
                acc
            } else {
                let count = tail[1] as int + 256 * (tail[2] as int);
                apply_tail(base, tail.skip(3), base_pos + count,
                    acc + run_bytes(base, base_pos, count, orig - acc.len()), orig)
            }
        } else if cmd == 1 {
            if tail.len() < 2 {
                acc
            } else {
                let count = tail[1] as int;
                let consumed = imin(imin(count, orig - acc.len()), tail.len() - 2);
                apply_tail(base, tail.skip(2 + consumed), base_pos + count,
                    acc + run_bytes(tail, 2, count, orig - acc.len()), orig)
            }
        } else {
            apply_tail(base, tail.skip(1), base_pos, acc, orig)
        }
    }
}

/// A sequence padded with zeros, or truncated, to length `n`.
pub open spec fn sized_to(s: Seq<u8>, n: int) -> Seq<u8> {
    if n <= s.len() {
        s.take(n)
    } else {
        s + Seq::new((n - s.len()) as nat, |k: int| 0u8)
    }
}

/// What applying a delta to a base reconstructs.  A delta shorter than
/// its own length header is returned as it is.
pub open spec fn apply_delta_spec(base: Seq<u8>, delta: Seq<u8>) -> Seq<u8> {
    if delta.len() < 4 {
        delta
    } else {
        sized_to(apply_tail(base, delta.skip(4), 0, Seq::empty(), le32(delta)), le32(delta))
    }
}

proof fn lemma_apply_tail_len(base: Seq<u8>, tail: Seq<u8>, base_pos: int, acc: Seq<u8>, orig: int)
    ensures
        acc.len() <= orig ==> apply_tail(base, tail, base_pos, acc, orig).len() <= orig,
        apply_tail(base, tail, base_pos, acc, orig).len() >= acc.len(),
    decreases tail.len(),
{
    if tail.len() == 0 || acc.len() >= orig {
    } else {
        let cmd = tail[0];
        if cmd == 0 {
            if tail.len() >= 3 {
                let count = tail[1] as int + 256 * (tail[2] as int);
                lemma_apply_tail_len(base, tail.skip(3), base_pos + count,
                    acc + run_bytes(base, base_pos, count, orig - acc.len()), orig);
            }
        } else if cmd == 1 {
            if tail.len() >= 2 {
                let count = tail[1] as int;
                let consumed = imin(imin(count, orig - acc.len()), tail.len() - 2);
                lemma_apply_tail_len(base, tail.skip(2 + consumed), base_pos + count,
                    acc + run_bytes(tail, 2, count, orig - acc.len()), orig);
            }
        } else {
            lemma_apply_tail_len(base, tail.skip(1), base_pos, acc, orig);
        }
    }
}

/// One complete copy command at the front of the tail steps the decoder
/// exactly one run, whatever follows.
proof fn lemma_step_same(base: Seq<u8>, s: Seq<u8>, lo: u8, hi: u8, base_pos: int, acc: Seq<u8>,
    orig: int)
    ensures
        apply_tail(base, seq![0u8, lo, hi] + s, base_pos, acc, orig) == (if acc.len() >= orig {
            acc
        } else {
            apply_tail(base, s, base_pos + (lo as int + 256 * (hi as int)),
                acc + run_bytes(base, base_pos, lo as int + 256 * (hi as int), orig - acc.len()),
                orig)
        }),
{
    let tail = seq![0u8, lo, hi] + s;
    if acc.len() < orig {
        assert(tail.len() == 3 + s.len());
        assert(tail[0] == 0u8 && tail[1] == lo && tail[2] == hi);
        assert(tail.skip(3) =~= s);
    }
}

/// One complete literal command at the front of the tail steps the
/// decoder exactly one run, whatever follows.
proof fn lemma_step_diff(base: Seq<u8>, s: Seq<u8>, lits: Seq<u8>, base_pos: int, acc: Seq<u8>,
    orig: int)
    requires
        1 <= lits.len() <= 255,
    ensures
        apply_tail(base, seq![1u8, lits.len() as u8] + lits + s, base_pos, acc, orig) == (if
            acc.len() >= orig {
            acc
        } else {
            apply_tail(base, s, base_pos + lits.len(),
                acc + lits.take(imin(lits.len() as int, orig - acc.len())), orig)
        }),
{
    let tail = seq![1u8, lits.len() as u8] + lits + s;
    if acc.len() < orig {
        let count = lits.len() as int;
        let rem = orig - acc.len();
        assert(tail.len() == 2 + lits.len() + s.len());
        assert(tail[0] == 1u8 && tail[1] as int == count);
        let consumed = imin(imin(count, rem), tail.len() - 2);
        assert(run_bytes(tail, 2, count, rem) =~= lits.take(imin(count, rem))) by {
            assert forall|k: int| 0 <= k < imin(count, rem) implies padded_byte(tail, 2 + k)
                == lits[k] by {
                assert(tail[2 + k] == lits[k]);
            }
        }
        let acc2 = acc + lits.take(imin(count, rem));
        if rem <= count {
            // the output budget fills inside this run; both sides stop
            assert(acc2.len() == orig);
            assert(apply_tail(base, tail.skip(2 + consumed), base_pos + count, acc2, orig)
                == acc2);
            assert(apply_tail(base, s, base_pos + count, acc2, orig) == acc2);
        } else {
            assert(consumed == count);
            assert(tail.skip(2 + count) =~= s);
        }
    }
}

fn padded_byte_exec(s: &[u8], i: usize) -> (r: u8)
    ensures
        r == padded_byte(s@, i as int),
{
    if i < s.len() {
        s[i]
    } else {
        0
    }
}

/// Create a delta that reconstructs `new_data` when applied to
/// `base_data`: aligned positions are walked once, equal stretches
/// become copy commands and differing stretches become literal runs.
/// Empty inputs yield the new bytes unframed, as no useful delta
/// exists.
pub fn create_delta(base_data: &[u8], new_data: &[u8]) -> (r: Vec<u8>)
    requires
        new_data@.len() <= u32::MAX,
    ensures
        base_data@.len() == 0 || new_data@.len() == 0 ==> r@ == new_data@,
        base_data@.len() > 0 && new_data@.len() > 0 ==> apply_delta_spec(base_data@, r@)
            == new_data@,
{
    if base_data.len() == 0 || new_data.len() == 0 {
        return vstd::slice::slice_to_vec(new_data);
    }
    let orig_usize = new_data.len();
    let ghost orig = new_data@.len() as int;
    let n: u32 = orig_usize as u32;
    let b0 = (n % 256) as u8;
    let b1 = ((n / 256) % 256) as u8;
    let b2 = ((n / 65536) % 256) as u8;
    let b3 = (n / 16777216) as u8;
    proof {
        let ni = n as int;
        vstd::arithmetic::div_mod::lemma_fundamental_div_mod(ni, 256);
        vstd::arithmetic::div_mod::lemma_fundamental_div_mod(ni / 256, 256);
        vstd::arithmetic::div_mod::lemma_fundamental_div_mod(ni / 65536, 256);
        vstd::arithmetic::div_mod::lemma_div_denominator(ni, 256, 256);
        vstd::arithmetic::div_mod::lemma_div_denominator(ni, 65536, 256);
        assert(ni / 256 / 256 == ni / 65536);
        assert(ni / 65536 / 256 == ni / 16777216);
        vstd::arithmetic::div_mod::lemma_div_is_ordered(ni, u32::MAX as int, 16777216);
        assert(ni / 16777216 <= 255);
        assert(b0 as int + 256 * (b1 as int) + 65536 * (b2 as int) + 16777216 * (b3 as int)
            == ni);
    }
    let mut delta: Vec<u8> = Vec::new();
    delta.push(b0);
    delta.push(b1);
    delta.push(b2);
    delta.push(b3);
    proof {
        assert(le32(delta@) == n as int);
    }
    let max_len = if base_data.len() >= new_data.len() {
        base_data.len()
    } else {
        new_data.len()
    };
    let ghost header = delta@;
    let mut i: usize = 0;
    proof {
        assert(new_data@.take(imin(0, orig)) =~= Seq::<u8>::empty());
    }
    while i < max_len
        invariant
            base_data@.len() > 0,
            new_data@.len() > 0,
            orig == new_data@.len() as int,
            orig <= u32::MAX,
            max_len >= base_data@.len() && max_len >= orig,
            max_len == base_data@.len() || max_len == orig,
            0 <= i <= max_len,
            delta@.len() >= 4,
            delta@.take(4) == header,
            header.len() == 4,
            le32(delta@) == orig,
            forall|s: Seq<u8>|
                apply_tail(base_data@, #[trigger] (delta@.skip(4) + s), 0, Seq::empty(), orig)
                    == apply_tail(base_data@, s, i as int, new_data@.take(imin(i as int, orig)),
                    orig),
        decreases max_len - i,
    {
        let pb = padded_byte_exec(base_data, i);
        let pn = padded_byte_exec(new_data, i);
        let ghost old_delta = delta@;
        let ghost old_i = i as int;
        if pb == pn {
            // count consecutive matching bytes
            let mut count: u16 = 1;
            loop
                invariant
                    0 <= i < max_len,
                    1 <= count,
                    i + count as usize <= max_len,
                    forall|k: int| 0 <= k < count as int
                        ==> #[trigger] padded_byte(base_data@, i + k) == padded_byte(
                        new_data@, i + k),
                decreases max_len - i - count as usize,
            {
                if !((count as usize) < max_len - i && count < u16::MAX) {
                    break;
                }
                let b1 = padded_byte_exec(base_data, i + count as usize);
                let b2 = padded_byte_exec(new_data, i + count as usize);
                if b1 != b2 {
                    break;
                }
                count = count + 1;
            }
            let lo = (count % 256) as u8;
            let hi = (count / 256) as u8;
            delta.push(0);
            delta.push(lo);
            delta.push(hi);
            proof {
                vstd::arithmetic::div_mod::lemma_fundamental_div_mod(count as int, 256);
                vstd::arithmetic::div_mod::lemma_div_is_ordered(count as int, u16::MAX as int,
                    256);
                assert(lo as int + 256 * (hi as int) == count as int);
            }
            i = i + count as usize;
            proof {
                let c = count as int;
                let cmd = seq![0u8, lo, hi];
                assert(delta@ == old_delta + cmd);
                assert(delta@.take(4) =~= old_delta.take(4));
                assert(le32(delta@) == le32(old_delta));
                let racc = new_data@.take(imin(old_i, orig));
                assert forall|s: Seq<u8>|
                    apply_tail(base_data@, #[trigger] (delta@.skip(4) + s), 0, Seq::empty(), orig)
                        == apply_tail(base_data@, s, i as int, new_data@.take(imin(i as int, orig)),
                        orig) by {
                    assert(delta@.skip(4) + s =~= old_delta.skip(4) + (cmd + s));
                    lemma_step_same(base_data@, s, lo, hi, old_i, racc, orig);
                    if racc.len() < orig {
                        assert(racc.len() == old_i);
                        let appended = run_bytes(base_data@, old_i, c, orig - old_i);
                        assert(racc + appended =~= new_data@.take(imin(old_i + c, orig))) by {
                            assert forall|k: int| 0 <= k < imin(c, orig - old_i) implies
                                #[trigger] padded_byte(base_data@, old_i + k) == new_data@[old_i
                                + k] by {
                                assert(padded_byte(base_data@, old_i + k) == padded_byte(
                                    new_data@, old_i + k));
                            }
                        }
                    } else {
                        // the budget was already filled: only possible past the new data
                        assert(imin(old_i, orig) == orig);
                        assert(imin(i as int, orig) == orig);
                    }
                }
            }
        } else {
            // collect consecutive differing bytes as literals
            let start = i;
            let mut lits: Vec<u8> = Vec::new();
            lits.push(pn);
            i += 1;
            loop
                invariant
                    0 <= start < i <= max_len,
                    i - start == lits@.len(),
                    1 <= lits@.len() <= 255,
                    forall|k: int| 0 <= k < lits@.len()
                        ==> lits@[k] == padded_byte(new_data@, start + k),
                decreases max_len - i,
            {
                if !(i < max_len && i - start < 255) {
                    break;
                }
                let b1 = padded_byte_exec(base_data, i);
                let b2 = padded_byte_exec(new_data, i);
                if b1 == b2 {
                    break;
                }
                lits.push(b2);
                i += 1;
            }
            let dcount = (i - start) as u8;
            delta.push(1);
            delta.push(dcount);
            let mut m: usize = 0;
            let ghost mid_delta = delta@;
            while m < lits.len()
                invariant
                    0 <= m <= lits@.len(),
                    delta@ == mid_delta + lits@.take(m as int),
                decreases lits@.len() - m,
            {
                delta.push(lits[m]);
                proof {
                    assert(delta@ =~= mid_delta + lits@.take(m + 1));
                }
                m += 1;
            }
            proof {
                let c = lits@.len() as int;
                let cmd = seq![1u8, dcount] + lits@;
                assert(lits@.take(c) =~= lits@);
                assert(delta@ =~= old_delta + cmd);
                assert(delta@.take(4) =~= old_delta.take(4));
                assert(le32(delta@) == le32(old_delta));
                let racc = new_data@.take(imin(old_i, orig));
                assert forall|s: Seq<u8>|
                    apply_tail(base_data@, #[trigger] (delta@.skip(4) + s), 0, Seq::empty(), orig)
                        == apply_tail(base_data@, s, i as int, new_data@.take(imin(i as int, orig)),
                        orig) by {
                    assert(delta@.skip(4) + s =~= old_delta.skip(4) + (cmd + s));
                    assert(cmd + s =~= seq![1u8, lits@.len() as u8] + lits@ + s);
                    lemma_step_diff(base_data@, s, lits@, old_i, racc, orig);
                    if racc.len() < orig {
                        assert(racc.len() == old_i);
                        assert(racc + lits@.take(imin(c, orig - old_i)) =~= new_data@.take(
                            imin(old_i + c, orig))) by {
                            assert forall|k: int| 0 <= k < imin(c, orig - old_i) implies lits@[k]
                                == new_data@[old_i + k] by {
                                assert(lits@[k] == padded_byte(new_data@, old_i + k));
                            }
                        }
                    } else {
                        assert(imin(old_i, orig) == orig);
                        assert(imin(i as int, orig) == orig);
                    }
                }
            }
        }
    }
    proof {
        assert(delta@.skip(4) + Seq::<u8>::empty() =~= delta@.skip(4));
        assert(apply_tail(base_data@, Seq::<u8>::empty(), max_len as int, new_data@.take(
            imin(max_len as int, orig)), orig) == new_data@.take(orig));
        assert(new_data@.take(orig) =~= new_data@);
        assert(apply_tail(base_data@, delta@.skip(4), 0, Seq::empty(), orig) == new_data@);
        assert(sized_to(new_data@, orig) =~= new_data@);
    }
    delta
}

/// Apply a delta to reconstruct the bytes it encodes.
pub fn apply_delta(base_data: &[u8], delta: &[u8]) -> (r: Vec<u8>)
    ensures
        r@ == apply_delta_spec(base_data@, delta@),
{
    if delta.len() < 4 {
        return vstd::slice::slice_to_vec(delta);
    }
    let d0 = delta[0] as u32;
    let d1 = delta[1] as u32;
    let d2 = delta[2] as u32;
    let d3 = delta[3] as u32;
    let orig32: u32 = d0 + 256 * d1 + 65536 * d2 + 16777216 * d3;
    let ghost orig = le32(delta@);
    proof {
        assert(orig32 as int == orig);
    }
    let orig_usize = orig32 as usize;
    let mut result: Vec<u8> = Vec::new();
    let mut dp: usize = 4;
    let mut bp: u128 = 0;
    while dp < delta.len() && result.len() < orig_usize
        invariant
            delta@.len() >= 4,
            orig == le32(delta@),
            orig_usize as int == orig,
            4 <= dp <= delta@.len(),
            result@.len() <= orig,
            bp <= 65536 * (dp as u128),
            apply_tail(base_data@, delta@.skip(dp as int), bp as int, result@, orig) == apply_tail(
                base_data@, delta@.skip(4), 0, Seq::empty(), orig),
        decreases delta@.len() - dp,
    {
        let ghost tail = delta@.skip(dp as int);
        let ghost acc0 = result@;
        let ghost bp0 = bp as int;
        let cmd = delta[dp];
        proof {
            assert(tail[0] == cmd);
        }
        if cmd == 0 {
            if dp >= delta.len() - 2 {
                // truncated command: the decoder stops here
                proof {
                    assert(tail.len() < 3);
                    assert(apply_tail(base_data@, tail, bp0, acc0, orig) == acc0);
                    assert(delta@.skip(delta@.len() as int) =~= Seq::<u8>::empty());
                }
                dp = delta.len();
            } else {
            let count: u32 = delta[dp + 1] as u32 + 256 * (delta[dp + 2] as u32);
            proof {
                assert(tail[1] == delta@[dp + 1] && tail[2] == delta@[dp + 2]);
            }
            let ghost c = count as int;
            let ghost rem = orig - acc0.len();
            let mut k: u32 = 0;
            while k < count
                invariant
                    0 <= k <= count,
                    c == count as int,
                    rem == orig - acc0.len(),
                    orig_usize as int == orig,
                    bp as int == bp0 + k,
                    bp0 + count <= 65536 * (dp + 3),
                    dp + 3 <= delta@.len() as int,
                    result@ == acc0 + run_bytes(base_data@, bp0, k as int, rem),
                decreases count - k,
            {
                if result.len() < orig_usize {
                    if bp < base_data.len() as u128 {
                        let b = base_data[bp as usize];
                        result.push(b);
                    } else {
                        result.push(0);
                    }
                    proof {
                        assert(result@ =~= acc0 + run_bytes(base_data@, bp0, k as int + 1, rem));
                    }
                } else {
                    proof {
                        assert(run_bytes(base_data@, bp0, k as int + 1, rem) =~= run_bytes(
                            base_data@, bp0, k as int, rem));
                    }
                }
                bp += 1;
                k += 1;
            }
            proof {
                assert(apply_tail(base_data@, tail, bp0, acc0, orig) == apply_tail(base_data@,
                    tail.skip(3), bp0 + c, acc0 + run_bytes(base_data@, bp0, c, rem), orig));
                assert(tail.skip(3) =~= delta@.skip(dp + 3));
            }
            dp += 3;
            }
        } else if cmd == 1 {
            if dp >= delta.len() - 1 {
                proof {
                    assert(tail.len() < 2);
                    assert(apply_tail(base_data@, tail, bp0, acc0, orig) == acc0);
                    assert(delta@.skip(delta@.len() as int) =~= Seq::<u8>::empty());
                }
                dp = delta.len();
            } else {
            let count: u32 = delta[dp + 1] as u32;
            proof {
                assert(tail[1] == delta@[dp + 1]);
            }
            let ghost c = count as int;
            let ghost rem = orig - acc0.len();
            let ghost dp1 = dp as int;
            let mut lp: usize = dp + 2;
            let mut k: u32 = 0;
            while k < count
                invariant
                    0 <= k <= count,
                    c == count as int,
                    rem == orig - acc0.len(),
                    orig_usize as int == orig,
                    bp as int == bp0 + k,
                    bp0 + count <= 65536 * (dp1 + 2),
                    4 <= dp1,
                    dp1 + 2 <= delta@.len() as int,
                    tail == delta@.skip(dp1),
                    tail.len() >= 2,
                    lp as int == dp1 + 2 + imin(imin(k as int, rem), delta@.len() - (dp1 + 2)),
                    result@ == acc0 + run_bytes(tail, 2, k as int, rem),
                decreases count - k,
            {
                if result.len() < orig_usize {
                    proof {
                        // the output is not full, so every step so far pushed a byte
                        assert(result@.len() == acc0.len() + imin(k as int, rem));
                        assert(k < rem);
                    }
                    if lp < delta.len() {
                        proof {
                            assert(delta@.skip(dp1).len() == delta@.len() - dp1);
                            let avail = delta@.len() - (dp1 + 2);
                            assert(lp as int == dp1 + 2 + imin(imin(k as int, rem), avail));
                            assert((lp as int) < delta@.len());
                            assert(imin(imin(k as int, rem), avail) < avail);
                            assert(imin(k as int, rem) == k as int);
                            assert(imin(imin(k as int, rem), delta@.len() - (dp1 + 2))
                                == k as int);
                            assert(lp as int == dp1 + 2 + k as int);
                            assert(delta@.skip(dp1)[2 + k as int] == delta@[dp1 + 2 + k as int]);
                            assert(tail[2 + k as int] == delta@[lp as int]);
                        }
                        let b = delta[lp];
                        result.push(b);
                        lp += 1;
                    } else {
                        proof {
                            // the literal bytes ran out: the tail reads as zero here
                            assert(delta@.skip(dp1).len() == delta@.len() - dp1);
                            assert(imin(imin(k as int, rem), delta@.len() - (dp1 + 2))
                                == delta@.len() - (dp1 + 2));
                            assert(2 + k as int >= tail.len());
                            assert(padded_byte(tail, 2 + k as int) == 0);
                        }
                        result.push(0);
                    }
                    proof {
                        assert(result@ =~= acc0 + run_bytes(tail, 2, k as int + 1, rem));
                    }
                } else {
                    proof {
                        assert(run_bytes(tail, 2, k as int + 1, rem) =~= run_bytes(tail, 2,
                            k as int, rem));
                    }
                }
                bp += 1;
                k += 1;
            }
            proof {
                let consumed = imin(imin(c, rem), tail.len() - 2);
                assert(apply_tail(base_data@, tail, bp0, acc0, orig) == apply_tail(base_data@,
                    tail.skip(2 + consumed), bp0 + c, acc0 + run_bytes(tail, 2, c, rem), orig));
                assert(tail.skip(2 + consumed) =~= delta@.skip(dp1 + 2 + consumed));
                assert(lp as int == dp1 + 2 + consumed);
            }
            dp = lp;
            }
        } else {
            proof {
                assert(apply_tail(base_data@, tail, bp0, acc0, orig) == apply_tail(base_data@,
                    tail.skip(1), bp0, acc0, orig));
                assert(tail.skip(1) =~= delta@.skip(dp + 1));
            }
            dp += 1;
        }
        proof {
            lemma_apply_tail_len(base_data@, delta@.skip(dp as int), bp as int, result@, orig);
        }
    }
    proof {
        if dp >= delta@.len() {
            assert(delta@.skip(dp as int) =~= Seq::<u8>::empty());
            assert(apply_tail(base_data@, delta@.skip(dp as int), bp as int, result@, orig)
                == result@);
        } else if result@.len() >= orig {
            assert(apply_tail(base_data@, delta@.skip(dp as int), bp as int, result@, orig)
                == result@);
        }
    }
    let ghost decoded = result@;
    proof {
        assert(result@ =~= sized_to(decoded, orig).take(result@.len() as int));
    }
    while result.len() < orig_usize
        invariant
            orig_usize as int == orig,
            decoded.len() <= orig,
            decoded.len() <= result@.len() <= orig,
            result@ == sized_to(decoded, orig).take(result@.len() as int),
        decreases orig - result@.len(),
    {
        result.push(0);
        proof {
            assert(result@ =~= sized_to(decoded, orig).take(result@.len() as int));
        }
    }
    proof {
        assert(result@ =~= sized_to(decoded, orig));
    }
    result
}

} // verus!
