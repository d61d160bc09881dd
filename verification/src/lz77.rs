use crate::ring::RingBuffer;
use vstd::prelude::*;

verus! {

/// Reserved byte that introduces a match token on the wire; doubled when it
/// occurs as a literal.
pub const SENTINEL: u8 = 0xff;

/// Shortest run worth emitting as a match token instead of literals.
pub const MIN_MATCH_LEN: usize = 5;

/// Longest run one match token may carry. The cap keeps the length's high
/// byte below the sentinel value: a length of 0xff00 or more would put the
/// sentinel byte right after the token's introducer, which the decoder must
/// read as an escaped literal instead.
pub const MAX_MATCH_LEN: usize = 0xfeff;

/// The value of a 16-bit big-endian quantity on the wire.
pub open spec fn be16(hi: u8, lo: u8) -> int {
    hi * 256 + lo
}

/// The bytes that emitting one literal puts on the wire: the sentinel value
/// is doubled, every other byte stands for itself.
pub open spec fn lit_bytes(c: u8) -> Seq<u8> {
    if c == SENTINEL {
        seq![SENTINEL, SENTINEL]
    } else {
        seq![c]
    }
}

/// Replaying one back-reference: append `l` bytes, each copied from `d`
/// positions behind the current end. When `d < l` the copy overlaps itself
/// and replays bytes it has just produced.
pub open spec fn lz_copy(out: Seq<u8>, d: int, l: nat) -> Seq<u8>
    recommends
        1 <= d <= out.len(),
    decreases l,
{
    if l == 0 {
        out
    } else {
        lz_copy(out.push(out[out.len() - d]), d, (l - 1) as nat)
    }
}

/// The meaning of an LZ77 token stream `s`, decoded against the output
/// `out` produced so far with a decoder window of `w` bytes: the complete
/// output, or `None` if the stream is corrupt (a truncated token, a match
/// shorter than the threshold, or a distance outside the window).
pub open spec fn lz_decode(s: Seq<u8>, out: Seq<u8>, w: int) -> Option<Seq<u8>>
    decreases s.len(),
{
    if s.len() == 0 {
        Some(out)
    } else if s[0] != SENTINEL {
        lz_decode(s.skip(1), out.push(s[0]), w)
    } else if s.len() >= 2 && s[1] == SENTINEL {
        lz_decode(s.skip(2), out.push(SENTINEL), w)
    } else if s.len() >= 5 {
        let l = be16(s[1], s[2]);
        let d = be16(s[3], s[4]);
        if MIN_MATCH_LEN <= l && 1 <= d && d <= out.len() && d <= w {
            lz_decode(s.skip(5), lz_copy(out, d, l as nat), w)
        } else {
            None
        }
    } else {
        None
    }
}

/// Decoding a stream that splits into a well-formed part `a` and a rest `b`
/// first replays `a`, then goes on with `b` against `a`'s output.
pub proof fn lemma_lz_decode_append(a: Seq<u8>, b: Seq<u8>, out: Seq<u8>, o: Seq<u8>, w: int)
    requires
        lz_decode(a, out, w) == Some(o),
    ensures
        lz_decode(a + b, out, w) == lz_decode(b, o, w),
    decreases a.len(),
{
    if a.len() == 0 {
        assert(a + b =~= b);
    } else if a[0] != SENTINEL {
        assert((a + b).skip(1) =~= a.skip(1) + b);
        lemma_lz_decode_append(a.skip(1), b, out.push(a[0]), o, w);
    } else if a.len() >= 2 && a[1] == SENTINEL {
        assert((a + b).skip(2) =~= a.skip(2) + b);
        lemma_lz_decode_append(a.skip(2), b, out.push(SENTINEL), o, w);
    } else {
        assert(a.len() >= 5);
        let l = be16(a[1], a[2]);
        let d = be16(a[3], a[4]);
        assert((a + b).skip(5) =~= a.skip(5) + b);
        lemma_lz_decode_append(a.skip(5), b, lz_copy(out, d, l as nat), o, w);
    }
}

/// One literal token decodes to exactly one more byte of output.
pub proof fn lemma_lz_decode_one_literal(o: Seq<u8>, c: u8, w: int)
    ensures
        lz_decode(lit_bytes(c), o, w) == Some(o.push(c)),
{
    let s = lit_bytes(c);
    if c == SENTINEL {
        assert(s.skip(2) =~= Seq::<u8>::empty());
        assert(lz_decode(s, o, w) == lz_decode(s.skip(2), o.push(SENTINEL), w));
        assert(lz_decode(s.skip(2), o.push(SENTINEL), w) == Some(o.push(c)));
    } else {
        assert(s.skip(1) =~= Seq::<u8>::empty());
        assert(lz_decode(s, o, w) == lz_decode(s.skip(1), o.push(c), w));
        assert(lz_decode(s.skip(1), o.push(c), w) == Some(o.push(c)));
    }
}

/// The bytes of one match token on the wire.
pub open spec fn match_bytes(l: int, d: int) -> Seq<u8> {
    seq![SENTINEL, (l / 256) as u8, (l % 256) as u8, (d / 256) as u8, (d % 256) as u8]
}

/// One match token decodes to the replay of its back-reference.
pub proof fn lemma_lz_decode_one_match(o: Seq<u8>, l: int, d: int, w: int)
    requires
        MIN_MATCH_LEN <= l <= MAX_MATCH_LEN,
        1 <= d <= o.len(),
        d <= w,
        d <= 0xffff,
    ensures
        lz_decode(match_bytes(l, d), o, w) == Some(lz_copy(o, d, l as nat)),
{
    let s = match_bytes(l, d);
    assert(l / 256 < 255 && l % 256 < 256 && 0 <= l / 256 && 0 <= l % 256) by (nonlinear_arith)
        requires
            5 <= l <= 0xfeff,
    ;
    assert(d / 256 < 256 && d % 256 < 256 && 0 <= d / 256 && 0 <= d % 256) by (nonlinear_arith)
        requires
            1 <= d <= 0xffff,
    ;
    assert(s[1] != SENTINEL);
    assert(be16(s[1], s[2]) == (l / 256) * 256 + l % 256);
    assert((l / 256) * 256 + l % 256 == l) by (nonlinear_arith)
        requires
            0 <= l,
    ;
    assert(be16(s[3], s[4]) == (d / 256) * 256 + d % 256);
    assert((d / 256) * 256 + d % 256 == d) by (nonlinear_arith)
        requires
            0 <= d,
    ;
    assert(s.skip(5) =~= Seq::<u8>::empty());
    assert(s[1] as int * 256 + s[2] as int == l);
    assert(s[3] as int * 256 + s[4] as int == d);
    assert(lz_decode(s, o, w) == lz_decode(s.skip(5), lz_copy(o, d, l as nat), w));
}

/// A back-reference whose source region matches its target region in some
/// stream `t` replays exactly the target region: copying `l` bytes from `d`
/// back extends the first `n` bytes of `t` to its first `n + l` bytes.
pub proof fn lemma_lz_copy_matches(t: Seq<u8>, n: int, d: int, l: nat)
    requires
        1 <= d <= n,
        n + l <= t.len(),
        forall|k: int| 0 <= k < l ==> t[n - d + k] == #[trigger] t[n + k],
    ensures
        lz_copy(t.take(n), d, l) == t.take(n + l),
    decreases l,
{
    if l > 0 {
        assert(t[n - d + 0] == t[n + 0]);
        assert(t.take(n)[n - d] == t[n - d]);
        assert(t.take(n).push(t.take(n)[n - d]) =~= t.take(n + 1));
        assert forall|k: int| 0 <= k < l - 1 implies t[(n + 1) - d + k] == #[trigger] t[(n + 1)
            + k] by {
            assert(t[n - d + (k + 1)] == t[n + (k + 1)]);
        }
        lemma_lz_copy_matches(t, n + 1, d, (l - 1) as nat);
    } else {
        assert(lz_copy(t.take(n), d, 0) == t.take(n));
    }
}

/// Longest repeated run between the seen region `[0, window_size)` of the
/// buffer and the lookahead region starting at `window_size`. Returns
/// `(distance, length)`, or `(0, 0)` when nothing matches; a reported match
/// may run past the window boundary into the lookahead itself.
pub fn find_match(input: &RingBuffer, window_size: usize) -> (r: (usize, usize))
    requires
        input.wf(),
        1 <= window_size,
    ensures
        r == (0usize, 0usize) || {
            &&& 1 <= r.0 <= window_size
            &&& 1 <= r.1 <= MAX_MATCH_LEN
            &&& window_size + r.1 <= input@.len()
            &&& forall|k: int|
                0 <= k < r.1 ==> input@[window_size - r.0 + k] == #[trigger] input@[window_size
                    + k]
        },
        r == (0usize, 0usize) ==> window_size >= input@.len() || (forall|q: int|
            0 <= q < window_size ==> input@[q] != #[trigger] input@[window_size as int]),
{
    let len = input.len();
    let mut match_position: usize = 0;
    let mut match_len: usize = 0;
    let mut longest_match_position: usize = 0;
    let mut longest_match_len: usize = 0;
    let mut i: usize = 0;

    while match_len + window_size < len && match_len < MAX_MATCH_LEN && (match_len > 0 || i
        < window_size)
        invariant
            input.wf(),
            1 <= window_size,
            len == input@.len(),
            match_len <= MAX_MATCH_LEN,
            i <= len,
            longest_match_len == 0 && match_len == 0 && window_size < len ==> forall|q: int|
                0 <= q < i ==> input@[q] != #[trigger] input@[window_size as int],
            match_len > 0 ==> {
                &&& match_position < window_size
                &&& window_size + match_len <= len
                &&& i == match_position + match_len
                &&& forall|k: int|
                    0 <= k < match_len ==> input@[match_position + k]
                        == #[trigger] input@[window_size + k]
            },
            longest_match_len > 0 ==> {
                &&& longest_match_position < window_size
                &&& longest_match_len <= MAX_MATCH_LEN
                &&& window_size + longest_match_len <= len
                &&& forall|k: int|
                    0 <= k < longest_match_len ==> input@[longest_match_position + k]
                        == #[trigger] input@[window_size + k]
            },
        decreases 2 * (len - i) + (if match_len > 0 {
            1int
        } else {
            0int
        }),
    {
        if input.index(i) == input.index(window_size + match_len) {
            if match_len == 0 {
                match_position = i;
            }
            match_len = match_len + 1;
            i = i + 1;
        } else {
            if match_len > longest_match_len {
                longest_match_position = match_position;
                longest_match_len = match_len;
            } else if match_len == 0 {
                i = i + 1;
            }
            match_len = 0;
        }
    }
    if match_len > longest_match_len {
        longest_match_position = match_position;
        longest_match_len = match_len;
    }

    if longest_match_len == 0 {
        (0, 0)
    } else {
        (window_size - longest_match_position, longest_match_len)
    }
}

/// Emit one literal byte onto the wire, escaping the sentinel by doubling.
fn put_char(out: &mut Vec<u8>, c: u8)
    ensures
        final(out)@ == old(out)@ + lit_bytes(c),
{
    if c == SENTINEL {
        out.push(SENTINEL);
        out.push(SENTINEL);
        proof {
            assert(out@ =~= old(out)@ + lit_bytes(c));
        }
    } else {
        out.push(c);
        proof {
            assert(out@ =~= old(out)@ + lit_bytes(c));
        }
    }
}

/// Peeling one replay step off the back: the next copied byte is read `d`
/// positions behind the current end of the partial replay.
proof fn lemma_lz_copy_step(o: Seq<u8>, d: int, k: nat)
    requires
        1 <= d <= o.len(),
    ensures
        lz_copy(o, d, k).len() == o.len() + k,
        lz_copy(o, d, (k + 1) as nat) == lz_copy(o, d, k).push(
            lz_copy(o, d, k)[lz_copy(o, d, k).len() - d],
        ),
    decreases k,
{
    let o2 = o.push(o[o.len() - d]);
    if k == 0 {
        assert(lz_copy(o, d, 1) == lz_copy(o2, d, 0));
        assert(lz_copy(o, d, 0) == o);
    } else {
        lemma_lz_copy_step(o2, d, (k - 1) as nat);
        assert(lz_copy(o, d, (k + 1) as nat) == lz_copy(o2, d, k));
        assert(lz_copy(o, d, k) == lz_copy(o2, d, (k - 1) as nat));
    }
}

/// Error of the LZ77 decoder: the input is not a well-formed token stream.
#[derive(Clone, Copy, Debug, PartialEq, Eq, Structural)]
pub enum Lz77Error {
    Corrupt,
}

/// Decode an LZ77 token stream produced against a window of at most
/// `max_window` bytes. Succeeds exactly on well-formed streams and returns
/// the replayed output; any truncated or out-of-bounds token is refused.
pub fn lz77_decompress(input: &Vec<u8>, max_window: usize) -> (r: Result<Vec<u8>, Lz77Error>)
    requires
        1 <= max_window <= 0xffff,
    ensures
        match r {
            Ok(o) => lz_decode(input@, Seq::<u8>::empty(), max_window as int) == Some(o@),
            Err(_) => lz_decode(input@, Seq::<u8>::empty(), max_window as int) is None,
        },
{
    let n = input.len();
    let mut i: usize = 0;
    let mut out: Vec<u8> = Vec::new();
    proof {
        assert(input@.skip(0) =~= input@);
    }
    while i < n
        invariant
            1 <= max_window <= 0xffff,
            i <= n,
            n == input@.len(),
            lz_decode(input@, Seq::<u8>::empty(), max_window as int) == lz_decode(
                input@.skip(i as int),
                out@,
                max_window as int,
            ),
        decreases n - i,
    {
        let c = input[i];
        proof {
            assert(input@.skip(i as int)[0] == input@[i as int]);
        }
        if c != SENTINEL {
            out.push(c);
            proof {
                assert(input@.skip(i as int).skip(1) =~= input@.skip(i + 1));
            }
            i = i + 1;
        } else if i + 1 < n && input[i + 1] == SENTINEL {
            out.push(SENTINEL);
            proof {
                assert(input@.skip(i as int)[1] == input@[i + 1]);
                assert(input@.skip(i as int).skip(2) =~= input@.skip(i + 2));
            }
            i = i + 2;
        } else if n - i > 4 {
            let l = (input[i + 1] as usize) * 256 + (input[i + 2] as usize);
            let d = (input[i + 3] as usize) * 256 + (input[i + 4] as usize);
            proof {
                let s = input@.skip(i as int);
                assert(s[1] == input@[i + 1]);
                assert(s[2] == input@[i + 2]);
                assert(s[3] == input@[i + 3]);
                assert(s[4] == input@[i + 4]);
                assert(s.len() >= 5);
                assert(be16(s[1], s[2]) == l);
                assert(be16(s[3], s[4]) == d);
            }
            if l < MIN_MATCH_LEN || d < 1 || d > out.len() || d > max_window {
                return Err(Lz77Error::Corrupt);
            }
            let ghost out0 = out@;
            let mut k: usize = 0;
            while k < l
                invariant
                    1 <= d,
                    d <= out0.len(),
                    k <= l,
                    out@ == lz_copy(out0, d as int, k as nat),
                    out@.len() == out0.len() + k,
                decreases l - k,
            {
                let b = out[out.len() - d];
                out.push(b);
                proof {
                    lemma_lz_copy_step(out0, d as int, k as nat);
                }
                k = k + 1;
            }
            proof {
                assert(input@.skip(i as int).skip(5) =~= input@.skip(i + 5));
            }
            i = i + 5;
        } else {
            return Err(Lz77Error::Corrupt);
        }
    }
    proof {
        assert(input@.skip(n as int) =~= Seq::<u8>::empty());
    }
    Ok(out)
}

/// Compress a byte stream against a sliding window of at most `max_window`
/// bytes: literals for short runs, one match token for each run of at least
/// the threshold length. The first byte is always emitted as a literal to
/// seed the window, and decoding the result replays the input exactly.
#[verifier::rlimit(60)]
pub fn lz77_compress(input: &Vec<u8>, max_window: usize) -> (out: Vec<u8>)
    requires
        1 <= max_window <= 0xffff,
    ensures
        lz_decode(out@, Seq::<u8>::empty(), max_window as int) == Some(input@),
        lz_tokens_in_bounds(out@, 0, max_window as int),
{
    let mut out: Vec<u8> = Vec::new();
    if input.len() == 0 {
        proof {
            assert(out@ =~= Seq::<u8>::empty());
            assert(input@ =~= Seq::<u8>::empty());
        }
        return out;
    }
    let mut ring = RingBuffer::new(3 * max_window);
    let mut consumed: usize = ring.fill_from_slice(input, 0);
    proof {
        assert(ring@ =~= input@.subrange(0, consumed as int));
    }
    let c0 = ring.index(0);
    put_char(&mut out, c0);
    let mut window_size: usize = 1;
    let ghost mut front: int = 0;
    let ghost w: int = max_window as int;
    proof {
        lemma_lz_decode_one_literal(Seq::<u8>::empty(), c0, w);
        assert(out@ =~= lit_bytes(c0));
        assert(Seq::<u8>::empty().push(c0) =~= input@.take(1));
    }
    while ring.len() > window_size
        invariant
            1 <= max_window <= 0xffff,
            w == max_window as int,
            input@.len() >= 1,
            ring.wf(),
            ring.capacity() == 3 * max_window,
            1 <= window_size <= max_window,
            window_size <= ring@.len(),
            0 <= front,
            front + ring@.len() == consumed,
            consumed <= input@.len(),
            ring@ == input@.subrange(front, consumed as int),
            consumed == input@.len() || ring@.len() >= 2 * max_window,
            lz_decode(out@, Seq::<u8>::empty(), w) == Some(input@.take(front + window_size)),
        decreases input@.len() - front - window_size,
    {
        let pair = find_match(&ring, window_size);
        let d = pair.0;
        let l0 = pair.1;
        let l: usize;
        let ghost out_pre = out@;
        let ghost pos: int = front + window_size;
        if l0 < MIN_MATCH_LEN {
            let cnt = if l0 == 0 {
                1
            } else {
                l0
            };
            assert(window_size + cnt <= ring@.len());
            let mut j: usize = 0;
            while j < cnt
                invariant
                    1 <= max_window <= 0xffff,
                    w == max_window as int,
                    ring.wf(),
                    1 <= window_size,
                    window_size + cnt <= ring@.len(),
                    pos == front + window_size,
                    0 <= front,
                    front + ring@.len() == consumed,
                    consumed <= input@.len(),
                    ring@ == input@.subrange(front, consumed as int),
                    j <= cnt,
                    lz_decode(out@, Seq::<u8>::empty(), w) == Some(input@.take(pos + j)),
                decreases cnt - j,
            {
                let c = ring.index(window_size + j);
                proof {
                    assert(ring@[window_size + j] == input@[pos + j]);
                }
                let ghost ob = out@;
                put_char(&mut out, c);
                proof {
                    lemma_lz_decode_one_literal(input@.take(pos + j), c, w);
                    lemma_lz_decode_append(
                        ob,
                        lit_bytes(c),
                        Seq::<u8>::empty(),
                        input@.take(pos + j),
                        w,
                    );
                    assert(input@.take(pos + j).push(input@[pos + j]) =~= input@.take(pos + j + 1));
                }
                j = j + 1;
            }
            l = cnt;
        } else {
            l = l0;
            out.push(SENTINEL);
            out.push((l / 256) as u8);
            out.push((l % 256) as u8);
            out.push((d / 256) as u8);
            out.push((d % 256) as u8);
            proof {
                assert(out@ =~= out_pre + match_bytes(l as int, d as int));
                assert forall|k: int| 0 <= k < l implies input@[pos - d + k] == #[trigger] input@[
                    pos + k
                ] by {
                    assert(ring@[window_size - d + k] == input@[front + (window_size - d + k)]);
                    assert(ring@[window_size + k] == input@[front + (window_size + k)]);
                }
                lemma_lz_copy_matches(input@, pos, d as int, l as nat);
                lemma_lz_decode_one_match(input@.take(pos), l as int, d as int, w);
                lemma_lz_decode_append(
                    out_pre,
                    match_bytes(l as int, d as int),
                    Seq::<u8>::empty(),
                    input@.take(pos),
                    w,
                );
            }
        }
        let change = if max_window - window_size <= l {
            max_window - window_size
        } else {
            l
        };
        window_size = window_size + change;
        ring.ignore(l - change);
        proof {
            front = front + (l - change);
            assert(ring@ =~= input@.subrange(front, consumed as int));
        }
        if ring.len() < 2 * max_window {
            let in_len = input.len();
            let added = ring.fill_from_slice(input, consumed);
            assert(consumed + added <= in_len);
            consumed = consumed + added;
            proof {
                assert(ring@ =~= input@.subrange(front, consumed as int));
            }
        }
    }
    proof {
        assert(input@.take(input@.len() as int) =~= input@);
        lemma_lz77_token_bounds(out@, Seq::<u8>::empty(), input@, max_window as int);
    }
    out
}

/// Well-formedness of every token of a stream: each match token carries a
/// length within the wire format's bounds and a distance reaching no further
/// back than the `produced` bytes already replayed, nor past the window.
pub open spec fn lz_tokens_in_bounds(s: Seq<u8>, produced: int, w: int) -> bool
    decreases s.len(),
{
    if s.len() == 0 {
        true
    } else if s[0] != SENTINEL {
        lz_tokens_in_bounds(s.skip(1), produced + 1, w)
    } else if s.len() >= 2 && s[1] == SENTINEL {
        lz_tokens_in_bounds(s.skip(2), produced + 1, w)
    } else if s.len() >= 5 {
        let l = be16(s[1], s[2]);
        let d = be16(s[3], s[4]);
        &&& MIN_MATCH_LEN <= l <= 0xff00
        &&& 1 <= d <= produced
        &&& d <= w
        &&& lz_tokens_in_bounds(s.skip(5), produced + l, w)
    } else {
        false
    }
}

/// The replay of a back-reference adds exactly its length.
proof fn lemma_lz_copy_len(o: Seq<u8>, d: int, l: nat)
    ensures
        lz_copy(o, d, l).len() == o.len() + l,
    decreases l,
{
    if l > 0 {
        lemma_lz_copy_len(o.push(o[o.len() - d]), d, (l - 1) as nat);
    }
}

/// Every match token of a stream that decodes successfully respects the
/// bounds of the wire format: its length lies between the match threshold
/// and 0xff00, and its distance between 1 and the number of bytes the
/// decoder had already produced when it met the token — the compressor's
/// window size at emission time — and never beyond the window capacity.
pub proof fn lemma_lz77_token_bounds(s: Seq<u8>, out: Seq<u8>, o: Seq<u8>, w: int)
    requires
        lz_decode(s, out, w) == Some(o),
    ensures
        lz_tokens_in_bounds(s, out.len() as int, w),
    decreases s.len(),
{
    if s.len() == 0 {
    } else if s[0] != SENTINEL {
        lemma_lz77_token_bounds(s.skip(1), out.push(s[0]), o, w);
    } else if s.len() >= 2 && s[1] == SENTINEL {
        lemma_lz77_token_bounds(s.skip(2), out.push(SENTINEL), o, w);
    } else {
        assert(s.len() >= 5);
        let l = be16(s[1], s[2]);
        let d = be16(s[3], s[4]);
        assert(s[1] < SENTINEL || s[1] > SENTINEL);
        assert(l <= 0xfeff);
        lemma_lz_copy_len(out, d, l as nat);
        lemma_lz77_token_bounds(s.skip(5), lz_copy(out, d, l as nat), o, w);
    }
}

} // verus!
