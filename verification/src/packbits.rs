//! PackBits run-length coding, as used for channel rows in PSD files.
//!
//! A stream is a series of packets. A header byte `n < 128` is followed by
//! `n + 1` literal bytes; a header `n > 128` is followed by one byte that is
//! repeated `257 - n` times; the header `128` is a no-op.
use vstd::prelude::*;

verus! {

/// Length of the run of bytes equal to `s[i]` that starts at `i`, counting
/// from `r` and stopping at `cap`.
pub open spec fn run_from(s: Seq<u8>, i: int, r: int, cap: int) -> int
    decreases cap - r,
{
    if r < cap && i + r < s.len() && s[i + r] == s[i] {
        run_from(s, i, r + 1, cap)
    } else {
        r
    }
}

/// End of a literal packet that starts at `start`, scanned from `i`: the
/// literal stops before the next run of three equal bytes, at the end of the
/// input, or once it holds 128 bytes.
pub open spec fn literal_end(s: Seq<u8>, start: int, i: int) -> int
    decreases s.len() - i,
{
    if i < s.len() && run_from(s, i, 1, 3) < 3 && i - start < 128 {
        literal_end(s, start, i + 1)
    } else {
        i
    }
}

/// The encoding of `s[i..]`: a run packet for three to 128 equal bytes,
/// otherwise a literal packet.
pub open spec fn pack_from(s: Seq<u8>, i: int) -> Seq<u8>
    decreases s.len() - i,
{
    if i < 0 || i >= s.len() {
        Seq::empty()
    } else {
        let run = run_from(s, i, 1, 128);
        if run >= 3 {
            proof {
                lemma_run_bounds(s, i, 1, 128);
            }
            seq![(257 - run) as u8, s[i]] + pack_from(s, i + run)
        } else {
            let e = literal_end(s, i, i);
            proof {
                lemma_run_cap(s, i, 1, 3, 128);
                lemma_literal_end_bounds(s, i, i);
            }
            seq![(e - i - 1) as u8] + s.subrange(i, e) + pack_from(s, e)
        }
    }
}

/// What `packbits` produces for `s`.
pub open spec fn spec_packbits(s: Seq<u8>) -> Seq<u8> {
    pack_from(s, 0)
}

/// Decoding of `src` from position `i`, having produced `out` so far, until
/// `want` bytes are there. `None` when the packets end too early.
pub open spec fn unpack_from(src: Seq<u8>, i: int, out: Seq<u8>, want: nat) -> Option<Seq<u8>>
    decreases src.len() - i,
{
    if out.len() >= want {
        Some(out.take(want as int))
    } else if i < 0 || i >= src.len() {
        None
    } else {
        let n = src[i];
        if n < 128 {
            let len = n + 1;
            if i + 1 + len > src.len() {
                None
            } else {
                unpack_from(src, i + 1 + len, out + src.subrange(i + 1, i + 1 + len), want)
            }
        } else if n > 128 {
            if i + 1 >= src.len() {
                None
            } else {
                unpack_from(src, i + 2, out + Seq::new((257 - n) as nat, |k: int| src[i + 1]), want)
            }
        } else {
            unpack_from(src, i + 1, out, want)
        }
    }
}

/// What `unpackbits` gives for `src` and the wanted length.
pub open spec fn spec_unpackbits(src: Seq<u8>, want: nat) -> Option<Seq<u8>> {
    unpack_from(src, 0, Seq::empty(), want)
}

pub proof fn lemma_run_bounds(s: Seq<u8>, i: int, r: int, cap: int)
    requires
        0 <= i < s.len(),
        1 <= r <= cap,
        r == 1 || (i + r <= s.len()),
    ensures
        r <= run_from(s, i, r, cap) <= cap,
        run_from(s, i, r, cap) <= s.len() - i,
    decreases cap - r,
{
    if r < cap && i + r < s.len() && s[i + r] == s[i] {
        lemma_run_bounds(s, i, r + 1, cap);
    }
}

pub proof fn lemma_run_ge(s: Seq<u8>, i: int, r: int, cap: int)
    requires
        r <= cap,
    ensures
        r <= run_from(s, i, r, cap) <= cap,
    decreases cap - r,
{
    if r < cap && i + r < s.len() && s[i + r] == s[i] {
        lemma_run_ge(s, i, r + 1, cap);
    }
}

/// A run counted with a small cap is the larger count clipped to that cap.
pub proof fn lemma_run_cap(s: Seq<u8>, i: int, r: int, c1: int, c2: int)
    requires
        r <= c1 <= c2,
    ensures
        run_from(s, i, r, c1) == if run_from(s, i, r, c2) < c1 {
            run_from(s, i, r, c2)
        } else {
            c1
        },
    decreases c1 - r,
{
    lemma_run_ge(s, i, r, c2);
    if r < c1 && i + r < s.len() && s[i + r] == s[i] {
        lemma_run_cap(s, i, r + 1, c1, c2);
    }
}

/// All bytes of a run equal its first byte.
pub proof fn lemma_run_equal(s: Seq<u8>, i: int, r: int, cap: int, k: int)
    requires
        0 <= i,
        1 <= r,
        forall|j: int| #![trigger s[j]] i <= j < i + r ==> j < s.len() && s[j] == s[i],
        i <= k < i + run_from(s, i, r, cap),
    ensures
        k < s.len(),
        s[k] == s[i],
    decreases cap - r,
{
    if r < cap && i + r < s.len() && s[i + r] == s[i] {
        assert forall|j: int| i <= j < i + r + 1 implies j < s.len() && s[j] == s[i] by {
            if j < i + r {
                assert(j < s.len() && s[j] == s[i]);
            }
        }
        lemma_run_equal(s, i, r + 1, cap, k);
    } else {
        assert(i <= k && k < i + r);
        let t = s[k];
        assert(k < s.len());
        assert(t == s[i]);
    }
}

pub proof fn lemma_literal_end_bounds(s: Seq<u8>, start: int, i: int)
    requires
        0 <= start <= i <= s.len(),
        i - start <= 128,
    ensures
        i <= literal_end(s, start, i) <= s.len(),
        literal_end(s, start, i) - start <= 128,
        i < s.len() && run_from(s, i, 1, 3) < 3 && i - start < 128 ==> literal_end(s, start, i)
            > i,
    decreases s.len() - i,
{
    if i < s.len() && run_from(s, i, 1, 3) < 3 && i - start < 128 {
        lemma_literal_end_bounds(s, start, i + 1);
    }
}

/// Decoding `pack_from(s, i)`, placed anywhere in a stream, appends exactly
/// `s[i..]` to what was produced before.
proof fn lemma_unpack_pack(s: Seq<u8>, i: int, src: Seq<u8>, j: int, out: Seq<u8>, want: nat)
    requires
        0 <= i <= s.len(),
        0 <= j,
        j + pack_from(s, i).len() <= src.len(),
        src.subrange(j, j + pack_from(s, i).len()) == pack_from(s, i),
        want == out.len() + s.len() - i,
    ensures
        unpack_from(src, j, out, want) == Some(out + s.subrange(i, s.len() as int)),
    decreases s.len() - i,
{
    let enc = pack_from(s, i);
    if i >= s.len() {
        assert(out + s.subrange(i, s.len() as int) =~= out);
        assert(out.take(want as int) =~= out);
    } else {
        let run = run_from(s, i, 1, 128);
        lemma_run_bounds(s, i, 1, 128);
        if run >= 3 {
            let rest = pack_from(s, i + run);
            assert(enc == seq![(257 - run) as u8, s[i]] + rest);
            assert(src[j] == enc[0]);
            assert(src[j + 1] == enc[1]);
            let n = src[j];
            assert(n == (257 - run) as u8);
            assert(n > 128);
            assert(257 - n == run);
            let chunk = Seq::new((257 - n) as nat, |k: int| src[j + 1]);
            assert forall|k: int| 0 <= k < run implies chunk[k] == s[i + k] by {
                lemma_run_equal(s, i, 1, 128, i + k);
            }
            assert(chunk =~= s.subrange(i, i + run));
            assert(src.subrange(j + 2, j + 2 + rest.len()) =~= rest) by {
                assert forall|k: int| 0 <= k < rest.len() implies src.subrange(
                    j + 2,
                    j + 2 + rest.len(),
                )[k] == rest[k] by {
                    assert(src.subrange(j, j + enc.len())[k + 2] == enc[k + 2]);
                }
            }
            lemma_unpack_pack(s, i + run, src, j + 2, out + chunk, want);
            assert(out + chunk + s.subrange(i + run, s.len() as int) =~= out + s.subrange(
                i,
                s.len() as int,
            ));
        } else {
            let e = literal_end(s, i, i);
            lemma_run_cap(s, i, 1, 3, 128);
            lemma_literal_end_bounds(s, i, i);
            let rest = pack_from(s, e);
            let lit = s.subrange(i, e);
            assert(enc == seq![(e - i - 1) as u8] + lit + rest);
            assert(src[j] == enc[0]);
            let n = src[j];
            assert(n == (e - i - 1) as u8);
            assert(n < 128);
            assert(n + 1 == e - i);
            assert(src.subrange(j + 1, j + 1 + (e - i)) =~= lit) by {
                assert forall|k: int| 0 <= k < e - i implies src.subrange(j + 1, j + 1 + (e - i))[k]
                    == lit[k] by {
                    assert(src.subrange(j, j + enc.len())[k + 1] == enc[k + 1]);
                }
            }
            let j2 = j + 1 + (e - i);
            assert(src.subrange(j2, j2 + rest.len()) =~= rest) by {
                assert forall|k: int| 0 <= k < rest.len() implies src.subrange(
                    j2,
                    j2 + rest.len(),
                )[k] == rest[k] by {
                    assert(src.subrange(j, j + enc.len())[k + 1 + (e - i)] == enc[k + 1 + (e
                        - i)]);
                }
            }
            lemma_unpack_pack(s, e, src, j2, out + lit, want);
            assert(out + lit + s.subrange(e, s.len() as int) =~= out + s.subrange(
                i,
                s.len() as int,
            ));
        }
    }
}

/// Decoding what `packbits` produced, with the input's length as the wanted
/// length, gives the input back.
pub proof fn lemma_packbits_round_trip(s: Seq<u8>)
    ensures
        spec_unpackbits(spec_packbits(s), s.len()) == Some(s),
{
    let enc = pack_from(s, 0);
    assert(enc.subrange(0, enc.len() as int) =~= enc);
    lemma_unpack_pack(s, 0, enc, 0, Seq::empty(), s.len());
    assert(Seq::<u8>::empty() + s.subrange(0, s.len() as int) =~= s);
}

/// The encoding is never longer than twice its input.
pub proof fn lemma_packbits_len(s: Seq<u8>, i: int)
    requires
        0 <= i <= s.len(),
    ensures
        pack_from(s, i).len() <= 2 * (s.len() - i),
    decreases s.len() - i,
{
    if i < s.len() {
        let run = run_from(s, i, 1, 128);
        lemma_run_bounds(s, i, 1, 128);
        if run >= 3 {
            lemma_packbits_len(s, i + run);
        } else {
            let e = literal_end(s, i, i);
            lemma_run_cap(s, i, 1, 3, 128);
            lemma_literal_end_bounds(s, i, i);
            lemma_packbits_len(s, e);
        }
    }
}

/// PackBits encoding of `src`: runs of three to 128 equal bytes become run
/// packets, everything else literal packets of at most 128 bytes.
pub fn packbits(src: &[u8]) -> (out: Vec<u8>)
    ensures
        out@ == spec_packbits(src@),
        out.len() <= src.len() + (src.len() + 127) / 128,
{
    let s = Ghost(src@);
    let mut out: Vec<u8> = Vec::new();
    let mut i: usize = 0;
    while i < src.len()
        invariant
            s@ == src@,
            i <= src.len(),
            out@ + pack_from(s@, i as int) == spec_packbits(s@),
        decreases src.len() - i,
    {
        let ghost i0 = i as int;
        let mut run: usize = 1;
        while i + run < src.len() && run < 128 && src[i + run] == src[i]
            invariant
                s@ == src@,
                i < src.len(),
                1 <= run <= 128,
                i + run <= src.len(),
                run_from(s@, i as int, run as int, 128) == run_from(s@, i as int, 1, 128),
            decreases 128 - run,
        {
            run += 1;
        }
        assert(run_from(s@, i as int, run as int, 128) == run as int);
        if run >= 3 {
            assert(pack_from(s@, i0) == seq![(257 - run) as u8, s@[i0]] + pack_from(
                s@,
                i0 + run,
            ));
            out.push((257 - run) as u8);
            out.push(src[i]);
            i += run;
            assert(out@ + pack_from(s@, i as int) =~= spec_packbits(s@));
            continue;
        }
        let start = i;
        proof {
            lemma_run_cap(s@, i0, 1, 3, 128);
        }
        while i < src.len()
            invariant
                s@ == src@,
                start <= i <= src.len(),
                i - start <= 128,
                literal_end(s@, start as int, i as int) == literal_end(s@, i0, i0),
                start == i0,
            ensures
                i as int == literal_end(s@, i0, i0),
            decreases src.len() - i,
        {
            let mut r: usize = 1;
            while i + r < src.len() && r < 3 && src[i + r] == src[i]
                invariant
                    s@ == src@,
                    i < src.len(),
                    1 <= r <= 3,
                    i + r <= src.len(),
                    run_from(s@, i as int, r as int, 3) == run_from(s@, i as int, 1, 3),
                decreases 3 - r,
            {
                r += 1;
            }
            if r >= 3 || i - start >= 128 {
                break;
            }
            i += 1;
        }
        proof {
            lemma_literal_end_bounds(s@, i0, i0);
        }
        assert(i as int == literal_end(s@, i0, i0));
        let n = i - start;
        let ghost before = out@;
        out.push((n - 1) as u8);
        let mut k: usize = start;
        while k < i
            invariant
                s@ == src@,
                start <= k <= i <= src.len(),
                out@ == before + seq![(n - 1) as u8] + s@.subrange(start as int, k as int),
            decreases i - k,
        {
            out.push(src[k]);
            k += 1;
            assert(out@ =~= before + seq![(n - 1) as u8] + s@.subrange(start as int, k as int));
        }
        assert(pack_from(s@, i0) == seq![(n - 1) as u8] + s@.subrange(i0, i as int) + pack_from(
            s@,
            i as int,
        ));
        assert(out@ + pack_from(s@, i as int) =~= spec_packbits(s@));
    }
    assert(out@ =~= out@ + pack_from(s@, i as int));
    proof {
        lemma_packbits_bound(src@);
    }
    out
}

/// Unpacks PackBits data until `want` bytes are produced. Fails when the
/// packets end before that.
pub fn unpackbits(src: &[u8], want: usize) -> (res: Result<Vec<u8>, UnpackError>)
    ensures
        match res {
            Ok(v) => spec_unpackbits(src@, want as nat) == Some(v@),
            Err(_) => spec_unpackbits(src@, want as nat) is None,
        },
{
    let mut out: Vec<u8> = Vec::new();
    let mut i: usize = 0;
    while out.len() < want
        invariant
            i <= src.len(),
            spec_unpackbits(src@, want as nat) == unpack_from(src@, i as int, out@, want as nat),
        decreases src.len() - i, want - out.len(),
    {
        if i >= src.len() {
            return Err(UnpackError::Truncated);
        }
        let n = src[i];
        i += 1;
        if n < 128 {
            let len = n as usize + 1;
            if len > src.len() - i {
                return Err(UnpackError::LiteralTooShort);
            }
            let ghost before = out@;
            let mut k: usize = 0;
            while k < len
                invariant
                    i + len <= src.len(),
                    k <= len,
                    out@ == before + src@.subrange(i as int, i + k),
                decreases len - k,
            {
                out.push(src[i + k]);
                k += 1;
                assert(out@ =~= before + src@.subrange(i as int, i + k));
            }
            i += len;
        } else if n > 128 {
            let len = 257 - n as usize;
            if i >= src.len() {
                return Err(UnpackError::MissingRepeat);
            }
            let v = src[i];
            i += 1;
            let ghost before = out@;
            let mut k: usize = 0;
            while k < len
                invariant
                    k <= len,
                    out@ == before + Seq::new(k as nat, |t: int| v),
                decreases len - k,
            {
                out.push(v);
                k += 1;
                assert(out@ =~= before + Seq::new(k as nat, |t: int| v));
            }
        }
    }
    out.truncate(want);
    Ok(out)
}

/// Why PackBits data could not be unpacked.
#[derive(Clone, Copy, PartialEq, Eq, Debug)]
pub enum UnpackError {
    /// The data ended before enough bytes were produced.
    Truncated,
    /// A literal packet is longer than the remaining data.
    LiteralTooShort,
    /// A run packet has no byte to repeat.
    MissingRepeat,
}

/// A literal stops at the end of the input, before a run of three equal
/// bytes, or once it holds 128 bytes.
proof fn lemma_literal_end_stop(s: Seq<u8>, start: int, i: int)
    requires
        0 <= start <= i <= s.len(),
    ensures
        ({
            let e = literal_end(s, start, i);
            e >= s.len() || run_from(s, e, 1, 3) >= 3 || e - start >= 128
        }),
    decreases s.len() - i,
{
    if i < s.len() && run_from(s, i, 1, 3) < 3 && i - start < 128 {
        lemma_literal_end_stop(s, start, i + 1);
    }
}

/// The bound of `pack_from(s, i)`: one header byte per started 128 bytes on
/// top of the input, one less when it starts with a run.
proof fn lemma_pack_bound(s: Seq<u8>, i: int)
    requires
        0 <= i <= s.len(),
    ensures
        pack_from(s, i).len() <= (s.len() - i) + (s.len() - i + 127) / 128,
        i < s.len() && run_from(s, i, 1, 128) >= 3 ==> pack_from(s, i).len() + 1 <= (s.len() - i) + (s.len()
            - i + 127) / 128,
    decreases s.len() - i,
{
    if i < s.len() {
        let m = s.len() - i;
        let run = run_from(s, i, 1, 128);
        lemma_run_bounds(s, i, 1, 128);
        if run >= 3 {
            lemma_pack_bound(s, i + run);
            assert((m - run + 127) / 128 <= (m + 127) / 128);
        } else {
            let e = literal_end(s, i, i);
            lemma_run_cap(s, i, 1, 3, 128);
            lemma_literal_end_bounds(s, i, i);
            lemma_literal_end_stop(s, i, i);
            lemma_pack_bound(s, e);
            let k = e - i;
            assert(pack_from(s, i).len() == k + 1 + pack_from(s, e).len());
            if e < s.len() && k < 128 {
                lemma_run_cap(s, e, 1, 3, 128);
                assert(run_from(s, e, 1, 128) >= 3);
                assert((m - k + 127) / 128 <= (m + 127) / 128);
            } else if e >= s.len() {
                assert(k == m);
                assert((m + 127) / 128 >= 1);
            } else {
                assert(k == 128);
                assert((m - 128 + 127) / 128 + 1 == (m + 127) / 128);
            }
        }
    }
}

/// The encoding is at most one byte longer than its input for every 128
/// bytes begun: 128 equal bytes take two bytes, 128 bytes without a run
/// take 129.
pub proof fn lemma_packbits_bound(s: Seq<u8>)
    ensures
        spec_packbits(s).len() <= s.len() + (s.len() + 127) / 128,
{
    lemma_pack_bound(s, 0);
}

} // verus!
