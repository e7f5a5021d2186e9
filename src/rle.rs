use vstd::prelude::*;

verus! {

/// How many bytes follow control byte `b`: `b` literal bytes below 128,
/// none for the no-op 128, one repeated byte above it.
pub open spec fn operand_len(b: u8) -> int {
    if b < 128 {
        b as int
    } else if b == 128 {
        0
    } else {
        1
    }
}

/// How many output bytes control byte `b` stands for.
pub open spec fn control_count(b: u8) -> int {
    if b < 128 {
        b as int
    } else if b == 128 {
        0
    } else {
        b - 127
    }
}

/// `n` copies of `v`.
pub open spec fn repeat(v: u8, n: int) -> Seq<u8> {
    Seq::new(n as nat, |i: int| v)
}

/// `r` with `p` in front, if there is an `r`.
pub open spec fn prefixed(p: Seq<u8>, r: Option<Seq<u8>>) -> Option<Seq<u8>> {
    match r {
        Some(s) => Some(p + s),
        None => None,
    }
}

/// The decompressed form of a chunk payload, or `None` where a control byte
/// promises more bytes than remain.
pub open spec fn rle_decode(c: Seq<u8>) -> Option<Seq<u8>>
    decreases c.len(),
{
    if c.len() == 0 {
        Some(Seq::empty())
    } else if c.len() < 1 + operand_len(c[0]) {
        None
    } else {
        let b = c[0];
        let rest = rle_decode(c.subrange(1 + operand_len(b), c.len() as int));
        if b < 128 {
            prefixed(c.subrange(1, 1 + b), rest)
        } else if b == 128 {
            rest
        } else {
            prefixed(repeat(c[1], b - 127), rest)
        }
    }
}

/// Every control byte of `c` has all the bytes that it promises.
pub open spec fn rle_frames_ok(c: Seq<u8>) -> bool
    decreases c.len(),
{
    if c.len() == 0 {
        true
    } else if c.len() < 1 + operand_len(c[0]) {
        false
    } else {
        rle_frames_ok(c.subrange(1 + operand_len(c[0]), c.len() as int))
    }
}

/// The sum over the control bytes of `c` of the bytes each stands for.
pub open spec fn rle_output_len(c: Seq<u8>) -> int
    decreases c.len(),
{
    if c.len() == 0 || c.len() < 1 + operand_len(c[0]) {
        0
    } else {
        control_count(c[0]) + rle_output_len(c.subrange(1 + operand_len(c[0]), c.len() as int))
    }
}

/// Where the run of bytes equal to `x[s]` that has reached `j` ends, at
/// most 127 bytes after `s`.
pub open spec fn run_end(x: Seq<u8>, s: int, j: int) -> int
    decreases x.len() - j,
{
    if s <= j < x.len() && j - s < 127 && x[j] == x[s] {
        run_end(x, s, j + 1)
    } else {
        j
    }
}

/// The encoding of `n` copies of `v` (1 <= n <= 127): a run control byte
/// (127 + n) and `v` where there are two or more, else a one-byte literal
/// (1 and `v`).
pub open spec fn rle_piece(v: u8, n: int) -> Seq<u8> {
    if n >= 2 {
        seq![(127 + n) as u8, v]
    } else {
        seq![1u8, v]
    }
}

/// The compressed form of `x` from index `s` on: each maximal run of equal
/// bytes, cut into pieces of at most 127, becomes one piece. A byte with
/// no equal neighbour becomes a one-byte literal, so data without repeats
/// doubles in size.
pub open spec fn rle_encode_from(x: Seq<u8>, s: int) -> Seq<u8>
    decreases x.len() - s,
{
    if s < 0 || s >= x.len() {
        Seq::empty()
    } else {
        let e = run_end(x, s, s + 1);
        if e <= s || e > x.len() {
            Seq::empty()
        } else {
            rle_piece(x[s], e - s) + rle_encode_from(x, e)
        }
    }
}

/// The compressed form of `x`.
pub open spec fn rle_encode(x: Seq<u8>) -> Seq<u8> {
    rle_encode_from(x, 0)
}

proof fn lemma_run_end(x: Seq<u8>, s: int, j: int)
    requires
        0 <= s < j <= x.len(),
        j - s <= 127,
        forall|t: int| s <= t < j ==> x[t] == x[s],
    ensures
        j <= run_end(x, s, j) <= x.len(),
        run_end(x, s, j) - s <= 127,
        forall|t: int| s <= t < run_end(x, s, j) ==> x[t] == x[s],
    decreases x.len() - j,
{
    if s <= j < x.len() && j - s < 127 && x[j] == x[s] {
        lemma_run_end(x, s, j + 1);
    }
}

proof fn lemma_decode_piece(v: u8, n: int, rest: Seq<u8>)
    requires
        1 <= n <= 127,
    ensures
        rle_decode(rle_piece(v, n) + rest) == prefixed(repeat(v, n), rle_decode(rest)),
{
    let c = rle_piece(v, n) + rest;
    assert(c.subrange(2, c.len() as int) =~= rest);
    if n < 2 {
        assert(c.subrange(1, 2) =~= repeat(v, n));
    }
}

proof fn lemma_encode_from_round_trip(x: Seq<u8>, s: int)
    requires
        0 <= s <= x.len(),
    ensures
        rle_decode(rle_encode_from(x, s)) == Some(x.subrange(s, x.len() as int)),
    decreases x.len() - s,
{
    if s == x.len() {
        assert(x.subrange(s, x.len() as int) =~= Seq::<u8>::empty());
    } else {
        let e = run_end(x, s, s + 1);
        lemma_run_end(x, s, s + 1);
        lemma_encode_from_round_trip(x, e);
        lemma_decode_piece(x[s], e - s, rle_encode_from(x, e));
        assert(repeat(x[s], e - s) + x.subrange(e, x.len() as int) =~= x.subrange(
            s,
            x.len() as int,
        ));
    }
}

/// Decompressing the compressed form of any byte sequence gives it back.
pub proof fn lemma_rle_round_trip(x: Seq<u8>)
    ensures
        rle_decode(rle_encode(x)) == Some(x),
{
    lemma_encode_from_round_trip(x, 0);
    assert(x.subrange(0, x.len() as int) =~= x);
}

/// Decompression succeeds exactly when every control byte has its bytes,
/// and then yields as many bytes as the control bytes stand for in sum.
pub proof fn lemma_rle_decode_len(c: Seq<u8>)
    ensures
        rle_decode(c) is Some <==> rle_frames_ok(c),
        rle_decode(c) matches Some(out) ==> out.len() == rle_output_len(c),
    decreases c.len(),
{
    if c.len() > 0 && c.len() >= 1 + operand_len(c[0]) {
        lemma_rle_decode_len(c.subrange(1 + operand_len(c[0]), c.len() as int));
    }
}

} // verus!
