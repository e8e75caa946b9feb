//! The LZ77-variant decompression codec applied to each extracted file.
//!
//! A compressed stream is one magic byte (0x10), a 24-bit little-endian
//! decompressed size, and then a bitstream of decision bytes: each of a
//! decision byte's 8 bits, most significant first, selects either one literal
//! input byte or a 16-bit big-endian pointer word encoding a back-reference
//! into the output produced so far.
use crate::wire::le24_at;
use vstd::prelude::*;

verus! {

/// Failure conditions of the decompression codec.
#[derive(Debug, PartialEq, Eq, Clone, Copy)]
pub enum Lz10DecompressionError {
    /// The input ended before a required header byte was available.
    Io,
    /// The declared decompressed size was zero.
    InvalidSize,
    /// A back-reference pointed at output that does not exist yet.
    BackReferenceOutOfRange,
    /// The first byte was not the expected magic value 0x10.
    MagicMismatch { found: u8 },
}

/// How a decompression run ends: the declared size was reached, the input ran
/// out first (graceful truncation), or the stream was invalid.
pub enum Lz10Outcome {
    Done { out: Seq<u8> },
    Exhausted { out: Seq<u8> },
    Fail { err: Lz10DecompressionError },
}

/// Appends up to `count` bytes to `out`, each copied from position `start + k`
/// of the buffer as it stands after `k` appends, stopping as soon as `out`
/// reaches `size` bytes. Copied bytes become sources for later copies, so a
/// run longer than the window stride replicates correctly.
pub open spec fn copy_run(out: Seq<u8>, start: int, count: nat, size: int) -> Seq<u8>
    decreases count,
{
    if count == 0 || out.len() >= size {
        out
    } else {
        copy_run(out.push(out[start]), start + 1, (count - 1) as nat, size)
    }
}

/// One step of the decompression bitstream, from input position `pos` with
/// `bits_left` decision bits of `decision` still unused and `out` produced so
/// far. Stops the moment `out` reaches `size` bytes, and treats an input that
/// runs out after the header as graceful truncation, never a hard failure.
pub open spec fn run_from(
    input: Seq<u8>,
    pos: int,
    decision: u8,
    bits_left: u8,
    out: Seq<u8>,
    size: int,
) -> Lz10Outcome
    decreases input.len() - pos, bits_left,
{
    if out.len() >= size {
        Lz10Outcome::Done { out }
    } else if bits_left == 0 {
        if pos + 1 > input.len() {
            Lz10Outcome::Exhausted { out }
        } else {
            run_from(input, pos + 1, input[pos], 8, out, size)
        }
    } else if (decision >> ((bits_left - 1) as u8)) & 1 == 1 {
        if pos + 2 > input.len() {
            Lz10Outcome::Exhausted { out }
        } else {
            let word = 0x100 * (input[pos] as int) + input[pos + 1];
            let length = word / 0x1000 + 3;
            let offset = word % 0x1000;
            if offset >= out.len() {
                Lz10Outcome::Fail { err: Lz10DecompressionError::BackReferenceOutOfRange }
            } else {
                run_from(
                    input,
                    pos + 2,
                    decision,
                    (bits_left - 1) as u8,
                    copy_run(out, out.len() - offset - 1, length as nat, size),
                    size,
                )
            }
        }
    } else {
        if pos + 1 > input.len() {
            Lz10Outcome::Exhausted { out }
        } else {
            run_from(input, pos + 1, decision, (bits_left - 1) as u8, out.push(input[pos]), size)
        }
    }
}

/// The outcome of decompressing `input`: header validation followed by the
/// decision bitstream.
pub open spec fn lz10_spec(input: Seq<u8>) -> Lz10Outcome {
    if input.len() < 1 {
        Lz10Outcome::Fail { err: Lz10DecompressionError::Io }
    } else if input[0] != 0x10 {
        Lz10Outcome::Fail { err: Lz10DecompressionError::MagicMismatch { found: input[0] } }
    } else if input.len() < 4 {
        Lz10Outcome::Fail { err: Lz10DecompressionError::Io }
    } else if le24_at(input, 1) == 0 {
        Lz10Outcome::Fail { err: Lz10DecompressionError::InvalidSize }
    } else {
        run_from(input, 4, 0, 0, Seq::empty(), le24_at(input, 1))
    }
}

/// `lz10_spec` with both graceful endings folded into `Ok`.
pub open spec fn lz10_result(input: Seq<u8>) -> Result<Seq<u8>, Lz10DecompressionError> {
    match lz10_spec(input) {
        Lz10Outcome::Done { out } => Ok(out),
        Lz10Outcome::Exhausted { out } => Ok(out),
        Lz10Outcome::Fail { err } => Err(err),
    }
}

/// Decompresses one compressed stream into its original bytes.
pub fn decompress_lz10(input: &[u8]) -> (r: Result<Vec<u8>, Lz10DecompressionError>)
    ensures
        match r {
            Ok(v) => lz10_result(input@) == Ok::<Seq<u8>, Lz10DecompressionError>(v@),
            Err(e) => lz10_result(input@) == Err::<Seq<u8>, Lz10DecompressionError>(e),
        },
{
    if input.len() < 1 {
        return Err(Lz10DecompressionError::Io);
    }
    let magic = input[0];
    if magic != 0x10 {
        return Err(Lz10DecompressionError::MagicMismatch { found: magic });
    }
    if input.len() < 4 {
        return Err(Lz10DecompressionError::Io);
    }
    let size: usize = input[1] as usize + 0x100 * (input[2] as usize) + 0x10000 * (
    input[3] as usize);
    if size == 0 {
        return Err(Lz10DecompressionError::InvalidSize);
    }
    let mut out: Vec<u8> = Vec::new();
    let mut pos: usize = 4;
    let mut decision: u8 = 0;
    let mut bits_left: u8 = 0;
    loop
        invariant
            4 <= pos <= input@.len(),
            bits_left <= 8,
            out@.len() <= size,
            size == le24_at(input@, 1),
            input@.len() >= 4,
            input@[0] == 0x10,
            size > 0,
            lz10_spec(input@) == run_from(
                input@,
                pos as int,
                decision,
                bits_left,
                out@,
                size as int,
            ),
        decreases input@.len() - pos, bits_left,
    {
        if out.len() >= size {
            return Ok(out);
        }
        if bits_left == 0 {
            if pos >= input.len() {
                return Ok(out);
            }
            decision = input[pos];
            pos = pos + 1;
            bits_left = 8;
        } else if (decision >> (bits_left - 1)) & 1 == 1 {
            if input.len() - pos < 2 {
                return Ok(out);
            }
            let word: u32 = 0x100 * (input[pos] as u32) + input[pos + 1] as u32;
            let length: u32 = word / 0x1000 + 3;
            let offset: u32 = word % 0x1000;
            pos = pos + 2;
            if offset as usize >= out.len() {
                return Err(Lz10DecompressionError::BackReferenceOutOfRange);
            }
            let start: usize = out.len() - offset as usize - 1;
            let ghost out0 = out@;
            let mut k: u32 = 0;
            while k < length && out.len() < size
                invariant
                    k <= length,
                    out@.len() == out0.len() + k,
                    out@.len() <= size,
                    start + length < usize::MAX,
                    start < out0.len() <= out@.len(),
                    copy_run(out0, start as int, length as nat, size as int) == copy_run(
                        out@,
                        start + k,
                        (length - k) as nat,
                        size as int,
                    ),
                decreases length - k,
            {
                let b = out[start + k as usize];
                out.push(b);
                k = k + 1;
            }
            proof {
                assert(copy_run(out@, start + k, (length - k) as nat, size as int) == out@);
            }
            bits_left = bits_left - 1;
        } else {
            if pos >= input.len() {
                return Ok(out);
            }
            let b = input[pos];
            out.push(b);
            pos = pos + 1;
            bits_left = bits_left - 1;
        }
    }
}

proof fn lemma_copy_run_len(out: Seq<u8>, start: int, count: nat, size: int)
    requires
        out.len() <= size,
    ensures
        out.len() <= copy_run(out, start, count, size).len() <= size,
    decreases count,
{
    if count != 0 && out.len() < size {
        lemma_copy_run_len(out.push(out[start]), start + 1, (count - 1) as nat, size);
    }
}

proof fn lemma_run_from_len(
    input: Seq<u8>,
    pos: int,
    decision: u8,
    bits_left: u8,
    out: Seq<u8>,
    size: int,
)
    requires
        0 <= pos <= input.len(),
        out.len() <= size,
    ensures
        match run_from(input, pos, decision, bits_left, out, size) {
            Lz10Outcome::Done { out: o } => o.len() == size,
            Lz10Outcome::Exhausted { out: o } => o.len() <= size,
            Lz10Outcome::Fail { err } => true,
        },
    decreases input.len() - pos, bits_left,
{
    if out.len() >= size {
    } else if bits_left == 0 {
        if pos + 1 <= input.len() {
            lemma_run_from_len(input, pos + 1, input[pos], 8, out, size);
        }
    } else if (decision >> ((bits_left - 1) as u8)) & 1 == 1 {
        if pos + 2 <= input.len() {
            let word = 0x100 * (input[pos] as int) + input[pos + 1];
            let length = word / 0x1000 + 3;
            let offset = word % 0x1000;
            if offset < out.len() {
                let copied = copy_run(out, out.len() - offset - 1, length as nat, size);
                lemma_copy_run_len(out, out.len() - offset - 1, length as nat, size);
                lemma_run_from_len(input, pos + 2, decision, (bits_left - 1) as u8, copied, size);
            }
        }
    } else {
        if pos + 1 <= input.len() {
            lemma_run_from_len(
                input,
                pos + 1,
                decision,
                (bits_left - 1) as u8,
                out.push(input[pos]),
                size,
            );
        }
    }
}

/// The decompressed output never exceeds the declared decompressed size: it
/// reaches the size exactly unless the input ran out first, and a truncated
/// input only ever yields a shorter output.
pub proof fn lemma_output_never_longer_than_declared(input: Seq<u8>)
    ensures
        match lz10_spec(input) {
            Lz10Outcome::Done { out } => out.len() == le24_at(input, 1),
            Lz10Outcome::Exhausted { out } => out.len() <= le24_at(input, 1),
            Lz10Outcome::Fail { err } => true,
        },
{
    if input.len() >= 4 && input[0] == 0x10 && le24_at(input, 1) != 0 {
        lemma_run_from_len(input, 4, 0, 0, Seq::empty(), le24_at(input, 1));
    }
}

/// A back-reference decision bit met while the output is still empty always
/// fails: whatever the pointer word holds, its offset cannot address any
/// already-produced byte.
pub proof fn lemma_backref_on_empty_output(
    input: Seq<u8>,
    pos: int,
    decision: u8,
    bits_left: u8,
    size: int,
)
    requires
        0 <= pos,
        pos + 2 <= input.len(),
        1 <= bits_left <= 8,
        (decision >> ((bits_left - 1) as u8)) & 1 == 1,
        size > 0,
    ensures
        run_from(input, pos, decision, bits_left, Seq::empty(), size) == (Lz10Outcome::Fail {
            err: Lz10DecompressionError::BackReferenceOutOfRange,
        }),
{
}

/// A back-reference with offset 0 starts at the most recently written byte, so
/// it appends that single byte over and over: once per requested count, or
/// fewer if the declared size cuts the run short.
pub proof fn lemma_offset_zero_replicates_last_byte(out: Seq<u8>, count: nat, size: int)
    requires
        0 < out.len() <= size,
    ensures
        copy_run(out, out.len() - 1, count, size) == out + Seq::new(
            if out.len() + count <= size {
                count
            } else {
                (size - out.len()) as nat
            },
            |i: int| out[out.len() - 1],
        ),
    decreases count,
{
    let appended: nat = if out.len() + count <= size {
        count
    } else {
        (size - out.len()) as nat
    };
    if count == 0 || out.len() >= size {
        assert(out + Seq::new(0, |i: int| out[out.len() - 1]) =~= out);
    } else {
        let out2 = out.push(out[out.len() - 1]);
        lemma_offset_zero_replicates_last_byte(out2, (count - 1) as nat, size);
        let appended2: nat = if out2.len() + (count - 1) <= size {
            (count - 1) as nat
        } else {
            (size - out2.len()) as nat
        };
        assert(out2 + Seq::new(appended2, |i: int| out2[out2.len() - 1]) =~= out + Seq::new(
            appended,
            |i: int| out[out.len() - 1],
        ));
    }
}

/// An input whose first byte is anything but 0x10 always fails with a
/// `MagicMismatch` carrying that byte.
pub proof fn lemma_magic_mismatch(input: Seq<u8>)
    requires
        input.len() >= 1,
        input[0] != 0x10,
    ensures
        lz10_result(input) == Err::<Seq<u8>, Lz10DecompressionError>(
            Lz10DecompressionError::MagicMismatch { found: input[0] },
        ),
{
}

/// An input whose declared decompressed size is zero always fails with
/// `InvalidSize`.
pub proof fn lemma_zero_size_rejected(input: Seq<u8>)
    requires
        input.len() >= 4,
        input[0] == 0x10,
        le24_at(input, 1) == 0,
    ensures
        lz10_result(input) == Err::<Seq<u8>, Lz10DecompressionError>(
            Lz10DecompressionError::InvalidSize,
        ),
{
}

} // verus!
