//! A canonical variable-length encoding for unsigned 64-bit integers.
//!
//! Every `u64` has exactly one canonical encoding of 1 to 9 bytes, and the
//! first byte alone determines the total encoded length. Values below 248
//! are a single byte; larger values get a header byte in `248..=255` that
//! names the frame length, followed by the value in big-endian order.

use vstd::prelude::*;
use vstd::arithmetic::div_mod::{lemma_div_denominator, lemma_fundamental_div_mod};

verus! {

/// Everything that can go wrong when decoding a varu64.
#[derive(Debug, Copy, Clone, PartialEq, Eq, PartialOrd, Ord, Hash, Structural)]
pub enum DecodeError {
    /// The encoding is not the shortest possible one for the number.
    /// Contains the encoded number.
    NonCanonical(u64),
    /// The slice contains less data than the encoding needs.
    UnexpectedEndOfInput,
}

/// 256 raised to the power `k`: the number of values that `k` bytes can hold.
pub open spec fn pow256(k: nat) -> nat
    decreases k,
{
    if k == 0 {
        1
    } else {
        256 * pow256((k - 1) as nat)
    }
}

/// How many bytes the canonical encoding of `n` occupies: one for values
/// below 248, otherwise one header byte plus the shortest big-endian
/// representation of the value.
pub open spec fn spec_encoding_length(n: u64) -> int {
    if n < 248 {
        1
    } else if n < 0x100 {
        2
    } else if n < 0x10000 {
        3
    } else if n < 0x1000000 {
        4
    } else if n < 0x100000000 {
        5
    } else if n < 0x10000000000 {
        6
    } else if n < 0x1000000000000 {
        7
    } else if n < 0x100000000000000 {
        8
    } else {
        9
    }
}

/// The `k` least significant bytes of `n`, in big-endian order.
pub open spec fn be_bytes(n: nat, k: nat) -> Seq<u8>
    decreases k,
{
    if k == 0 {
        Seq::empty()
    } else {
        be_bytes(n / 256, (k - 1) as nat).push((n % 256) as u8)
    }
}

/// The unsigned integer that a byte string denotes in big-endian order.
pub open spec fn be_val(s: Seq<u8>) -> nat
    decreases s.len(),
{
    if s.len() == 0 {
        0
    } else {
        be_val(s.drop_last()) * 256 + s.last() as nat
    }
}

/// The canonical encoding of `n`: the value itself for values below 248,
/// otherwise a header byte naming the frame length followed by the value's
/// shortest big-endian representation.
pub open spec fn spec_encode(n: u64) -> Seq<u8> {
    if n < 248 {
        seq![n as u8]
    } else {
        seq![(246 + spec_encoding_length(n)) as u8] + be_bytes(
            n as nat,
            (spec_encoding_length(n) - 1) as nat,
        )
    }
}

/// What decoding yields on `s`: the value and the unconsumed rest, or an
/// error and the rest at the point of failure. A missing byte is reported
/// as `UnexpectedEndOfInput` with the empty tail that was actually there,
/// before any canonicity judgement; a complete frame longer than the
/// value's canonical encoding is reported as `NonCanonical`, with the full
/// frame consumed so that a caller can resynchronize on the next one.
pub open spec fn spec_decode(s: Seq<u8>) -> Result<(u64, Seq<u8>), (DecodeError, Seq<u8>)> {
    if s.len() == 0 {
        Err((DecodeError::UnexpectedEndOfInput, s))
    } else if s[0] < 248 {
        Ok((s[0] as u64, s.skip(1)))
    } else {
        let len = s[0] - 246;
        if s.len() < len {
            Err((DecodeError::UnexpectedEndOfInput, Seq::empty()))
        } else {
            let v = be_val(s.subrange(1, len)) as u64;
            if len > spec_encoding_length(v) {
                Err((DecodeError::NonCanonical(v), s.skip(len)))
            } else {
                Ok((v, s.skip(len)))
            }
        }
    }
}

/// Return how many bytes the encoding of `n` will take up.
pub fn encoding_length(n: u64) -> (r: usize)
    ensures
        r == spec_encoding_length(n),
{
    if n < 248 {
        1
    } else if n < 256 {
        2
    } else if n < 65536 {
        3
    } else if n < 16777216 {
        4
    } else if n < 4294967296 {
        5
    } else if n < 1099511627776 {
        6
    } else if n < 281474976710656 {
        7
    } else if n < 72057594037927936 {
        8
    } else {
        9
    }
}

/// Encodes `n` into the output buffer, returning how many bytes have been
/// written: the single byte `n` for values below 248, otherwise the header
/// byte naming the frame length followed by the value in big-endian order.
///
/// The buffer must be large enough to hold the encoding.
pub fn encode(n: u64, out: &mut [u8]) -> (written: usize)
    requires
        spec_encoding_length(n) <= old(out)@.len(),
    ensures
        written == spec_encoding_length(n),
        final(out)@.len() == old(out)@.len(),
        final(out)@.subrange(0, written as int) == spec_encode(n),
        final(out)@.skip(written as int) == old(out)@.skip(written as int),
{
    if n < 248 {
        out[0] = n as u8;
        proof {
            assert(out@.subrange(0, 1) =~= spec_encode(n));
            assert(out@.skip(1) =~= old(out)@.skip(1));
        }
        1
    } else {
        let len = encoding_length(n);
        out[0] = 246 + (len as u8);
        let ghost headered = out@;
        write_bytes(n, len - 1, out);
        proof {
            assert(out@.subrange(1, len as int) == be_bytes(n as nat, (len - 1) as nat));
            assert(out@[0] == headered[0]);
            assert(out@.subrange(0, len as int) =~= spec_encode(n)) by {
                assert(forall|j: int|
                    1 <= j < len ==> out@.subrange(0, len as int)[j] == out@.subrange(
                        1,
                        len as int,
                    )[j - 1]);
            }
            assert(out@.skip(len as int) =~= old(out)@.skip(len as int));
        }
        len
    }
}

// Write the k least significant bytes of n into out[1..=k], in big-endian
// byteorder, leaving the header byte and everything past the payload alone.
fn write_bytes(n: u64, k: usize, out: &mut [u8])
    requires
        1 <= k <= 8,
        k + 1 <= old(out)@.len(),
    ensures
        final(out)@.len() == old(out)@.len(),
        final(out)@.subrange(1, k + 1) == be_bytes(n as nat, k as nat),
        final(out)@[0] == old(out)@[0],
        final(out)@.skip(k + 1) == old(out)@.skip(k + 1),
{
    let mut m: u64 = n;
    let mut i: usize = 0;
    proof {
        assert(pow256(0) == 1);
        assert((n as nat) / 1 == n as nat);
    }
    while i < k
        invariant
            1 <= k <= 8,
            k + 1 <= out@.len(),
            out@.len() == old(out)@.len(),
            0 <= i <= k,
            m as nat == (n as nat) / pow256(i as nat),
            forall|t: int|
                0 <= t < i ==> out@[k - t] == (((n as nat) / #[trigger] pow256(t as nat))
                    % 256) as u8,
            forall|j: int|
                0 <= j < out@.len() && !(k - i < j <= k) ==> out@[j] == old(out)@[j],
        decreases k - i,
    {
        let idx = k - i;
        out[idx] = (m % 256) as u8;
        proof {
            assert(pow256((i + 1) as nat) == 256 * pow256(i as nat));
            lemma_pow256_increases(0, i as nat);
            assert(pow256(0) == 1);
            lemma_div_denominator(n as int, pow256(i as nat) as int, 256);
        }
        m = m / 256;
        i = i + 1;
    }
    proof {
        assert forall|j: int| 1 <= j <= k implies out@[j] == be_bytes(n as nat, k as nat)[
            j - 1
        ] by {
            lemma_be_bytes_index(n as nat, k as nat, j - 1);
            assert(out@[j] == (((n as nat) / pow256((k - j) as nat)) % 256) as u8);
        }
        lemma_be_bytes_len(n as nat, k as nat);
        assert(out@.subrange(1, k + 1) =~= be_bytes(n as nat, k as nat));
        assert(out@.skip(k + 1) =~= old(out)@.skip(k + 1));
    }
}

/// Declares `std::io::Error`, the error a sink reports, so that it can be
/// handed back unchanged through `encode_write`. It is opaque here: nothing
/// is assumed of its contents.
#[verifier::external_type_specification]
#[verifier::external_body]
pub struct ExIoError(std::io::Error);

/// Relies on `std::io::Write::write_all`: it hands every byte of `buf` to
/// the sink, or reports the sink's error. Nothing is promised of the
/// outcome, since it is the sink's alone.
#[verifier::external_body]
fn write_all_to<W: std::io::Write>(w: &mut W, buf: &[u8]) -> (r: Result<(), std::io::Error>) {
    w.write_all(buf)
}

/// Encodes `n` into the writer, returning how many bytes have been written.
/// On success that count is exactly the encoding's length; a sink failure
/// is handed back unchanged.
pub fn encode_write<W: std::io::Write>(n: u64, mut w: W) -> (r: Result<usize, std::io::Error>)
    ensures
        r matches Ok(written) ==> written == spec_encoding_length(n),
{
    let mut tmp: Vec<u8> = vec![0u8, 0, 0, 0, 0, 0, 0, 0, 0];
    let written = encode(n, tmp.as_mut_slice());
    let buf = vstd::slice::slice_subrange(tmp.as_slice(), 0, written);
    match write_all_to(&mut w, buf) {
        Ok(()) => Ok(written),
        Err(e) => Err(e),
    }
}

/// Decode a `u64` from the `input` buffer, returning the number and the
/// remaining bytes.
///
/// # Errors
/// On error, this also returns the remaining bytes. In case of noncanonical
/// data (encodings that are valid except they are not the smallest possible
/// encoding), the full frame is parsed and consumed, even if the
/// non-canonicity could be detected early on.
///
/// If there is not enough input data, an `UnexpectedEndOfInput` error is
/// returned, never a `NonCanonical` error (even if the partial input could
/// already be detected to be noncanonical).
pub fn decode(input: &[u8]) -> (r: Result<(u64, &[u8]), (DecodeError, &[u8])>)
    ensures
        match r {
            Ok((value, rest)) => spec_decode(input@) == Ok::<(u64, Seq<u8>), (DecodeError, Seq<
                u8,
            >)>((value, rest@)),
            Err((e, rest)) => spec_decode(input@) == Err::<(u64, Seq<u8>), (DecodeError, Seq<
                u8,
            >)>((e, rest@)),
        },
{
    if input.len() == 0 {
        return Err((DecodeError::UnexpectedEndOfInput, input));
    }
    let first = input[0];

    if first >= 248 {
        // The header byte names the total frame length: one byte for the
        // header plus the value of its three least significant bits
        // incremented by one.
        let length: usize = (first as usize) - 246;

        if input.len() < length {
            // The frame is truncated: report the tail that is actually
            // there, at the position of the first missing byte.
            let rest = vstd::slice::slice_subrange(input, input.len(), input.len());
            proof {
                assert(rest@ =~= Seq::<u8>::empty());
            }
            return Err((DecodeError::UnexpectedEndOfInput, rest));
        }

        let mut value: u64 = 0;
        let mut i: usize = 1;
        proof {
            assert(input@.subrange(1, 1) =~= Seq::<u8>::empty());
            assert(pow256(0) == 1);
        }
        while i < length
            invariant
                2 <= length <= 9,
                length <= input@.len(),
                1 <= i <= length,
                value as nat == be_val(input@.subrange(1, i as int)),
                (value as nat) < pow256((i - 1) as nat),
            decreases length - i,
        {
            proof {
                lemma_pow256_increases((i - 1) as nat, 7);
                lemma_pow256_values();
                assert(input@.subrange(1, i + 1).drop_last() =~= input@.subrange(1, i as int));
            }
            value = value * 256 + (input[i] as u64);
            i = i + 1;
        }

        let rest = vstd::slice::slice_subrange(input, length, input.len());
        proof {
            assert(rest@ =~= input@.skip(length as int));
        }
        if length > encoding_length(value) {
            Err((DecodeError::NonCanonical(value), rest))
        } else {
            Ok((value, rest))
        }
    } else {
        // The header byte is the value itself.
        let rest = vstd::slice::slice_subrange(input, 1, input.len());
        proof {
            assert(rest@ =~= input@.skip(1));
        }
        Ok((first as u64, rest))
    }
}

/// The powers of 256 that the length table rests on, written out.
proof fn lemma_pow256_values()
    ensures
        pow256(0) == 1,
        pow256(1) == 0x100,
        pow256(2) == 0x10000,
        pow256(3) == 0x1000000,
        pow256(4) == 0x100000000,
        pow256(5) == 0x10000000000,
        pow256(6) == 0x1000000000000,
        pow256(7) == 0x100000000000000,
        pow256(8) == 0x10000000000000000,
{
    assert(pow256(0) == 1);
    assert(pow256(1) == 0x100);
    assert(pow256(2) == 0x10000);
    assert(pow256(3) == 0x1000000);
    assert(pow256(4) == 0x100000000);
    assert(pow256(5) == 0x10000000000);
    assert(pow256(6) == 0x1000000000000);
    assert(pow256(7) == 0x100000000000000);
    assert(pow256(8) == 0x10000000000000000);
}

/// `pow256` grows with its exponent.
proof fn lemma_pow256_increases(a: nat, b: nat)
    requires
        a <= b,
    ensures
        pow256(a) <= pow256(b),
    decreases b,
{
    if a < b {
        lemma_pow256_increases(a, (b - 1) as nat);
        assert(pow256(b) == 256 * pow256((b - 1) as nat));
    }
}

/// `be_bytes` yields exactly `k` bytes.
proof fn lemma_be_bytes_len(n: nat, k: nat)
    ensures
        be_bytes(n, k).len() == k,
    decreases k,
{
    if k > 0 {
        lemma_be_bytes_len(n / 256, (k - 1) as nat);
    }
}

/// The byte at position `j` of `be_bytes(n, k)` is the `(k - 1 - j)`-th
/// least significant byte of `n`.
proof fn lemma_be_bytes_index(n: nat, k: nat, j: int)
    requires
        0 <= j < k,
    ensures
        be_bytes(n, k).len() == k,
        be_bytes(n, k)[j] == ((n / pow256((k - 1 - j) as nat)) % 256) as u8,
    decreases k,
{
    lemma_be_bytes_len(n, k);
    lemma_be_bytes_len(n / 256, (k - 1) as nat);
    if j == k - 1 {
        assert(be_bytes(n, k)[j] == (n % 256) as u8);
        assert(pow256(0) == 1);
        assert(n / 1 == n);
    } else {
        lemma_be_bytes_index(n / 256, (k - 1) as nat, j);
        assert(be_bytes(n, k)[j] == be_bytes(n / 256, (k - 1) as nat)[j]);
        let e = (k - 2 - j) as nat;
        lemma_pow256_increases(0, e);
        assert(pow256(0) == 1);
        assert(pow256((k - 1 - j) as nat) == 256 * pow256(e));
        lemma_div_denominator(n as int, 256, pow256(e) as int);
        assert((n / 256) / pow256(e) == n / (256 * pow256(e)));
    }
}

/// Writing `n` as `k` big-endian bytes and reading them back restores `n`,
/// provided `n` fits in `k` bytes.
proof fn lemma_be_val_of_be_bytes(n: nat, k: nat)
    requires
        n < pow256(k),
    ensures
        be_val(be_bytes(n, k)) == n,
    decreases k,
{
    if k == 0 {
        assert(n == 0);
    } else {
        let rest = be_bytes(n / 256, (k - 1) as nat);
        lemma_be_bytes_len(n / 256, (k - 1) as nat);
        assert(be_bytes(n, k) == rest.push((n % 256) as u8));
        assert(rest.push((n % 256) as u8).drop_last() =~= rest);
        assert(pow256(k) == 256 * pow256((k - 1) as nat));
        lemma_fundamental_div_mod(n as int, 256);
        assert(n / 256 < pow256((k - 1) as nat)) by {
            if n / 256 >= pow256((k - 1) as nat) {
                assert(256 * (n as int / 256) >= 256 * pow256((k - 1) as nat));
            }
        }
        lemma_be_val_of_be_bytes(n / 256, (k - 1) as nat);
        assert(be_val(be_bytes(n, k)) == be_val(rest) * 256 + (n % 256));
    }
}

/// Where each length bucket begins and ends: a value of canonical length
/// `L >= 2` fits in `L - 1` bytes but, beyond the first bucket, not in
/// `L - 2`.
proof fn lemma_encoding_length_bounds(n: u64)
    ensures
        1 <= spec_encoding_length(n) <= 9,
        n < 248 <==> spec_encoding_length(n) == 1,
        spec_encoding_length(n) >= 2 ==> (n as nat) < pow256((spec_encoding_length(n) - 1) as nat),
        spec_encoding_length(n) >= 3 ==> (n as nat) >= pow256((spec_encoding_length(n) - 2) as nat),
        spec_encoding_length(n) == 2 ==> n >= 248,
{
    lemma_pow256_values();
}

/// The decimal digit string that std's formatting renders a `u64` as: a
/// function of the value alone.
pub uninterp spec fn decimal_digits(n: u64) -> Seq<char>;

/// Relies on std's `format!`: it appends the decimal rendering of `n` to
/// the literal prefix.
#[verifier::external_body]
fn render_non_canonical(n: u64) -> (r: String)
    ensures
        r@ == "Invalid varu64: NonCanonical encoding of "@ + decimal_digits(n),
{
    format!("Invalid varu64: NonCanonical encoding of {}", n)
}

impl DecodeError {
    /// A human-readable rendering: it names the kind of failure and, for a
    /// non-canonical encoding, the value that was decoded.
    pub fn message(&self) -> (r: String)
        ensures
            r@ == match *self {
                DecodeError::NonCanonical(n) => "Invalid varu64: NonCanonical encoding of "@
                    + decimal_digits(n),
                DecodeError::UnexpectedEndOfInput => "Invalid varu64: Not enough input bytes"@,
            },
    {
        match self {
            DecodeError::NonCanonical(n) => render_non_canonical(*n),
            DecodeError::UnexpectedEndOfInput => "Invalid varu64: Not enough input bytes".to_owned(),
        }
    }
}

/// Law: the canonical encoding of a value occupies exactly
/// `spec_encoding_length` bytes, so `encode` writes as many bytes as
/// `encoding_length` announces.
pub proof fn lemma_encode_length(n: u64)
    ensures
        spec_encode(n).len() == spec_encoding_length(n),
{
    lemma_encoding_length_bounds(n);
    if n >= 248 {
        lemma_be_bytes_len(n as nat, (spec_encoding_length(n) - 1) as nat);
    }
}

/// Law: decoding a buffer that starts with the canonical encoding of `v`
/// succeeds, yields `v`, never reports `NonCanonical`, and consumes exactly
/// the encoding's bytes, leaving whatever follows untouched.
pub proof fn lemma_decode_encode(v: u64, rest: Seq<u8>)
    ensures
        spec_decode(spec_encode(v) + rest) == Ok::<(u64, Seq<u8>), (DecodeError, Seq<u8>)>(
            (v, rest),
        ),
{
    let s = spec_encode(v) + rest;
    lemma_encode_length(v);
    lemma_encoding_length_bounds(v);
    if v < 248 {
        assert(s[0] == v as u8);
        assert(s.skip(1) =~= rest);
    } else {
        let len = spec_encoding_length(v);
        assert(s[0] == (246 + len) as u8);
        assert(s[0] - 246 == len);
        assert(s.len() == len + rest.len());
        lemma_be_bytes_len(v as nat, (len - 1) as nat);
        assert(s.subrange(1, len) =~= be_bytes(v as nat, (len - 1) as nat));
        lemma_be_val_of_be_bytes(v as nat, (len - 1) as nat);
        assert(be_val(s.subrange(1, len)) == v as nat);
        assert(s.skip(len) =~= rest);
    }
}

/// Law: round trip. Decoding the canonical encoding of any value yields
/// the value back, with nothing left over.
pub proof fn lemma_round_trip(v: u64)
    ensures
        spec_decode(spec_encode(v)) == Ok::<(u64, Seq<u8>), (DecodeError, Seq<u8>)>(
            (v, Seq::<u8>::empty()),
        ),
{
    lemma_decode_encode(v, Seq::<u8>::empty());
    assert(spec_encode(v) + Seq::<u8>::empty() =~= spec_encode(v));
}

/// Law: the encoded length never shrinks as the value grows.
pub proof fn lemma_encoding_length_monotonic(a: u64, b: u64)
    requires
        a <= b,
    ensures
        spec_encoding_length(a) <= spec_encoding_length(b),
{
}

/// Law: truncation takes priority over canonicity. Any strict prefix of a
/// well-framed multi-byte frame decodes to `UnexpectedEndOfInput` with an
/// empty remainder, even where the complete frame would have been
/// non-canonical.
pub proof fn lemma_truncation_priority(s: Seq<u8>, k: int)
    requires
        s.len() >= 1,
        s[0] >= 248,
        s[0] - 246 <= s.len(),
        0 <= k < s[0] - 246,
    ensures
        spec_decode(s.take(k)) == Err::<(u64, Seq<u8>), (DecodeError, Seq<u8>)>(
            (DecodeError::UnexpectedEndOfInput, Seq::<u8>::empty()),
        ),
{
    let p = s.take(k);
    if k == 0 {
        assert(p =~= Seq::<u8>::empty());
    } else {
        assert(p[0] == s[0]);
        assert(p.len() == k < s[0] - 246);
    }
}

/// Law: sequential decoding. Two canonical encodings laid back to back
/// decode to the two values in order, each frame consuming exactly its own
/// bytes.
pub proof fn lemma_sequential_decode(a: u64, b: u64)
    ensures
        spec_decode(spec_encode(a) + spec_encode(b)) == Ok::<(u64, Seq<u8>), (DecodeError, Seq<
            u8,
        >)>((a, spec_encode(b))),
        spec_decode(spec_encode(b)) == Ok::<(u64, Seq<u8>), (DecodeError, Seq<u8>)>(
            (b, Seq::<u8>::empty()),
        ),
{
    lemma_decode_encode(a, spec_encode(b));
    lemma_round_trip(b);
}

} // verus!
