//! Variable-length integers of a snapshot, and what can be wrong with one.

use vstd::prelude::*;

verus! {

/// What is wrong with a snapshot.
#[derive(Debug, PartialEq, Eq)]
pub enum SnapshotError {
    /// The input ends too early.
    UnexpectedEnd,
    /// A number is not written as one.
    InvalidInteger,
    /// A message is larger than a snapshot may hold.
    LimitExceeded,
    /// A length does not fit this machine.
    OutsideUsizeRange(u64),
    /// There are more messages than the buffer holds.
    ArrayLengthMismatch { required: usize, found: usize },
    /// Anything else, in words.
    Other(String),
}

/// What a snapshot error says.
pub enum SnapshotFailure {
    UnexpectedEnd,
    InvalidInteger,
    LimitExceeded,
    OutsideUsizeRange(u64),
    ArrayLengthMismatch { required: usize, found: usize },
    Other(Seq<char>),
}

impl View for SnapshotError {
    type V = SnapshotFailure;

    open spec fn view(&self) -> SnapshotFailure {
        match self {
            SnapshotError::UnexpectedEnd => SnapshotFailure::UnexpectedEnd,
            SnapshotError::InvalidInteger => SnapshotFailure::InvalidInteger,
            SnapshotError::LimitExceeded => SnapshotFailure::LimitExceeded,
            SnapshotError::OutsideUsizeRange(n) => SnapshotFailure::OutsideUsizeRange(*n),
            SnapshotError::ArrayLengthMismatch { required, found } => SnapshotFailure::ArrayLengthMismatch {
                required: *required,
                found: *found,
            },
            SnapshotError::Other(text) => SnapshotFailure::Other(text@),
        }
    }
}

/// The last `k` bytes of a number, the least significant one first.
pub open spec fn le_bytes(n: nat, k: nat) -> Seq<u8>
    decreases k,
{
    if k == 0 {
        Seq::empty()
    } else {
        seq![(n % 256) as u8] + le_bytes(n / 256, (k - 1) as nat)
    }
}

/// The number whose bytes stand in a row, the least significant one first.
pub open spec fn le_value(bytes: Seq<u8>) -> nat
    decreases bytes.len(),
{
    if bytes.len() == 0 {
        0
    } else {
        bytes[0] as nat + 256 * le_value(bytes.drop_first())
    }
}

/// A number as a snapshot writes it: small ones in one byte, others behind a
/// byte that tells their width.
pub open spec fn varint(n: u64) -> Seq<u8> {
    if n <= 250 {
        seq![n as u8]
    } else if n <= 0xffff {
        seq![251u8] + le_bytes(n as nat, 2)
    } else if n <= 0xffff_ffff {
        seq![252u8] + le_bytes(n as nat, 4)
    } else {
        seq![253u8] + le_bytes(n as nat, 8)
    }
}

/// How many bytes a number takes that begins with the given byte.
pub open spec fn varint_width(first: u8) -> Option<nat> {
    if first <= 250 {
        Some(1)
    } else if first == 251 {
        Some(3)
    } else if first == 252 {
        Some(5)
    } else if first == 253 {
        Some(9)
    } else {
        None
    }
}

/// The number at the start of the bytes and its width, or what is wrong with
/// it.
pub open spec fn read_varint(bytes: Seq<u8>) -> Result<(u64, nat), SnapshotFailure> {
    if bytes.len() == 0 {
        Err(SnapshotFailure::UnexpectedEnd)
    } else {
        match varint_width(bytes[0]) {
            None => Err(SnapshotFailure::InvalidInteger),
            Some(width) => if bytes.len() < width {
                Err(SnapshotFailure::UnexpectedEnd)
            } else if width == 1 {
                Ok((bytes[0] as u64, 1))
            } else {
                Ok((le_value(bytes.subrange(1, width as int)) as u64, width))
            },
        }
    }
}

/// Calls `bincode::encode_to_vec` on a number in the standard configuration.
///
/// It is claimed that this never fails and writes one byte for a number up to
/// 250, and otherwise one of the bytes 251, 252 and 253 followed by the two,
/// four or eight bytes of the number, the least significant one first.
#[verifier::external_body]
pub(crate) fn encode_number(n: u64) -> (r: Result<Vec<u8>, SnapshotError>)
    ensures
        r is Ok,
        r->Ok_0@ == varint(n),
{
    bincode::encode_to_vec(n, bincode::config::standard()).map_err(|_| SnapshotError::InvalidInteger)
}

/// Calls `bincode::decode_from_slice` for a number in the standard
/// configuration, on the bytes from `at` on.
///
/// It is claimed that this reads the number that the first byte announces and
/// tells its width, that it fails for want of bytes exactly when there are
/// fewer than that, and that the only other failure is a first byte above 253.
#[verifier::external_body]
pub(crate) fn decode_number(bytes: &Vec<u8>, at: usize) -> (r: Result<(u64, usize), SnapshotError>)
    requires
        at <= bytes@.len(),
    ensures
        match (r, read_varint(bytes@.skip(at as int))) {
            (Ok(got), Ok(told)) => got.0 == told.0 && got.1 == told.1,
            (Err(e), Err(told)) => e@ == told,
            _ => false,
        },
{
    match bincode::decode_from_slice::<u64, _>(&bytes[at..], bincode::config::standard()) {
        Ok(got) => Ok(got),
        Err(bincode::error::DecodeError::UnexpectedEnd { .. }) => Err(SnapshotError::UnexpectedEnd),
        Err(_) => Err(SnapshotError::InvalidInteger),
    }
}

/// `256` to the power `k`.
pub open spec fn pow256(k: nat) -> nat
    decreases k,
{
    if k == 0 {
        1
    } else {
        256 * pow256((k - 1) as nat)
    }
}

proof fn lemma_le(n: nat, k: nat)
    requires
        n < pow256(k),
    ensures
        le_bytes(n, k).len() == k,
        le_value(le_bytes(n, k)) == n,
    decreases k,
{
    if k > 0 {
        lemma_le(n / 256, (k - 1) as nat);
        let rest = le_bytes(n / 256, (k - 1) as nat);
        assert((seq![(n % 256) as u8] + rest).drop_first() =~= rest);
    }
}

/// Reading a number gives back what was written, whatever follows it.
pub proof fn numbers_round_trip(n: u64, rest: Seq<u8>)
    ensures
        read_varint(varint(n) + rest) == Ok::<(u64, nat), SnapshotFailure>((n, varint(n).len())),
{
    let bytes = varint(n) + rest;
    let k: nat = if n <= 250 {
        0
    } else if n <= 0xffff {
        2
    } else if n <= 0xffff_ffff {
        4
    } else {
        8
    };
    if k > 0 {
        reveal_with_fuel(pow256, 9);
        lemma_le(n as nat, k);
        assert(bytes.subrange(1, (k + 1) as int) =~= le_bytes(n as nat, k));
    }
}

/// The bytes of a number stand with the least significant one first.
pub proof fn the_least_significant_byte_is_first(n: nat, k: nat, i: int)
    requires
        0 <= i < k,
    ensures
        le_bytes(n, k).len() == k,
        le_bytes(n, k)[i] == (n / pow256(i as nat)) % 256,
    decreases k,
{
    lemma_le_len(n / 256, (k - 1) as nat);
    if i > 0 {
        the_least_significant_byte_is_first(n / 256, (k - 1) as nat, i - 1);
        let p = pow256((i - 1) as nat);
        lemma_pow256_positive((i - 1) as nat);
        vstd::arithmetic::div_mod::lemma_div_denominator(n as int, 256, p as int);
        assert(le_bytes(n, k)[i] == le_bytes(n / 256, (k - 1) as nat)[i - 1]);
        assert(pow256(i as nat) == 256 * p);
    } else {
        assert(pow256(0) == 1);
        assert(n / 1 == n);
        assert(le_bytes(n, k)[0] == (n % 256) as u8);
    }
}

proof fn lemma_pow256_positive(k: nat)
    ensures
        pow256(k) > 0,
    decreases k,
{
    if k > 0 {
        lemma_pow256_positive((k - 1) as nat);
    }
}

proof fn lemma_le_len(n: nat, k: nat)
    ensures
        le_bytes(n, k).len() == k,
    decreases k,
{
    if k > 0 {
        lemma_le_len(n / 256, (k - 1) as nat);
    }
}

/// A number up to 250 is its own byte; a greater one takes a byte that tells its
/// width and two, four or eight more, as few as hold it.
pub proof fn numbers_take_as_few_bytes_as_hold_them(n: u64)
    ensures
        n <= 250 ==> varint(n).len() == 1 && varint(n)[0] == n,
        250 < n < 0x1_0000 ==> varint(n).len() == 3 && varint(n)[0] == 251,
        0x1_0000 <= n < 0x1_0000_0000 ==> varint(n).len() == 5 && varint(n)[0] == 252,
        0x1_0000_0000 <= n ==> varint(n).len() == 9 && varint(n)[0] == 253,
        n > 250 ==> varint(n).skip(1) == le_bytes(n as nat, (varint(n).len() - 1) as nat),
{
    lemma_le_len(n as nat, 2);
    lemma_le_len(n as nat, 4);
    lemma_le_len(n as nat, 8);
    if n > 250 {
        assert(varint(n).skip(1) =~= le_bytes(n as nat, (varint(n).len() - 1) as nat));
    }
}

} // verus!
