//! NUL-terminated byte runs and the text they hold.
//!
//! A run stands for the memory that an argument pointer leads to: the bytes
//! from the pointer on. Its text is what comes before the first NUL byte.

use vstd::prelude::*;
use vstd::slice::slice_subrange;
use vstd::slice::slice_to_vec;
use vstd::utf8::decode_utf8;
use vstd::utf8::decode_utf8_encode_utf8;
use vstd::utf8::encode_utf8;
use vstd::utf8::encode_utf8_decode_utf8;
use vstd::utf8::valid_utf8;

verus! {

/// Why a run holds no text.
#[derive(Debug, Clone, Copy, PartialEq, Eq, Structural)]
pub enum DecodeFault {
    /// The run holds no NUL byte.
    Unterminated,
    /// The bytes before the first NUL byte are not well-formed UTF-8.
    InvalidText,
}

/// `n` is the place of the first NUL byte of `run`.
pub open spec fn is_first_nul(run: Seq<u8>, n: int) -> bool {
    &&& 0 <= n < run.len()
    &&& run[n] == 0
    &&& forall|i: int| 0 <= i < n ==> run[i] != 0
}

/// `run` holds a NUL byte.
pub open spec fn is_terminated(run: Seq<u8>) -> bool {
    exists|n: int| is_first_nul(run, n)
}

/// The number of bytes before the first NUL byte of a terminated run.
pub open spec fn text_len(run: Seq<u8>) -> int
    recommends
        is_terminated(run),
{
    choose|n: int| is_first_nul(run, n)
}

/// The bytes before the first NUL byte of a terminated run.
pub open spec fn text_bytes(run: Seq<u8>) -> Seq<u8>
    recommends
        is_terminated(run),
{
    run.take(text_len(run))
}

/// The text that a run holds, or the reason why it holds none.
pub open spec fn decoded(run: Seq<u8>) -> Result<Seq<char>, DecodeFault> {
    if !is_terminated(run) {
        Err(DecodeFault::Unterminated)
    } else if !valid_utf8(text_bytes(run)) {
        Err(DecodeFault::InvalidText)
    } else {
        Ok(decode_utf8(text_bytes(run)))
    }
}

/// The characters of a decoded string, or the fault that stood in its place.
pub open spec fn outcome_view(outcome: Result<String, DecodeFault>) -> Result<
    Seq<char>,
    DecodeFault,
> {
    match outcome {
        Ok(text) => Ok(text@),
        Err(fault) => Err(fault),
    }
}

/// A run has one first NUL byte at most, so `text_len` is the place of any
/// NUL byte that no other NUL byte precedes.
pub proof fn lemma_first_nul_unique(run: Seq<u8>, n: int)
    requires
        is_first_nul(run, n),
    ensures
        is_terminated(run),
        text_len(run) == n,
        text_bytes(run) == run.take(n),
{
    let m = text_len(run);
    assert(is_first_nul(run, m));
    if m < n {
        assert(run[m] != 0);
    }
    if n < m {
        assert(run[n] != 0);
    }
}

/// Text that is well-formed UTF-8 and holds no NUL byte, followed by a NUL
/// byte and by anything else, decodes to the characters that it encodes, and
/// those characters encode back to the very same bytes.
pub proof fn lemma_text_round_trip(text: Seq<u8>, rest: Seq<u8>)
    requires
        valid_utf8(text),
        forall|i: int| 0 <= i < text.len() ==> text[i] != 0,
    ensures
        text_bytes(text + seq![0u8] + rest) == text,
        decoded(text + seq![0u8] + rest) == Ok::<Seq<char>, DecodeFault>(decode_utf8(text)),
        encode_utf8(decode_utf8(text)) == text,
{
    let run = text + seq![0u8] + rest;
    assert(is_first_nul(run, text.len() as int));
    lemma_first_nul_unique(run, text.len() as int);
    assert(run.take(text.len() as int) =~= text);
    decode_utf8_encode_utf8(text);
}

/// Bytes that are not well-formed UTF-8 and hold no NUL byte, followed by a
/// NUL byte and by anything else, decode to no characters at all.
pub proof fn lemma_invalid_text_is_a_fault(text: Seq<u8>, rest: Seq<u8>)
    requires
        !valid_utf8(text),
        forall|i: int| 0 <= i < text.len() ==> text[i] != 0,
    ensures
        decoded(text + seq![0u8] + rest) == Err::<Seq<char>, DecodeFault>(DecodeFault::InvalidText),
{
    let run = text + seq![0u8] + rest;
    assert(is_first_nul(run, text.len() as int));
    lemma_first_nul_unique(run, text.len() as int);
    assert(run.take(text.len() as int) =~= text);
}

/// Counts the bytes of `run` that come before its first NUL byte.
///
/// Returns `None` where `run` holds no NUL byte at all.
pub fn strlen(run: &[u8]) -> (res: Option<usize>)
    ensures
        res is Some <==> is_terminated(run@),
        res matches Some(n) ==> n == text_len(run@) && is_first_nul(run@, n as int),
{
    let mut count: usize = 0;
    while count < run.len()
        invariant
            count <= run@.len(),
            forall|i: int| 0 <= i < count ==> run@[i] != 0,
        decreases run@.len() - count,
    {
        if run[count] == 0 {
            proof {
                lemma_first_nul_unique(run@, count as int);
            }
            return Some(count);
        }
        count += 1;
    }
    assert(!is_terminated(run@)) by {
        if is_terminated(run@) {
            assert(run@[text_len(run@)] == 0);
        }
    }
    None
}

/// `String::from_utf8` of the standard library, taken on trust: Verus does
/// not read its body. The contract says what the documentation of the standard
/// library says: the bytes become a string exactly when they are well-formed
/// UTF-8, and that string is made of the very bytes that were handed in.
#[verifier::external_body]
fn string_from_utf8(bytes: Vec<u8>) -> (res: Option<String>)
    ensures
        res is Some <==> valid_utf8(bytes@),
        res matches Some(text) ==> encode_utf8(text@) == bytes@,
{
    match String::from_utf8(bytes) {
        Ok(text) => Some(text),
        Err(_) => None,
    }
}

/// Decodes the text of one run into a string of its own.
///
/// A string comes back where the run holds a NUL byte and the bytes before
/// the first one are well-formed UTF-8, and it encodes to exactly those
/// bytes. For any other run the fault comes back and no string:
/// `Unterminated` where the run holds no NUL byte, `InvalidText` where the
/// bytes before the first one are not well-formed UTF-8.
pub fn decode_arg(run: &[u8]) -> (res: Result<String, DecodeFault>)
    ensures
        outcome_view(res) == decoded(run@),
        res matches Ok(text) ==> encode_utf8(text@) == text_bytes(run@),
{
    match strlen(run) {
        None => Err(DecodeFault::Unterminated),
        Some(len) => {
            let bytes = slice_to_vec(slice_subrange(run, 0, len));
            assert(bytes@ == text_bytes(run@));
            match string_from_utf8(bytes) {
                Some(text) => {
                    proof {
                        encode_utf8_decode_utf8(text@);
                    }
                    Ok(text)
                },
                None => Err(DecodeFault::InvalidText),
            }
        },
    }
}

} // verus!
