//! Base64, in which Arrow streams come in JSON.

use vstd::prelude::*;
use vstd::string::StringExecFns;
use base64::engine::general_purpose::STANDARD;
use base64::Engine;
use crate::serve::{refuses, AppError, PutColumnarReq};
use crate::serve::queue::WriteReq;

verus! {

/// The character for a six-bit value.
pub open spec fn base64_char(v: int) -> char {
    if v < 26 {
        ('A' as int + v) as char
    } else if v < 52 {
        ('a' as int + v - 26) as char
    } else if v < 62 {
        ('0' as int + v - 52) as char
    } else if v == 62 {
        '+'
    } else {
        '/'
    }
}

/// Bytes in base64: four characters for three bytes, the last group filled up.
pub open spec fn base64_of(b: Seq<u8>) -> Seq<char>
    decreases b.len(),
{
    if b.len() == 0 {
        Seq::empty()
    } else if b.len() == 1 {
        seq![
            base64_char(b[0] as int / 4),
            base64_char(b[0] as int % 4 * 16),
            '=',
            '=',
        ]
    } else if b.len() == 2 {
        seq![
            base64_char(b[0] as int / 4),
            base64_char(b[0] as int % 4 * 16 + b[1] as int / 16),
            base64_char(b[1] as int % 16 * 4),
            '=',
        ]
    } else {
        seq![
            base64_char(b[0] as int / 4),
            base64_char(b[0] as int % 4 * 16 + b[1] as int / 16),
            base64_char(b[1] as int % 16 * 4 + b[2] as int / 64),
            base64_char(b[2] as int % 64),
        ] + base64_of(b.skip(3))
    }
}

/// The words of `base64::DecodeError` for a text that the standard engine does not decode.
pub uninterp spec fn base64_fault(text: Seq<char>) -> Seq<char>;

/// `base64::Engine::decode` of `base64::engine::general_purpose::STANDARD`. The engine takes
/// the standard alphabet only, asks for the padding in full and for unused bits to be zero, so
/// it decodes exactly the texts that bytes are encoded to, each to those bytes. Any other text
/// it refuses, in words that depend on the text alone.
#[verifier::external_body]
fn decode(text: &str) -> (r: Result<Vec<u8>, String>)
    ensures
        match r {
            Ok(bytes) => base64_of(bytes@) == text@,
            Err(words) => words@ == base64_fault(text@) && forall|b: Seq<u8>| #[trigger]
                base64_of(b) != text@,
        },
{
    STANDARD.decode(text).map_err(|e| e.to_string())
}

/// Decodes base64; a text that is none is answered with 400.
pub fn base64_decode(text: &str) -> (r: Result<Vec<u8>, AppError>)
    ensures
        match r {
            Ok(bytes) => base64_of(bytes@) == text@,
            Err(e) => refuses(e, 400, "base64 decode: "@ + base64_fault(text@)) && forall|
                b: Seq<u8>,
            | #[trigger]
                base64_of(b) != text@,
        },
{
    decoded(decode(text))
}

/// What comes of a text that was decoded or not.
pub fn decoded(outcome: Result<Vec<u8>, String>) -> (r: Result<Vec<u8>, AppError>)
    ensures
        match outcome {
            Ok(bytes) => r == Ok::<Vec<u8>, AppError>(bytes),
            Err(words) => r is Err && refuses(r->Err_0, 400, "base64 decode: "@ + words@),
        },
{
    match outcome {
        Ok(bytes) => Ok(bytes),
        Err(words) => {
            let mut text: String = String::from_str("base64 decode: ");
            text.append(words.as_str());
            Err(AppError(400, text))
        },
    }
}

/// The write that a request to write a table asks for.
pub fn columnar_write(req: PutColumnarReq) -> (r: Result<WriteReq, AppError>)
    ensures
        match r {
            Ok(w) => w is PutColumnar && w->table_id == req.table_id && base64_of(w->ipc@)
                == req.ipc_base64@,
            Err(e) => refuses(e, 400, "base64 decode: "@ + base64_fault(req.ipc_base64@)) && forall|
                b: Seq<u8>,
            | #[trigger]
                base64_of(b) != req.ipc_base64@,
        },
{
    let ipc: Vec<u8> = base64_decode(req.ipc_base64.as_str())?;
    Ok(WriteReq::PutColumnar { table_id: req.table_id, ipc })
}

proof fn lemma_chars(v: int, w: int)
    requires
        0 <= v < 64,
        0 <= w < 64,
    ensures
        base64_char(v) != '=',
        base64_char(v) == base64_char(w) ==> v == w,
{
}

/// No two byte strings have the same base64, so what was encoded is what is decoded.
pub proof fn base64_is_injective(a: Seq<u8>, b: Seq<u8>)
    requires
        base64_of(a) == base64_of(b),
    ensures
        a == b,
    decreases a.len(),
{
    let x = base64_of(a);
    let y = base64_of(b);
    if a.len() == 0 || b.len() == 0 {
        assert(x.len() == 0 <==> a.len() == 0);
        assert(y.len() == 0 <==> b.len() == 0);
        assert(a =~= b);
    } else {
        let a0 = a[0] as int;
        let b0 = b[0] as int;
        let a1 = if a.len() > 1 { a[1] as int } else { 0 };
        let b1 = if b.len() > 1 { b[1] as int } else { 0 };
        let a2 = if a.len() > 2 { a[2] as int } else { 0 };
        let b2 = if b.len() > 2 { b[2] as int } else { 0 };
        assert(x[0] == y[0] && x[1] == y[1] && x[2] == y[2] && x[3] == y[3]);
        lemma_chars(a0 / 4, b0 / 4);
        lemma_chars(a0 % 4 * 16 + a1 / 16, b0 % 4 * 16 + b1 / 16);
        lemma_chars(a1 % 16 * 4 + a2 / 64, b1 % 16 * 4 + b2 / 64);
        lemma_chars(b1 % 16 * 4 + b2 / 64, a1 % 16 * 4 + a2 / 64);
        lemma_chars(a2 % 64, b2 % 64);
        lemma_chars(b2 % 64, a2 % 64);
        if a.len() >= 3 {
            assert(b.len() >= 3);
            let u = base64_of(a.skip(3));
            let w = base64_of(b.skip(3));
            assert(u =~= x.skip(4));
            assert(w =~= y.skip(4));
            base64_is_injective(a.skip(3), b.skip(3));
            assert(a =~= seq![a[0], a[1], a[2]] + a.skip(3));
            assert(b =~= seq![b[0], b[1], b[2]] + b.skip(3));
        } else {
            assert(a.len() == b.len());
            assert(a =~= b);
        }
    }
}

/// Base64 takes four characters for every three bytes begun, and goes group by group.
pub proof fn base64_goes_by_groups(a: Seq<u8>, b: Seq<u8>)
    requires
        a.len() % 3 == 0,
    ensures
        base64_of(b).len() == 4 * ((b.len() + 2) / 3),
        base64_of(a + b) == base64_of(a) + base64_of(b),
    decreases a.len(), b.len(),
{
    if b.len() >= 3 {
        base64_goes_by_groups(Seq::empty(), b.skip(3));
    }
    if a.len() == 0 {
        assert(a + b =~= b);
        assert(base64_of(a) =~= Seq::<char>::empty());
        assert(base64_of(a) + base64_of(b) =~= base64_of(b));
    } else {
        base64_goes_by_groups(a.skip(3), b);
        assert((a + b).skip(3) =~= a.skip(3) + b);
        assert(base64_of(a + b) =~= base64_of(a) + base64_of(b));
    }
}

} // verus!
