//! Encoding of emote images as inline terminal-image payloads.
//!
//! An image is base64-encoded and framed as a terminal graphics escape:
//! `ESC _ G a=T,f=100,r=1,m=0 ; <base64> ESC \`. An image whose base64
//! encoding would exceed a hard cap is treated as not renderable: the
//! payload is empty, and the caller removes the emote's text with
//! nothing in its place.

use base64::Engine;
use vstd::prelude::*;

verus! {

/// The base64 encoding (standard alphabet, padded) of a byte sequence.
pub uninterp spec fn base64_of(bytes: Seq<u8>) -> Seq<u8>;

/// Relies on base64's `STANDARD` engine: the encoding is a pure
/// function of the input bytes, four output bytes for every three input
/// bytes, rounded up (padded).
#[verifier::external_body]
fn base64_encode(bytes: &Vec<u8>) -> (r: Vec<u8>)
    requires
        bytes@.len() <= 0x1000_0000,
    ensures
        r@ == base64_of(bytes@),
        r@.len() == 4 * ((bytes@.len() + 2) / 3),
{
    base64::engine::general_purpose::STANDARD.encode(bytes).into_bytes()
}

/// Largest base64 payload that is still rendered.
pub open spec fn payload_cap() -> int {
    4096
}

/// The framing that precedes the base64 text:
/// `ESC _ G a=T,f=100,r=1,m=0 ;`.
pub open spec fn payload_prefix() -> Seq<u8> {
    seq![
        27u8,
        95,
        71,
        97,
        61,
        84,
        44,
        102,
        61,
        49,
        48,
        48,
        44,
        114,
        61,
        49,
        44,
        109,
        61,
        48,
        59,
    ]
}

/// The framing that follows the base64 text: `ESC \`.
pub open spec fn payload_suffix() -> Seq<u8> {
    seq![27u8, 92]
}

/// Length of the base64 encoding of `n` input bytes.
pub open spec fn base64_len(n: int) -> int {
    4 * ((n + 2) / 3)
}

/// The encoded payload of an image: empty when the base64 encoding
/// would exceed the cap, otherwise the framed base64 text.
pub open spec fn payload_spec(img: Seq<u8>) -> Seq<u8> {
    if base64_len(img.len() as int) > payload_cap() {
        Seq::empty()
    } else {
        payload_prefix() + base64_of(img) + payload_suffix()
    }
}

/// Builds the escape framing that precedes the base64 text.
fn build_payload_prefix() -> (v: Vec<u8>)
    ensures
        v@ == payload_prefix(),
{
    let mut v: Vec<u8> = Vec::new();
    v.push(27);
    v.push(95);
    v.push(71);
    v.push(97);
    v.push(61);
    v.push(84);
    v.push(44);
    v.push(102);
    v.push(61);
    v.push(49);
    v.push(48);
    v.push(48);
    v.push(44);
    v.push(114);
    v.push(61);
    v.push(49);
    v.push(44);
    v.push(109);
    v.push(61);
    v.push(48);
    v.push(59);
    assert(v@ =~= payload_prefix());
    v
}

/// Encodes an emote image as an inline-image payload. An image whose
/// base64 encoding exceeds the cap yields an empty payload.
pub fn encode_emote_payload(img: &Vec<u8>) -> (p: Vec<u8>)
    ensures
        p@ == payload_spec(img@),
        base64_len(img@.len() as int) > payload_cap() ==> p@.len() == 0,
{
    let n = img.len();
    if n > 3072 {
        proof {
            assert(base64_len(n as int) > 4096) by (nonlinear_arith)
                requires
                    n > 3072,
            ;
        }
        Vec::new()
    } else {
        proof {
            assert(base64_len(n as int) <= 4096) by (nonlinear_arith)
                requires
                    n <= 3072,
            ;
        }
        let mut enc = base64_encode(img);
        let mut p = build_payload_prefix();
        p.append(&mut enc);
        p.push(27);
        p.push(92);
        assert(p@ =~= payload_prefix() + base64_of(img@) + payload_suffix());
        p
    }
}

} // verus!
