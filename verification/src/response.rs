//! The front end's two halves around the bridge: validating a raw query into
//! a submission, and turning a request's outcome into the response that goes
//! back on the wire.

use vstd::prelude::*;

use crate::bridge::{Bridge, spec_submit};
use crate::params::spec_validate;

verus! {

/// Why a request got no image.
#[derive(Clone, Copy, PartialEq, Eq, Structural, Debug)]
pub enum RenderError {
    /// `lat` or `lon` missing, non-numeric or out of range; never reaches the engine.
    BadInput,
    /// The engine has terminated and accepts no submission.
    EngineUnavailable,
    /// The engine died or shut down before serving this request: its
    /// completion handle was dropped unwritten.
    RenderAborted,
}

/// The media type of a response body.
#[derive(Clone, Copy, PartialEq, Eq, Structural, Debug)]
pub enum ContentType {
    ImagePng,
    TextPlain,
}

/// A network-ready response: status code, media type and body bytes.
pub struct HttpResponse {
    pub status: u16,
    pub content_type: ContentType,
    pub body: Vec<u8>,
}

/// The bytes that `png::Encoder` produces for an 8-bit RGBA frame of the
/// given size: a pure function of the pixels and the dimensions.
pub uninterp spec fn png_bytes_of(pixels: Seq<u8>, width: u32, height: u32) -> Seq<u8>;

/// Relies on png::Encoder with 8-bit RGBA color and default options: with
/// nonzero dimensions and a buffer of exactly 4 * width * height bytes,
/// writing into a Vec cannot fail, and the output is a function of the
/// pixels and the dimensions alone.
#[verifier::external_body]
fn encode_png_rgba(pixels: &Vec<u8>, width: u32, height: u32) -> (r: Vec<u8>)
    requires
        1 <= width,
        1 <= height,
        pixels@.len() == 4 * width * height,
    ensures
        r@ == png_bytes_of(pixels@, width, height),
{
    let mut out: Vec<u8> = Vec::new();
    let mut enc = png::Encoder::new(&mut out, width, height);
    enc.set_color(png::ColorType::Rgba);
    enc.set_depth(png::BitDepth::Eight);
    let mut writer = enc.write_header().expect("png header");
    writer.write_image_data(pixels).expect("png frame");
    writer.finish().expect("png end");
    out
}

/// The view of an outcome: the pixel bytes on success, the error otherwise.
pub open spec fn outcome_view(o: Result<Vec<u8>, RenderError>) -> Result<Seq<u8>, RenderError> {
    match o {
        Result::Ok(px) => Result::Ok(px@),
        Result::Err(e) => Result::Err(e),
    }
}

/// The status for each outcome: 200 only with a full image; each failure
/// gets its own clearly-non-200 status, bad input distinguished from
/// engine trouble.
pub open spec fn status_of(o: Result<Seq<u8>, RenderError>) -> int {
    match o {
        Result::Ok(_) => 200,
        Result::Err(RenderError::BadInput) => 400,
        Result::Err(RenderError::EngineUnavailable) => 503,
        Result::Err(RenderError::RenderAborted) => 500,
    }
}

/// The diagnostic body of each failure, as ASCII bytes: "bad input",
/// "engine unavailable", "render aborted".
pub open spec fn error_note(e: RenderError) -> Seq<u8> {
    match e {
        RenderError::BadInput => seq![98u8, 97u8, 100u8, 32u8, 105u8, 110u8, 112u8, 117u8, 116u8],
        RenderError::EngineUnavailable => seq![
            101u8,
            110u8,
            103u8,
            105u8,
            110u8,
            101u8,
            32u8,
            117u8,
            110u8,
            97u8,
            118u8,
            97u8,
            105u8,
            108u8,
            97u8,
            98u8,
            108u8,
            101u8,
        ],
        RenderError::RenderAborted => seq![
            114u8,
            101u8,
            110u8,
            100u8,
            101u8,
            114u8,
            32u8,
            97u8,
            98u8,
            111u8,
            114u8,
            116u8,
            101u8,
            100u8,
        ],
    }
}

/// The failure bodies, byte for byte.
fn error_note_bytes(e: RenderError) -> (r: Vec<u8>)
    ensures
        r@ == error_note(e),
{
    match e {
        RenderError::BadInput => {
            let v: Vec<u8> = vec![98u8, 97u8, 100u8, 32u8, 105u8, 110u8, 112u8, 117u8, 116u8];
            proof {
                assert(v@ =~= error_note(RenderError::BadInput));
            }
            v
        },
        RenderError::EngineUnavailable => {
            let v: Vec<u8> = vec![
                101u8,
                110u8,
                103u8,
                105u8,
                110u8,
                101u8,
                32u8,
                117u8,
                110u8,
                97u8,
                118u8,
                97u8,
                105u8,
                108u8,
                97u8,
                98u8,
                108u8,
                101u8,
            ];
            proof {
                assert(v@ =~= error_note(RenderError::EngineUnavailable));
            }
            v
        },
        RenderError::RenderAborted => {
            let v: Vec<u8> = vec![
                114u8,
                101u8,
                110u8,
                100u8,
                101u8,
                114u8,
                32u8,
                97u8,
                98u8,
                111u8,
                114u8,
                116u8,
                101u8,
                100u8,
            ];
            proof {
                assert(v@ =~= error_note(RenderError::RenderAborted));
            }
            v
        },
    }
}

/// Turns one request's outcome into the response the front end writes back:
/// the full PNG with status 200 and the image media type on success, else a
/// distinct non-200 status with a short diagnostic body — never partial or
/// corrupt image bytes.
pub fn build_response(outcome: Result<Vec<u8>, RenderError>, width: u32, height: u32) -> (r:
    HttpResponse)
    requires
        outcome matches Ok(px) ==> 1 <= width && 1 <= height && px@.len() == 4 * width * height,
    ensures
        r.status as int == status_of(outcome_view(outcome)),
        (outcome matches Ok(px) ==> r.content_type == ContentType::ImagePng && r.body@
            == png_bytes_of(px@, width, height)),
        (outcome matches Err(e) ==> r.content_type == ContentType::TextPlain && r.body@
            == error_note(e)),
{
    match outcome {
        Result::Ok(px) => HttpResponse {
            status: 200,
            content_type: ContentType::ImagePng,
            body: encode_png_rgba(&px, width, height),
        },
        Result::Err(e) => {
            let status: u16 = match e {
                RenderError::BadInput => 400,
                RenderError::EngineUnavailable => 503,
                RenderError::RenderAborted => 500,
            };
            HttpResponse { status, content_type: ContentType::TextPlain, body: error_note_bytes(e) }
        },
    }
}

/// The front half of serving one request: validate the query and, only if
/// it is well-formed, submit it. A malformed query is refused without
/// touching the bridge at all, so it can never cause a render; a valid one
/// is refused exactly when the engine has terminated.
pub fn submit_query(bridge: &mut Bridge, q: &[u8]) -> (r: Result<usize, RenderError>)
    requires
        old(bridge)@.wf(),
    ensures
        final(bridge)@.wf(),
        spec_validate(q@) is None ==> (r matches Err(e) && e is BadInput && final(bridge)@ == old(
            bridge,
        )@),
        (spec_validate(q@) is Some && old(bridge)@.engine is Terminated) ==> (r matches Err(e)
            && e is EngineUnavailable && final(bridge)@ == old(bridge)@),
        (match spec_validate(q@) {
            Some(p) => !(old(bridge)@.engine is Terminated) ==> (r matches Ok(id) && id as int
                == old(bridge)@.slots.len() && final(bridge)@ == spec_submit(old(bridge)@, p)),
            None => true,
        }),
{
    match crate::params::validate_request(q) {
        None => Err(RenderError::BadInput),
        Some(p) => match bridge.submit(p) {
            None => Err(RenderError::EngineUnavailable),
            Some(id) => Ok(id),
        },
    }
}

/// Identical pixel buffers give identical successful responses: both carry
/// status 200 and byte-identical PNG bodies. With the render pass itself a
/// pure function of the sun direction and the fixed assets — the outside
/// collaborator's contract, which cannot stand here — resubmitting the same
/// angles therefore yields the same image bytes, byte for byte.
pub proof fn lemma_same_pixels_same_png(px1: Seq<u8>, px2: Seq<u8>, width: u32, height: u32)
    requires
        px1 == px2,
    ensures
        status_of(Result::Ok(px1)) == 200,
        status_of(Result::Ok(px2)) == 200,
        png_bytes_of(px1, width, height) == png_bytes_of(px2, width, height),
{
}

} // verus!
