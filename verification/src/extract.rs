//! The DMI metadata extractor.
//!
//! A DMI file is a PNG image whose state manifest travels in zTXt chunks.
//! The png crate walks the PNG structure and inflates each chunk; what the
//! chunks mean — the manifest grammar — is this crate's own logic, applied to
//! the decompressed payload bytes by [`crate::manifest::parse_states`].

use vstd::prelude::*;
use crate::manifest::parse_states;
use crate::manifest::payload_states;
use crate::text::seq_views;

verus! {

/// Declares the png crate's error type so extractor errors can carry it.
#[verifier::external_type_specification]
#[verifier::external_body]
pub struct ExPngDecodingError(png::DecodingError);

/// A failure of the extractor on one file. Both variants carry the png
/// crate's own error so the caller can report its message.
#[derive(Debug)]
pub enum ExtractError {
    /// The bytes are not a well-formed PNG up to its metadata chunks.
    PngStructure(png::DecodingError),
    /// A zTXt chunk would not decompress or decode.
    ChunkDecode(png::DecodingError),
}

/// The decompressed zTXt payloads of a PNG byte stream, in chunk order, or
/// nothing when the stream is rejected. PNG parsing and zlib inflation are
/// deterministic, so this is a function of the bytes alone.
pub uninterp spec fn ztxt_payloads(png_bytes: Seq<u8>) -> Option<Seq<Seq<u8>>>;

/// Relies on png::Decoder::read_info and png::text_metadata::ZTXtChunk::get_text:
/// read_info parses the PNG metadata without decoding pixel data and collects
/// every zTXt chunk into `Info::compressed_latin1_text` in stream order;
/// get_text inflates one chunk's zlib stream and decodes it as Latin-1 text.
/// Both depend only on the bytes given.
#[verifier::external_body]
fn decode_ztxt_payloads(png_bytes: &Vec<u8>) -> (r: Result<Vec<Vec<u8>>, ExtractError>)
    ensures
        match r {
            Ok(payloads) => ztxt_payloads(png_bytes@) == Some(seq_views(payloads@)),
            Err(_) => ztxt_payloads(png_bytes@) is None,
        },
{
    let decoder = png::Decoder::new(std::io::Cursor::new(png_bytes.as_slice()));
    let reader = match decoder.read_info() {
        Ok(reader) => reader,
        Err(e) => return Err(ExtractError::PngStructure(e)),
    };
    let mut payloads: Vec<Vec<u8>> = Vec::new();
    for chunk in &reader.info().compressed_latin1_text {
        match chunk.get_text() {
            Ok(text) => payloads.push(text.into_bytes()),
            Err(e) => return Err(ExtractError::ChunkDecode(e)),
        }
    }
    Ok(payloads)
}

/// The states of a whole file: the concatenation, in chunk order, of the
/// states of each zTXt payload.
pub open spec fn all_payload_states(payloads: Seq<Seq<u8>>) -> Seq<Seq<u8>>
    decreases payloads.len(),
{
    if payloads.len() == 0 {
        Seq::empty()
    } else {
        payload_states(payloads[0]) + all_payload_states(payloads.skip(1))
    }
}

/// Extracts every state name of one DMI file, in source order across all its
/// zTXt chunks, or fails when the bytes are not an acceptable PNG.
pub fn extract(png_bytes: &Vec<u8>) -> (r: Result<Vec<Vec<u8>>, ExtractError>)
    ensures
        match r {
            Ok(states) => ztxt_payloads(png_bytes@) matches Some(ps) && seq_views(states@)
                == all_payload_states(ps),
            Err(_) => ztxt_payloads(png_bytes@) is None,
        },
{
    let payloads = match decode_ztxt_payloads(png_bytes) {
        Ok(p) => p,
        Err(e) => return Err(e),
    };
    let ghost pv = seq_views(payloads@);
    let mut states: Vec<Vec<u8>> = Vec::new();
    let mut i: usize = 0;
    proof {
        assert(pv.skip(0) =~= pv);
        assert(seq_views(states@) =~= Seq::<Seq<u8>>::empty());
        assert(seq_views(states@) + all_payload_states(pv) =~= all_payload_states(pv));
    }
    while i < payloads.len()
        invariant
            i <= payloads@.len(),
            pv == seq_views(payloads@),
            all_payload_states(pv) == seq_views(states@) + all_payload_states(
                pv.skip(i as int),
            ),
        decreases payloads@.len() - i,
    {
        let ghost before = seq_views(states@);
        let mut part = parse_states(&payloads[i]);
        let ghost partv = seq_views(part@);
        states.append(&mut part);
        proof {
            assert(seq_views(states@) =~= before + partv);
            assert(pv.skip(i as int)[0] == pv[i as int]);
            assert(pv[i as int] == payloads@[i as int]@);
            assert(all_payload_states(pv.skip(i as int)) == payload_states(pv[i as int])
                + all_payload_states(pv.skip(i as int).skip(1)));
            assert(pv.skip(i as int).skip(1) =~= pv.skip(i as int + 1));
            assert((before + partv) + all_payload_states(pv.skip(i as int + 1)) =~= before + (
            partv + all_payload_states(pv.skip(i as int + 1))));
        }
        i += 1;
    }
    proof {
        assert(pv.skip(i as int) =~= Seq::<Seq<u8>>::empty());
        assert(seq_views(states@) + Seq::<Seq<u8>>::empty() =~= seq_views(states@));
    }
    Ok(states)
}

} // verus!
