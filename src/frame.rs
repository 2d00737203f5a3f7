//! The frame format: an optional magic marker, the safe-encoded length of the
//! escaped payload, then the escaped payload, at the start of a carrier buffer.
//!
//! The marker and the length field are written most significant byte first;
//! the length field uses the base-254 re-mapping, and the payload the escape
//! codec with codes for `0x00`, the escape byte and `0xFF`.
use vstd::prelude::*;
use vstd::arithmetic::div_mod::{lemma_div_denominator, lemma_fundamental_div_mod_converse};
use crate::encoding::{
    convert_from_sdi_safe_payload, convert_to_sdi_safe_payload, convert_without_0_and_255,
    escaped, lemma_escape_round_trip, unescaped, MAGIC_NUMBER,
};
use crate::error::CodecError;
use crate::safe_value::{
    byte_of, lemma_safe_round_trip, safe_bytes, safe_decoded, safe_encoded, try_decode_safe_u32,
};

verus! {

/// One more than the largest escaped length that the length field can carry
/// (`254^4`).
pub const LENGTH_LIMIT: u64 = 4162314256;

/// The number of bytes before the payload: marker (if tagged) and length field.
pub open spec fn header_len(tagged: bool) -> int {
    if tagged {
        8
    } else {
        4
    }
}

/// The four bytes of `w`, most significant first.
pub open spec fn be_bytes(w: int) -> Seq<u8> {
    seq![byte_of(w, 3) as u8, byte_of(w, 2) as u8, byte_of(w, 1) as u8, byte_of(w, 0) as u8]
}

/// The word that `c[k..k + 4]` holds, most significant byte first.
pub open spec fn be_word(c: Seq<u8>, k: int) -> int {
    c[k] * 16777216 + c[k + 1] * 65536 + c[k + 2] * 256 + c[k + 3]
}

/// The bytes of the frame that carries payload `p`.
pub open spec fn frame_bytes(p: Seq<u8>, tagged: bool) -> Seq<u8> {
    (if tagged {
        be_bytes(MAGIC_NUMBER as int)
    } else {
        Seq::empty()
    }) + be_bytes(safe_encoded(escaped(p).len() as int, 254)) + escaped(p)
}

/// The frame that carries `p` fits in `capacity` bytes, and its length field
/// can carry the escaped length.
pub open spec fn frame_fits(p: Seq<u8>, tagged: bool, capacity: int) -> bool {
    escaped(p).len() < LENGTH_LIMIT && header_len(tagged) + escaped(p).len() <= capacity
}

/// What a reader finds in carrier `c`: `Ok(None)` where no frame is there (too
/// short, no marker, a length field with a reserved byte, a length of zero or
/// one past the end); `Err(MalformedPayload)` where the declared bytes do not
/// un-escape; the payload otherwise.
pub open spec fn frame_read(c: Seq<u8>, tagged: bool) -> Result<Option<Seq<u8>>, CodecError> {
    let h = header_len(tagged);
    if c.len() < h {
        Ok(None)
    } else if tagged && be_word(c, 0) != MAGIC_NUMBER {
        Ok(None)
    } else if !safe_bytes(be_word(c, h - 4), 254) {
        Ok(None)
    } else {
        let n = safe_decoded(be_word(c, h - 4), 254);
        if n == 0 || n > c.len() - h {
            Ok(None)
        } else {
            match unescaped(c.subrange(h, h + n)) {
                Some(p) => Ok(Some(p)),
                None => Err(CodecError::MalformedPayload),
            }
        }
    }
}

proof fn lemma_be_round_trip(w: u32)
    ensures
        be_word(be_bytes(w as int), 0) == w,
        forall|i: int| 0 <= i < 4 ==> 0 <= #[trigger] byte_of(w as int, i) < 256,
{
    let x = w as int;
    lemma_div_denominator(x, 256, 256);
    lemma_div_denominator(x, 65536, 256);
    lemma_fundamental_div_mod_converse(x / 16777216, 256, 0, x / 16777216);
    assert(x == 256 * (x / 256) + x % 256);
    assert(x / 256 == 256 * (x / 65536) + x / 256 % 256);
    assert(x / 65536 == 256 * (x / 16777216) + x / 65536 % 256);
}

/// Writes `w` into `buf[at..at + 4]`, most significant byte first.
fn put_u32_be(buf: &mut Vec<u8>, at: usize, w: u32)
    requires
        at + 4 <= old(buf)@.len(),
    ensures
        final(buf)@ == old(buf)@.subrange(0, at as int) + be_bytes(w as int) + old(buf)@.skip(
            at + 4,
        ),
{
    proof {
        lemma_be_round_trip(w);
    }
    let len = buf.len();
    assert(at + 4 <= len);
    buf[at] = (w / 16777216) as u8;
    buf[at + 1] = (w / 65536 % 256) as u8;
    buf[at + 2] = (w / 256 % 256) as u8;
    buf[at + 3] = (w % 256) as u8;
    assert(buf@ =~= old(buf)@.subrange(0, at as int) + be_bytes(w as int) + old(buf)@.skip(at + 4));
}

/// The word in `buf[at..at + 4]`, most significant byte first.
fn get_u32_be(buf: &[u8], at: usize) -> (w: u32)
    requires
        at + 4 <= buf@.len(),
    ensures
        w == be_word(buf@, at as int),
{
    (buf[at] as u32) * 16777216 + (buf[at + 1] as u32) * 65536 + (buf[at + 2] as u32) * 256
        + buf[at + 3] as u32
}

/// Writes the frame that carries `payload` at the start of `carrier`, with the
/// magic marker if `tagged`; the rest of `carrier` is left as it is. Fails with
/// `PayloadTooLarge`, leaving `carrier` unchanged, where the frame does not fit.
pub fn write_frame(carrier: &mut Vec<u8>, payload: &[u8], tagged: bool) -> (r: Result<(), CodecError>)
    ensures
        match r {
            Ok(()) => frame_fits(payload@, tagged, old(carrier)@.len() as int) && final(carrier)@
                == frame_bytes(payload@, tagged) + old(carrier)@.skip(
                frame_bytes(payload@, tagged).len() as int,
            ),
            Err(e) => e == CodecError::PayloadTooLarge && !frame_fits(
                payload@,
                tagged,
                old(carrier)@.len() as int,
            ) && final(carrier)@ == old(carrier)@,
        },
{
    let escaped_payload = convert_to_sdi_safe_payload(payload);
    let h: usize = if tagged { 8 } else { 4 };
    let n = escaped_payload.len();
    if carrier.len() < h || n > carrier.len() - h || n as u64 >= LENGTH_LIMIT {
        return Err(CodecError::PayloadTooLarge);
    }
    let cap = carrier.len();
    let ghost start = carrier@;
    let ghost frame = frame_bytes(payload@, tagged);
    if tagged {
        put_u32_be(carrier, 0, MAGIC_NUMBER);
    }
    let word = convert_without_0_and_255(n as u32);
    put_u32_be(carrier, h - 4, word);
    proof {
        assert(carrier@.len() == start.len());
        assert forall|k: int| 0 <= k < h implies carrier@[k] == #[trigger] frame[k] by {
            if tagged && k < 4 {
                assert(carrier@[k] == be_bytes(MAGIC_NUMBER as int)[k]);
            }
        }
    }
    let mut j: usize = 0;
    while j < n
        invariant
            n == escaped_payload@.len(),
            escaped_payload@ == escaped(payload@),
            frame == frame_bytes(payload@, tagged),
            h == header_len(tagged),
            frame.len() == h + n,
            cap == start.len(),
            h + n <= cap,
            j <= n,
            carrier@.len() == start.len(),
            forall|k: int| 0 <= k < h + j ==> carrier@[k] == #[trigger] frame[k],
            forall|k: int| h + n <= k < start.len() ==> carrier@[k] == #[trigger] start[k],
        decreases n - j,
    {
        carrier[h + j] = escaped_payload[j];
        proof {
            assert(frame[h + j] == escaped_payload@[j as int]);
        }
        j = j + 1;
    }
    assert(carrier@ =~= frame + start.skip(frame.len() as int));
    Ok(())
}

/// Reads the frame at the start of `carrier`, expecting the magic marker if
/// `tagged`: `Ok(None)` where there is no frame, `Err(MalformedPayload)` where
/// the payload bytes do not un-escape, the payload otherwise.
pub fn read_frame(carrier: &[u8], tagged: bool) -> (r: Result<Option<Vec<u8>>, CodecError>)
    ensures
        match r {
            Ok(Some(p)) => frame_read(carrier@, tagged) == Ok::<Option<Seq<u8>>, CodecError>(Some(p@)),
            Ok(None) => frame_read(carrier@, tagged) == Ok::<Option<Seq<u8>>, CodecError>(None),
            Err(e) => frame_read(carrier@, tagged) == Err::<Option<Seq<u8>>, CodecError>(e),
        },
{
    let h: usize = if tagged { 8 } else { 4 };
    if carrier.len() < h {
        return Ok(None);
    }
    if tagged && get_u32_be(carrier, 0) != MAGIC_NUMBER {
        return Ok(None);
    }
    let word = get_u32_be(carrier, h - 4);
    let n = match try_decode_safe_u32(word, 254) {
        Some(n) => n,
        None => {
            return Ok(None);
        },
    };
    if n == 0 || n as usize > carrier.len() - h {
        return Ok(None);
    }
    let body = vstd::slice::slice_subrange(carrier, h, h + n as usize);
    match convert_from_sdi_safe_payload(body) {
        Ok(p) => Ok(Some(p)),
        Err(e) => Err(e),
    }
}

/// A frame written into a carrier that it fits in reads back as its payload,
/// for every non-empty payload.
pub proof fn lemma_frame_round_trip(carrier: Seq<u8>, p: Seq<u8>, tagged: bool)
    requires
        p.len() > 0,
        frame_fits(p, tagged, carrier.len() as int),
    ensures
        frame_read(frame_bytes(p, tagged) + carrier.skip(frame_bytes(p, tagged).len() as int), tagged)
            == Ok::<Option<Seq<u8>>, CodecError>(Some(p)),
{
    let e = escaped(p);
    let n = e.len();
    let f = frame_bytes(p, tagged);
    let c = f + carrier.skip(f.len() as int);
    let h = header_len(tagged);
    let w = safe_encoded(n as int, 254);
    lemma_safe_round_trip(n as u32, 254);
    lemma_be_round_trip(w as u32);
    lemma_be_round_trip(MAGIC_NUMBER);
    lemma_escape_round_trip(p);
    assert(e.len() >= 1);
    assert(f.len() == h + n);
    if tagged {
        assert(c.subrange(0, 4) =~= be_bytes(MAGIC_NUMBER as int));
        assert(be_word(c, 0) == be_word(be_bytes(MAGIC_NUMBER as int), 0));
    }
    assert(c.subrange(h - 4, h) =~= be_bytes(w));
    assert(be_word(c, h - 4) == be_word(be_bytes(w), 0));
    assert(c.subrange(h, h + n) =~= e);
}

/// A carrier whose first four bytes are not the magic marker holds no tagged
/// frame.
pub proof fn lemma_foreign_carrier(c: Seq<u8>)
    requires
        c.len() < 4 || c.subrange(0, 4) != be_bytes(MAGIC_NUMBER as int),
    ensures
        frame_read(c, true) == Ok::<Option<Seq<u8>>, CodecError>(None),
{
    if c.len() >= 8 && be_word(c, 0) == MAGIC_NUMBER {
        lemma_be_round_trip(MAGIC_NUMBER);
        assert(c.subrange(0, 4) =~= be_bytes(MAGIC_NUMBER as int));
    }
}

} // verus!
