//! The escape codec for payload bytes, and the length re-mapping that avoids
//! both `0x00` and `0xFF`.
use vstd::prelude::*;
use crate::error::CodecError;
use crate::safe_value::{
    decode_safe_u32, encode_safe_u32, safe_bytes, safe_decoded, safe_encoded,
};

verus! {

/// The marker that opens a tagged frame.
pub const MAGIC_NUMBER: u32 = 0xDEADB00B;

/// The byte that opens an escape pair; the byte after it is a code.
pub const ESCAPE_BYTE: u8 = 254;

/// The safe form of `x` in base 254: no byte of it is `0x00` or `0xFF`.
pub fn convert_without_0_and_255(x: u32) -> (r: u32)
    ensures
        r == safe_encoded(x as int, 254),
        safe_bytes(r as int, 254),
{
    encode_safe_u32(x, 254)
}

/// The value that the base-254 safe word `x` stands for.
pub fn convert_back_with_0_and_255(x: u32) -> (r: u32)
    requires
        safe_bytes(x as int, 254),
    ensures
        r == safe_decoded(x as int, 254),
{
    decode_safe_u32(x, 254)
}

/// The bytes that stand for the payload byte `b`: an escape pair for `0x00`,
/// the escape byte and `0xFF` (codes 1, 2 and 3), the byte itself otherwise.
pub open spec fn escape_of(b: u8) -> Seq<u8> {
    if b == 0 {
        seq![ESCAPE_BYTE, 1u8]
    } else if b == ESCAPE_BYTE {
        seq![ESCAPE_BYTE, 2u8]
    } else if b == 255 {
        seq![ESCAPE_BYTE, 3u8]
    } else {
        seq![b]
    }
}

/// The escaped form of a payload.
pub open spec fn escaped(s: Seq<u8>) -> Seq<u8>
    decreases s.len(),
{
    if s.len() == 0 {
        Seq::empty()
    } else {
        escape_of(s[0]) + escaped(s.skip(1))
    }
}

/// The payload byte that an escape code stands for.
pub open spec fn code_value(c: u8) -> Option<u8> {
    if c == 1 {
        Some(0u8)
    } else if c == 2 {
        Some(ESCAPE_BYTE)
    } else if c == 3 {
        Some(255u8)
    } else {
        None
    }
}

/// `p` followed by the sequence in `o`, if there is one.
pub open spec fn prepend(p: Seq<u8>, o: Option<Seq<u8>>) -> Option<Seq<u8>> {
    match o {
        Some(rest) => Some(p + rest),
        None => None,
    }
}

/// The payload that an escaped sequence stands for, read left to right; `None`
/// where an escape byte is last or is followed by an unknown code.
pub open spec fn unescaped(s: Seq<u8>) -> Option<Seq<u8>>
    decreases s.len(),
{
    if s.len() == 0 {
        Some(Seq::empty())
    } else if s[0] == ESCAPE_BYTE {
        if s.len() < 2 {
            None
        } else {
            match code_value(s[1]) {
                Some(b) => prepend(seq![b], unescaped(s.skip(2))),
                None => None,
            }
        }
    } else {
        prepend(seq![s[0]], unescaped(s.skip(1)))
    }
}

/// No escaped payload holds `0x00` or `0xFF`, and it is at most twice as long
/// as the payload.
pub proof fn lemma_escaped_safe(s: Seq<u8>)
    ensures
        forall|k: int| 0 <= k < escaped(s).len() ==> #[trigger] escaped(s)[k] != 0 && escaped(s)[k] != 255,
        escaped(s).len() <= 2 * s.len(),
    decreases s.len(),
{
    if s.len() > 0 {
        lemma_escaped_safe(s.skip(1));
        let e = escape_of(s[0]);
        let r = escaped(s.skip(1));
        assert forall|k: int| 0 <= k < escaped(s).len() implies #[trigger] escaped(s)[k] != 0 && escaped(s)[k] != 255 by {
            if k >= e.len() {
                assert(escaped(s)[k] == r[k - e.len()]);
            }
        }
    }
}

/// Un-escaping the escaped form of a payload gives the payload back.
pub proof fn lemma_escape_round_trip(s: Seq<u8>)
    ensures
        unescaped(escaped(s)) == Some(s),
    decreases s.len(),
{
    if s.len() > 0 {
        lemma_escape_round_trip(s.skip(1));
        let e = escape_of(s[0]);
        let r = escaped(s.skip(1));
        let t = e + r;
        assert(escaped(s) == t);
        if e.len() == 2 {
            assert(t.skip(2) =~= r);
            assert(code_value(t[1]) == Some(s[0]));
        } else {
            assert(t.skip(1) =~= r);
        }
        assert(seq![s[0]] + s.skip(1) =~= s);
    }
}

/// Escapes every `0x00`, escape byte and `0xFF` of `payload` as an escape pair.
pub fn convert_to_sdi_safe_payload(payload: &[u8]) -> (r: Vec<u8>)
    ensures
        r@ == escaped(payload@),
        forall|k: int| 0 <= k < r@.len() ==> #[trigger] r@[k] != 0 && r@[k] != 255,
        r@.len() <= 2 * payload@.len(),
{
    let mut output: Vec<u8> = Vec::new();
    let mut i: usize = 0;
    assert(payload@.skip(0) =~= payload@);
    assert(output@ + escaped(payload@) =~= escaped(payload@));
    while i < payload.len()
        invariant
            i <= payload.len(),
            escaped(payload@) == output@ + escaped(payload@.skip(i as int)),
        decreases payload.len() - i,
    {
        let b = payload[i];
        proof {
            let rest = payload@.skip(i as int);
            assert(rest[0] == b);
            assert(rest.skip(1) =~= payload@.skip(i + 1));
            assert(escaped(rest) == escape_of(b) + escaped(payload@.skip(i + 1)));
        }
        let ghost before = output@;
        if b == 0 {
            output.push(ESCAPE_BYTE);
            output.push(1);
        } else if b == ESCAPE_BYTE {
            output.push(ESCAPE_BYTE);
            output.push(2);
        } else if b == 255 {
            output.push(ESCAPE_BYTE);
            output.push(3);
        } else {
            output.push(b);
        }
        proof {
            assert(output@ =~= before + escape_of(b));
            assert(before + (escape_of(b) + escaped(payload@.skip(i + 1))) =~= output@ + escaped(
                payload@.skip(i + 1),
            ));
        }
        i = i + 1;
    }
    proof {
        assert(payload@.skip(i as int) =~= Seq::<u8>::empty());
        assert(output@ + Seq::<u8>::empty() =~= output@);
        lemma_escaped_safe(payload@);
    }
    output
}

/// Reverses `convert_to_sdi_safe_payload`. Fails with `MalformedPayload` where
/// an escape byte is last or is followed by an unknown code.
pub fn convert_from_sdi_safe_payload(payload: &[u8]) -> (r: Result<Vec<u8>, CodecError>)
    ensures
        match r {
            Ok(out) => unescaped(payload@) == Some(out@),
            Err(e) => e == CodecError::MalformedPayload && unescaped(payload@) is None,
        },
{
    let mut output: Vec<u8> = Vec::new();
    let mut i: usize = 0;
    proof {
        assert(payload@.skip(0) =~= payload@);
        match unescaped(payload@) {
            Some(t) => {
                assert(output@ + t =~= t);
            },
            None => {},
        }
    }
    while i < payload.len()
        invariant
            i <= payload.len(),
            unescaped(payload@) == prepend(output@, unescaped(payload@.skip(i as int))),
        decreases payload.len() - i,
    {
        let b = payload[i];
        let ghost rest = payload@.skip(i as int);
        let ghost before = output@;
        assert(rest[0] == b);
        if b == ESCAPE_BYTE {
            if i + 1 >= payload.len() {
                assert(unescaped(rest) is None);
                return Err(CodecError::MalformedPayload);
            }
            let c = payload[i + 1];
            assert(rest[1] == c);
            let v: u8;
            if c == 1 {
                v = 0;
            } else if c == 2 {
                v = ESCAPE_BYTE;
            } else if c == 3 {
                v = 255;
            } else {
                assert(unescaped(rest) is None);
                return Err(CodecError::MalformedPayload);
            }
            output.push(v);
            proof {
                assert(rest.skip(2) =~= payload@.skip(i + 2));
                assert(unescaped(rest) == prepend(seq![v], unescaped(payload@.skip(i + 2))));
                match unescaped(payload@.skip(i + 2)) {
                    Some(t) => {
                        assert(before + (seq![v] + t) =~= output@ + t);
                    },
                    None => {},
                }
            }
            i = i + 2;
        } else {
            output.push(b);
            proof {
                assert(rest.skip(1) =~= payload@.skip(i + 1));
                assert(unescaped(rest) == prepend(seq![b], unescaped(payload@.skip(i + 1))));
                match unescaped(payload@.skip(i + 1)) {
                    Some(t) => {
                        assert(before + (seq![b] + t) =~= output@ + t);
                    },
                    None => {},
                }
            }
            i = i + 1;
        }
    }
    proof {
        assert(payload@.skip(i as int) =~= Seq::<u8>::empty());
        assert(output@ + Seq::<u8>::empty() =~= output@);
    }
    Ok(output)
}

} // verus!
