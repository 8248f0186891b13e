//! Packing of (message, payload, index) triples into length-prefixed buffers,
//! and the zero-free framing of those buffers for the wire.
use vstd::prelude::*;
use vstd::utf8::*;

verus! {

/// Largest length that a single length-prefix byte can describe.
pub const MAX_FIELD_LEN: usize = 255;

/// The byte that ends every frame on the wire.
pub const DELIMITER: u8 = 0;

/// Why a frame could not be produced or read.
#[derive(Clone, Copy, Debug, PartialEq, Eq, Structural)]
pub enum CodecError {
    /// The message (in UTF-8 bytes) or the payload is longer than 255 bytes.
    Oversize,
    /// The bytes do not form a frame: bad delimiter, bad stuffing, too short
    /// for its length prefixes, or a message that is not UTF-8 text.
    Malformed,
}

/// The three fields that one frame carries.
pub struct Frame {
    pub msg: String,
    pub payload: Vec<u8>,
    pub index: u8,
}

impl View for Frame {
    type V = (Seq<char>, Seq<u8>, u8);

    open spec fn view(&self) -> (Seq<char>, Seq<u8>, u8) {
        (self.msg@, self.payload@, self.index)
    }
}

/// The UTF-8 bytes of a message.
pub open spec fn text_bytes(m: Seq<char>) -> Seq<u8> {
    encode_utf8(m)
}

/// Both fields fit behind a one-byte length prefix.
pub open spec fn fields_fit(m: Seq<char>, p: Seq<u8>) -> bool {
    text_bytes(m).len() <= MAX_FIELD_LEN && p.len() <= MAX_FIELD_LEN
}

/// `[len(msg)][msg][len(payload)][payload][index]`.
pub open spec fn packed(m: Seq<char>, p: Seq<u8>, i: u8) -> Seq<u8> {
    seq![text_bytes(m).len() as u8] + text_bytes(m) + seq![p.len() as u8] + p + seq![i]
}

/// Reads a packed buffer back; bytes after the index byte are ignored.
pub open spec fn unpacked(b: Seq<u8>) -> Option<(Seq<char>, Seq<u8>, u8)> {
    if b.len() < 1 {
        None
    } else {
        let ml = b[0] as int;
        if b.len() < ml + 2 {
            None
        } else {
            let pl = b[ml + 1] as int;
            if b.len() < ml + pl + 3 {
                None
            } else if !valid_utf8(b.subrange(1, ml + 1)) {
                None
            } else {
                Some((decode_utf8(b.subrange(1, ml + 1)), b.subrange(ml + 2, ml + 2 + pl), b[ml + 2 + pl]))
            }
        }
    }
}

/// Unpacking a packed buffer gives back the fields it was packed from.
pub proof fn lemma_unpack_packed(m: Seq<char>, p: Seq<u8>, i: u8)
    requires
        fields_fit(m, p),
    ensures
        unpacked(packed(m, p, i)) == Some((m, p, i)),
{
    broadcast use encode_utf8_valid_utf8, encode_utf8_decode_utf8;

    let b = packed(m, p, i);
    let t = text_bytes(m);
    let ml = t.len() as int;
    assert(b[0] as int == ml);
    assert(b.subrange(1, ml + 1) =~= t);
    assert(b[ml + 1] as int == p.len());
    assert(b.subrange(ml + 2, ml + 2 + p.len()) =~= p);
}

/// Appends `src` to the end of `buf`.
fn append_bytes(buf: &mut Vec<u8>, src: &[u8])
    ensures
        final(buf)@ == old(buf)@ + src@,
{
    let mut k: usize = 0;
    while k < src.len()
        invariant
            k <= src@.len(),
            buf@ == old(buf)@ + src@.subrange(0, k as int),
        decreases src@.len() - k,
    {
        buf.push(src[k]);
        k += 1;
        assert(src@.subrange(0, k as int) =~= src@.subrange(0, k - 1) + seq![src@[k - 1]]);
    }
    assert(src@.subrange(0, src@.len() as int) =~= src@);
}

/// Copies `src[from..to]` into a new vector.
pub(crate) fn copy_range(src: &[u8], from: usize, to: usize) -> (r: Vec<u8>)
    requires
        from <= to <= src@.len(),
    ensures
        r@ == src@.subrange(from as int, to as int),
{
    let mut r: Vec<u8> = Vec::new();
    let mut k: usize = from;
    while k < to
        invariant
            from <= k <= to <= src@.len(),
            r@ == src@.subrange(from as int, k as int),
        decreases to - k,
    {
        r.push(src[k]);
        k += 1;
        assert(src@.subrange(from as int, k as int) =~= src@.subrange(from as int, k - 1) + seq![src@[k - 1]]);
    }
    r
}

/// Relies on `std::str::from_utf8`: it accepts exactly the well-formed UTF-8
/// byte strings, and the text it returns is the one those bytes encode.
#[verifier::external_body]
fn text_from_utf8(b: &[u8]) -> (r: Option<String>)
    ensures
        match r {
            Some(s) => valid_utf8(b@) && s@ == decode_utf8(b@),
            None => !valid_utf8(b@),
        },
{
    match std::str::from_utf8(b) {
        Ok(s) => Some(s.to_string()),
        Err(_) => None,
    }
}

/// Lays out `[len(msg)][msg][len(payload)][payload][index]`, refusing a
/// message or payload that a single length byte cannot describe.
pub fn pack(msg: &str, payload: &[u8], index: u8) -> (r: Result<Vec<u8>, CodecError>)
    ensures
        match r {
            Ok(b) => fields_fit(msg@, payload@) && b@ == packed(msg@, payload@, index),
            Err(e) => !fields_fit(msg@, payload@) && e == CodecError::Oversize,
        },
{
    let text = msg.as_bytes();
    if text.len() > MAX_FIELD_LEN || payload.len() > MAX_FIELD_LEN {
        return Err(CodecError::Oversize);
    }
    let mut buf: Vec<u8> = Vec::new();
    buf.push(text.len() as u8);
    append_bytes(&mut buf, text);
    buf.push(payload.len() as u8);
    append_bytes(&mut buf, payload);
    buf.push(index);
    assert(buf@ =~= packed(msg@, payload@, index));
    Ok(buf)
}

/// Reads a packed buffer: the message, the payload and the index byte that
/// follow the two length prefixes.
pub fn unpack(buf: &[u8]) -> (r: Result<Frame, CodecError>)
    ensures
        match r {
            Ok(f) => unpacked(buf@) == Some(f@),
            Err(e) => unpacked(buf@) is None && e == CodecError::Malformed,
        },
{
    if buf.len() < 1 {
        return Err(CodecError::Malformed);
    }
    let ml = buf[0] as usize;
    if buf.len() < ml + 2 {
        return Err(CodecError::Malformed);
    }
    let pl = buf[ml + 1] as usize;
    if buf.len() < ml + pl + 3 {
        return Err(CodecError::Malformed);
    }
    let text = copy_range(buf, 1, ml + 1);
    let msg = match text_from_utf8(text.as_slice()) {
        Some(s) => s,
        None => return Err(CodecError::Malformed),
    };
    let payload = copy_range(buf, ml + 2, ml + 2 + pl);
    let index = buf[ml + 2 + pl];
    Ok(Frame { msg, payload, index })
}

/// What `cobs2::cobs::encode_vector` makes of a buffer.
pub uninterp spec fn cobs_encoding(data: Seq<u8>) -> Seq<u8>;

/// What `cobs2::cobs::decode_vector` makes of a buffer, `None` where it fails.
pub uninterp spec fn cobs_decoding(data: Seq<u8>) -> Option<Seq<u8>>;

#[verifier::external_type_specification]
#[verifier::external_body]
pub struct ExCobsError(cobs2::Error);

/// What the stuffing functions of `cobs2` return.
type CobsResult = Result<Vec<u8>, cobs2::Error>;

/// Relies on `cobs2::cobs::encode_vector`: it never fails, its output depends
/// on the input alone and holds no zero byte.
#[verifier::external_body]
fn cobs_encode(data: &[u8]) -> (r: CobsResult)
    ensures
        r is Ok,
        r matches Ok(v) ==> v@ == cobs_encoding(data@),
        r matches Ok(v) ==> forall|k: int| 0 <= k < v@.len() ==> v@[k] != 0,
{
    cobs2::cobs::encode_vector(data)
}

/// Relies on `cobs2::cobs::decode_vector`: its result depends on the input
/// alone, and it gives back the input of `encode_vector` from its output.
#[verifier::external_body]
fn cobs_decode(data: &[u8]) -> (r: CobsResult)
    ensures
        r matches Ok(v) ==> cobs_decoding(data@) == Some(v@),
        cobs_decoding(data@) is Some ==> r is Ok,
        r matches Ok(v) ==> forall|d: Seq<u8>| cobs_encoding(d) == data@ ==> v@ == d,
        r is Ok || forall|d: Seq<u8>| cobs_encoding(d) != data@,
{
    cobs2::cobs::decode_vector(data)
}

/// The wire frame of a triple: its packed buffer, stuffed, then the delimiter.
pub open spec fn frame_of(m: Seq<char>, p: Seq<u8>, i: u8) -> Seq<u8> {
    cobs_encoding(packed(m, p, i)).push(DELIMITER)
}

/// What a wire frame decodes to, `None` where it is malformed.
pub open spec fn decoded(w: Seq<u8>) -> Option<(Seq<char>, Seq<u8>, u8)> {
    if w.len() == 0 || w.last() != DELIMITER {
        None
    } else {
        match cobs_decoding(w.drop_last()) {
            Some(b) => unpacked(b),
            None => None,
        }
    }
}

/// Encodes a triple as one wire frame. The frame holds no delimiter byte but
/// its last one, and nothing is produced for an oversize field.
pub fn encode(msg: &str, payload: &[u8], index: u8) -> (r: Result<Vec<u8>, CodecError>)
    ensures
        r is Err <==> !fields_fit(msg@, payload@),
        r matches Err(e) ==> e == CodecError::Oversize,
        r matches Ok(w) ==> w@ == frame_of(msg@, payload@, index),
        r matches Ok(w) ==> w@.len() >= 1 && w@.last() == DELIMITER && (forall|k: int|
            0 <= k < w@.len() - 1 ==> w@[k] != DELIMITER),
{
    let buf = match pack(msg, payload, index) {
        Ok(b) => b,
        Err(e) => return Err(e),
    };
    match cobs_encode(buf.as_slice()) {
        Ok(mut w) => {
            let ghost stuffed = w@;
            w.push(DELIMITER);
            assert(w@.drop_last() =~= stuffed);
            Ok(w)
        },
        Err(_) => Err(CodecError::Malformed),
    }
}

/// Decodes one wire frame: strips the delimiter, undoes the stuffing and
/// unpacks the fields. A frame that `encode` produced decodes to its fields.
pub fn decode(wire: &[u8]) -> (r: Result<Frame, CodecError>)
    ensures
        match r {
            Ok(f) => decoded(wire@) == Some(f@),
            Err(e) => decoded(wire@) is None && e == CodecError::Malformed,
        },
        forall|m: Seq<char>, p: Seq<u8>, i: u8|
            fields_fit(m, p) && wire@ == #[trigger] frame_of(m, p, i) ==> (r matches Ok(f) && f@
                == (m, p, i)),
{
    let n = wire.len();
    if n == 0 || wire[n - 1] != DELIMITER {
        proof {
            assert forall|m: Seq<char>, p: Seq<u8>, i: u8| #[trigger] frame_of(m, p, i) != wire@ by {
                if frame_of(m, p, i) == wire@ {
                    assert(wire@.last() == DELIMITER);
                }
            }
        }
        return Err(CodecError::Malformed);
    }
    let body = copy_range(wire, 0, n - 1);
    assert(body@ == wire@.drop_last());
    let ghost data = body@;
    proof {
        assert forall|m: Seq<char>, p: Seq<u8>, i: u8|
            fields_fit(m, p) && wire@ == #[trigger] frame_of(m, p, i) implies cobs_encoding(packed(m, p, i)) == data by {
            assert(frame_of(m, p, i).drop_last() =~= cobs_encoding(packed(m, p, i)));
        }
    }
    match cobs_decode(body.as_slice()) {
        Ok(b) => {
            let r = unpack(b.as_slice());
            proof {
                assert forall|m: Seq<char>, p: Seq<u8>, i: u8|
                    fields_fit(m, p) && wire@ == #[trigger] frame_of(m, p, i) implies (r matches Ok(f) && f@ == (m, p, i)) by {
                    assert(cobs_encoding(packed(m, p, i)) == data);
                    lemma_unpack_packed(m, p, i);
                }
            }
            r
        },
        Err(_) => {
            proof {
                assert forall|m: Seq<char>, p: Seq<u8>, i: u8|
                    fields_fit(m, p) && wire@ == #[trigger] frame_of(m, p, i) implies false by {
                    assert(cobs_encoding(packed(m, p, i)) == data);
                }
            }
            Err(CodecError::Malformed)
        },
    }
}

} // verus!
