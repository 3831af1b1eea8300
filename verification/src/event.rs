//! The `Event` record and its wire codec. An encoded event is six
//! length-prefixed fields in a fixed order — path, name, from, target,
//! public_data, data — behind one outer total-length prefix. Decoding walks
//! the fields sequentially, validating every declared length and the UTF-8 of
//! the three text fields, and never reads out of bounds.

use crate::path::{join, lemma_path_roundtrip, path_parse, path_wf, Path};
use crate::wire::{
    be32, from_of, lemma_u32_be_roundtrip, lemma_u64_be_roundtrip, parse_from, push_u32_be,
    push_u64_be, read_u32_at, u32_be_bytes, u64_be_bytes,
};
use vstd::prelude::*;
use vstd::string::StrSliceExecFns;
use vstd::utf8::{decode_utf8, encode_utf8, encode_utf8_decode_utf8, encode_utf8_valid_utf8, valid_utf8};

verus! {

/// Why a buffer failed to decode.
#[derive(Clone, Copy, Debug, PartialEq, Eq, Structural)]
pub enum DecodeError {
    /// The whole buffer is no longer than the six length prefixes alone.
    TooShort,
    /// A field's declared length exceeds the bytes that remain, or a length
    /// prefix itself is cut off.
    TruncatedInput,
    /// A text field's bytes are not valid UTF-8.
    InvalidText,
}

/// Why an event failed to encode.
#[derive(Clone, Copy, Debug, PartialEq, Eq, Structural)]
pub enum EncodeError {
    /// The path could not be turned into bytes.
    PathEncodingFailed,
}

/// An event record: a hierarchical path, a name, a numeric origin, a target,
/// public metadata, and an opaque payload.
#[derive(Debug)]
pub struct Event {
    pub path: Path,
    pub name: String,
    pub from: u64,
    pub target: String,
    pub public_data: String,
    pub data: Vec<u8>,
}

/// The mathematical content of an [`Event`].
#[verifier::ext_equal]
pub ghost struct EventV {
    pub path: Seq<Seq<u8>>,
    pub name: Seq<char>,
    pub from: u64,
    pub target: Seq<char>,
    pub public_data: Seq<char>,
    pub data: Seq<u8>,
}

impl View for Event {
    type V = EventV;

    open spec fn view(&self) -> EventV {
        EventV {
            path: self.path@,
            name: self.name@,
            from: self.from,
            target: self.target@,
            public_data: self.public_data@,
            data: self.data@,
        }
    }
}

/// The event with the root path, empty text fields, origin zero and no payload.
pub open spec fn empty_event() -> EventV {
    EventV {
        path: Seq::empty(),
        name: Seq::empty(),
        from: 0u64,
        target: Seq::empty(),
        public_data: Seq::empty(),
        data: Seq::empty(),
    }
}

/// One framed field: a 4-byte big-endian length prefix, then the payload.
pub open spec fn frame(p: Seq<u8>) -> Seq<u8> {
    u32_be_bytes(p.len() as u32) + p
}

/// Reads one framed field at `off`: the declared length must not exceed the
/// bytes that remain; a missing or cut-off prefix counts as truncation.
pub open spec fn parse_field(b: Seq<u8>, off: int) -> Result<(Seq<u8>, int), DecodeError> {
    if off + 4 > b.len() {
        Err(DecodeError::TruncatedInput)
    } else {
        let l = be32(b.subrange(off, off + 4)) as int;
        if l > b.len() - (off + 4) {
            Err(DecodeError::TruncatedInput)
        } else {
            Ok((b.subrange(off + 4, off + 4 + l), off + 4 + l))
        }
    }
}

/// Reads one framed field and decodes its payload as UTF-8 text.
pub open spec fn parse_text(b: Seq<u8>, off: int) -> Result<(Seq<char>, int), DecodeError> {
    match parse_field(b, off) {
        Ok((p, next)) => if valid_utf8(p) {
            Ok((decode_utf8(p), next))
        } else {
            Err(DecodeError::InvalidText)
        },
        Err(e) => Err(e),
    }
}

/// The path carried by a path-field payload: a payload that does not parse
/// degrades to the root path rather than failing the decode.
pub open spec fn parsed_path(p: Seq<u8>) -> Seq<Seq<u8>> {
    match path_parse(p) {
        Some(ss) => ss,
        None => Seq::empty(),
    }
}

/// What decoding a buffer yields: the six fields in their fixed order, read
/// strictly sequentially. Trailing bytes after the sixth field are ignored.
pub open spec fn parse_event(b: Seq<u8>) -> Result<EventV, DecodeError> {
    if b.len() <= 24 {
        Err(DecodeError::TooShort)
    } else {
        match parse_field(b, 0) {
            Err(e) => Err(e),
            Ok((p1, o1)) => match parse_text(b, o1) {
                Err(e) => Err(e),
                Ok((name, o2)) => match parse_field(b, o2) {
                    Err(e) => Err(e),
                    Ok((p3, o3)) => match parse_text(b, o3) {
                        Err(e) => Err(e),
                        Ok((target, o4)) => match parse_text(b, o4) {
                            Err(e) => Err(e),
                            Ok((public_data, o5)) => match parse_field(b, o5) {
                                Err(e) => Err(e),
                                Ok((p6, _o6)) => Ok(
                                    EventV {
                                        path: parsed_path(p1),
                                        name,
                                        from: from_of(p3),
                                        target,
                                        public_data,
                                        data: p6,
                                    },
                                ),
                            },
                        },
                    },
                },
            },
        }
    }
}

/// The byte count of an event's six framed fields (without the outer prefix).
pub open spec fn wire_size(v: EventV) -> int {
    24 + join(v.path).len() as int + encode_utf8(v.name).len() as int + 8 + encode_utf8(
        v.target,
    ).len() as int + encode_utf8(v.public_data).len() as int + v.data.len() as int
}

/// An event's six framed fields in their fixed order (without the outer
/// prefix): the `from` field is always framed as exactly eight bytes.
pub open spec fn event_wire(v: EventV) -> Seq<u8> {
    frame(join(v.path)) + frame(encode_utf8(v.name)) + frame(u64_be_bytes(v.from)) + frame(
        encode_utf8(v.target),
    ) + frame(encode_utf8(v.public_data)) + frame(v.data)
}

/// Relies on `String::from_utf8`: it returns the string made of exactly the
/// given bytes when they are valid UTF-8, and rejects them otherwise.
#[verifier::external_body]
fn bytes_to_string(bytes: Vec<u8>) -> (r: Option<String>)
    ensures
        match r {
            Some(s) => valid_utf8(bytes@) && s@ == decode_utf8(bytes@),
            None => !valid_utf8(bytes@),
        },
{
    match String::from_utf8(bytes) {
        Ok(s) => Some(s),
        Err(_) => None,
    }
}

/// Reads the framed field at `off`, exactly as [`parse_field`] says.
fn read_field(data: &Vec<u8>, off: usize) -> (r: Result<(Vec<u8>, usize), DecodeError>)
    requires
        off <= data@.len(),
    ensures
        match r {
            Ok((payload, next)) => parse_field(data@, off as int) == Ok::<_, DecodeError>(
                (payload@, next as int),
            ) && off + 4 <= next <= data@.len(),
            Err(e) => parse_field(data@, off as int) == Err::<(Seq<u8>, int), _>(e),
        },
{
    let n = data.len();
    if n - off < 4 {
        return Err(DecodeError::TruncatedInput);
    }
    let l32 = read_u32_at(data, off);
    let l = l32 as usize;
    let body_start = off + 4;
    if l > n - body_start {
        return Err(DecodeError::TruncatedInput);
    }
    let mut payload: Vec<u8> = Vec::with_capacity(l);
    let mut j: usize = 0;
    while j < l
        invariant
            j <= l,
            n == data@.len(),
            body_start + l <= n,
            body_start == off + 4,
            payload@ == data@.subrange(body_start as int, body_start as int + j),
        decreases l - j,
    {
        payload.push(data[body_start + j]);
        proof {
            assert(data@.subrange(body_start as int, body_start as int + j).push(
                data@[body_start as int + j],
            ) =~= data@.subrange(body_start as int, body_start as int + j + 1));
        }
        j += 1;
    }
    Ok((payload, body_start + l))
}

/// Reads the framed field at `off` as UTF-8 text, exactly as [`parse_text`]
/// says.
fn read_text_field(data: &Vec<u8>, off: usize) -> (r: Result<(String, usize), DecodeError>)
    requires
        off <= data@.len(),
    ensures
        match r {
            Ok((s, next)) => parse_text(data@, off as int) == Ok::<_, DecodeError>(
                (s@, next as int),
            ) && off + 4 <= next <= data@.len(),
            Err(e) => parse_text(data@, off as int) == Err::<(Seq<char>, int), _>(e),
        },
{
    match read_field(data, off) {
        Ok((payload, next)) => match bytes_to_string(payload) {
            Some(s) => Ok((s, next)),
            None => Err(DecodeError::InvalidText),
        },
        Err(e) => Err(e),
    }
}

/// Appends one framed field: the payload's 4-byte length, then the payload.
fn write_field(out: &mut Vec<u8>, payload: &Vec<u8>)
    requires
        payload@.len() <= 0xFFFF_FFFF,
    ensures
        final(out)@ == old(out)@ + frame(payload@),
{
    push_u32_be(out, payload.len() as u32);
    let ghost base = out@;
    let mut j: usize = 0;
    while j < payload.len()
        invariant
            j <= payload@.len(),
            out@ == base + payload@.subrange(0, j as int),
        decreases payload@.len() - j,
    {
        out.push(payload[j]);
        proof {
            assert(base + payload@.subrange(0, j as int) + seq![payload@[j as int]] =~= base
                + payload@.subrange(0, j as int + 1));
        }
        j += 1;
    }
    proof {
        assert(payload@.subrange(0, payload@.len() as int) =~= payload@);
        assert(out@ =~= old(out)@ + frame(payload@));
    }
}

/// A framed field embedded between `pre` and `rest` parses back to exactly
/// its payload, leaving the cursor right behind it.
proof fn lemma_parse_concat(pre: Seq<u8>, p: Seq<u8>, rest: Seq<u8>)
    requires
        p.len() <= 0xFFFF_FFFF,
    ensures
        parse_field(pre + frame(p) + rest, pre.len() as int) == Ok::<_, DecodeError>(
            (p, pre.len() + 4 + p.len() as int),
        ),
{
    let w = pre + frame(p) + rest;
    let off = pre.len() as int;
    assert(u32_be_bytes(p.len() as u32).len() == 4);
    assert(w.subrange(off, off + 4) =~= u32_be_bytes(p.len() as u32));
    lemma_u32_be_roundtrip(p.len() as u32);
    assert(be32(w.subrange(off, off + 4)) == p.len() as u32);
    assert(w.subrange(off + 4, off + 4 + p.len() as int) =~= p);
}

/// Round trip: the six framed fields of a well-formed, wire-sized event parse
/// back to exactly that event.
#[verifier::rlimit(100)]
pub proof fn lemma_event_roundtrip(v: EventV)
    requires
        path_wf(v.path),
        wire_size(v) <= 0xFFFF_FFFF,
    ensures
        parse_event(event_wire(v)) == Ok::<_, DecodeError>(v),
{
    let p1 = join(v.path);
    let p2 = encode_utf8(v.name);
    let p3 = u64_be_bytes(v.from);
    let p4 = encode_utf8(v.target);
    let p5 = encode_utf8(v.public_data);
    let p6 = v.data;
    let w = event_wire(v);
    assert(frame(p1).len() == 4 + p1.len());
    assert(frame(p2).len() == 4 + p2.len());
    assert(frame(p3).len() == 4 + 8);
    assert(frame(p4).len() == 4 + p4.len());
    assert(frame(p5).len() == 4 + p5.len());
    assert(frame(p6).len() == 4 + p6.len());
    assert(w.len() == wire_size(v));
    assert(w.len() > 24);

    assert(w =~= Seq::<u8>::empty() + frame(p1) + (frame(p2) + frame(p3) + frame(p4) + frame(p5)
        + frame(p6)));
    lemma_parse_concat(
        Seq::empty(),
        p1,
        frame(p2) + frame(p3) + frame(p4) + frame(p5) + frame(p6),
    );
    let o1 = 4 + p1.len() as int;
    assert(parse_field(w, 0) == Ok::<_, DecodeError>((p1, o1)));

    assert(w =~= frame(p1) + frame(p2) + (frame(p3) + frame(p4) + frame(p5) + frame(p6)));
    lemma_parse_concat(frame(p1), p2, frame(p3) + frame(p4) + frame(p5) + frame(p6));
    let o2 = o1 + 4 + p2.len() as int;
    assert(parse_field(w, o1) == Ok::<_, DecodeError>((p2, o2)));

    assert(w =~= (frame(p1) + frame(p2)) + frame(p3) + (frame(p4) + frame(p5) + frame(p6)));
    lemma_parse_concat(frame(p1) + frame(p2), p3, frame(p4) + frame(p5) + frame(p6));
    let o3 = o2 + 4 + 8;
    assert(parse_field(w, o2) == Ok::<_, DecodeError>((p3, o3)));

    assert(w =~= (frame(p1) + frame(p2) + frame(p3)) + frame(p4) + (frame(p5) + frame(p6)));
    lemma_parse_concat(frame(p1) + frame(p2) + frame(p3), p4, frame(p5) + frame(p6));
    let o4 = o3 + 4 + p4.len() as int;
    assert(parse_field(w, o3) == Ok::<_, DecodeError>((p4, o4)));

    assert(w =~= (frame(p1) + frame(p2) + frame(p3) + frame(p4)) + frame(p5) + frame(p6));
    lemma_parse_concat(frame(p1) + frame(p2) + frame(p3) + frame(p4), p5, frame(p6));
    let o5 = o4 + 4 + p5.len() as int;
    assert(parse_field(w, o4) == Ok::<_, DecodeError>((p5, o5)));

    assert(w =~= (frame(p1) + frame(p2) + frame(p3) + frame(p4) + frame(p5)) + frame(p6)
        + Seq::<u8>::empty());
    lemma_parse_concat(frame(p1) + frame(p2) + frame(p3) + frame(p4) + frame(p5), p6, Seq::empty());
    let o6 = o5 + 4 + p6.len() as int;
    assert(parse_field(w, o5) == Ok::<_, DecodeError>((p6, o6)));

    encode_utf8_valid_utf8(v.name);
    encode_utf8_decode_utf8(v.name);
    encode_utf8_valid_utf8(v.target);
    encode_utf8_decode_utf8(v.target);
    encode_utf8_valid_utf8(v.public_data);
    encode_utf8_decode_utf8(v.public_data);
    assert(parse_text(w, o1) == Ok::<_, DecodeError>((v.name, o2)));
    assert(parse_text(w, o3) == Ok::<_, DecodeError>((v.target, o4)));
    assert(parse_text(w, o4) == Ok::<_, DecodeError>((v.public_data, o5)));

    lemma_path_roundtrip(v.path);
    assert(parsed_path(p1) == v.path);
    lemma_u64_be_roundtrip(v.from);

    assert(EventV {
        path: parsed_path(p1),
        name: v.name,
        from: from_of(p3),
        target: v.target,
        public_data: v.public_data,
        data: p6,
    } =~= v);
}

/// The `from` field is framed as exactly eight payload bytes, whatever its
/// numeric value — zero and the largest value alike.
pub proof fn lemma_from_fixed_width(n: u64)
    ensures
        u64_be_bytes(n).len() == 8,
        frame(u64_be_bytes(n)).len() == 12,
{
}

/// A declared field length that exceeds the bytes remaining behind its
/// prefix is rejected as truncation — the field is never read out of bounds.
pub proof fn lemma_declared_length_checked(b: Seq<u8>, off: int)
    requires
        0 <= off,
        off + 4 <= b.len(),
        be32(b.subrange(off, off + 4)) as int > b.len() - (off + 4),
    ensures
        parse_field(b, off) == Err::<(Seq<u8>, int), _>(DecodeError::TruncatedInput),
{
}

/// A framed text field whose payload is not valid UTF-8 is rejected as
/// invalid text.
pub proof fn lemma_invalid_text_rejected(b: Seq<u8>, off: int)
    requires
        parse_field(b, off) is Ok,
        !valid_utf8(parse_field(b, off)->Ok_0.0),
    ensures
        parse_text(b, off) == Err::<(Seq<char>, int), _>(DecodeError::InvalidText),
{
}

/// A field that parsed within the buffer parses the same after more bytes are
/// appended.
proof fn lemma_parse_field_extend(b: Seq<u8>, extra: Seq<u8>, off: int)
    requires
        0 <= off,
        parse_field(b, off) is Ok,
    ensures
        parse_field(b + extra, off) == parse_field(b, off),
{
    assert((b + extra).subrange(off, off + 4) =~= b.subrange(off, off + 4));
    let l = be32(b.subrange(off, off + 4)) as int;
    assert((b + extra).subrange(off + 4, off + 4 + l) =~= b.subrange(off + 4, off + 4 + l));
}

/// Trailing bytes are ignored: a buffer that decodes to an event still
/// decodes to the same event after arbitrary bytes are appended.
pub proof fn lemma_trailing_ignored(b: Seq<u8>, extra: Seq<u8>)
    requires
        parse_event(b) is Ok,
    ensures
        parse_event(b + extra) == parse_event(b),
{
    let r1 = parse_field(b, 0);
    assert(r1 is Ok);
    let o1 = r1->Ok_0.1;
    lemma_parse_field_extend(b, extra, 0);
    let r2 = parse_field(b, o1);
    assert(r2 is Ok);
    let o2 = r2->Ok_0.1;
    lemma_parse_field_extend(b, extra, o1);
    let r3 = parse_field(b, o2);
    assert(r3 is Ok);
    let o3 = r3->Ok_0.1;
    lemma_parse_field_extend(b, extra, o2);
    let r4 = parse_field(b, o3);
    assert(r4 is Ok);
    let o4 = r4->Ok_0.1;
    lemma_parse_field_extend(b, extra, o3);
    let r5 = parse_field(b, o4);
    assert(r5 is Ok);
    let o5 = r5->Ok_0.1;
    lemma_parse_field_extend(b, extra, o4);
    let r6 = parse_field(b, o5);
    assert(r6 is Ok);
    lemma_parse_field_extend(b, extra, o5);
}

impl Event {
    /// The default event: root path, empty texts, origin zero, no payload.
    pub fn default() -> (r: Event)
        ensures
            r@ == empty_event(),
    {
        let r = Event {
            path: Path::new(),
            name: String::new(),
            from: 0,
            target: String::new(),
            public_data: String::new(),
            data: Vec::new(),
        };
        assert(r@ =~= empty_event());
        r
    }

    /// Decodes an event from its six framed fields, exactly as
    /// [`parse_event`] says: a buffer of 24 bytes or fewer is rejected
    /// outright, every declared length is checked against the bytes that
    /// remain, the three text fields must be valid UTF-8, and a path payload
    /// that does not parse degrades to the root path.
    pub fn from_raw(data: &Vec<u8>) -> (r: Result<Event, DecodeError>)
        ensures
            match r {
                Ok(ev) => parse_event(data@) == Ok::<_, DecodeError>(ev@),
                Err(e) => parse_event(data@) == Err::<EventV, _>(e),
            },
            data@.len() <= 24 ==> r is Err && r->Err_0 == DecodeError::TooShort,
    {
        let n = data.len();
        if n <= 24 {
            return Err(DecodeError::TooShort);
        }
        let (p1, o1) = match read_field(data, 0) {
            Ok(t) => t,
            Err(e) => return Err(e),
        };
        let path = match Path::from_bytes(p1.as_slice()) {
            Some(p) => p,
            None => Path::new(),
        };
        assert(path@ == parsed_path(p1@));
        let (name, o2) = match read_text_field(data, o1) {
            Ok(t) => t,
            Err(e) => return Err(e),
        };
        let (p3, o3) = match read_field(data, o2) {
            Ok(t) => t,
            Err(e) => return Err(e),
        };
        let from = parse_from(&p3);
        let (target, o4) = match read_text_field(data, o3) {
            Ok(t) => t,
            Err(e) => return Err(e),
        };
        let (public_data, o5) = match read_text_field(data, o4) {
            Ok(t) => t,
            Err(e) => return Err(e),
        };
        let (p6, _o6) = match read_field(data, o5) {
            Ok(t) => t,
            Err(e) => return Err(e),
        };
        let ev = Event { path, name, from, target, public_data, data: p6 };
        proof {
            assert(ev@ =~= EventV {
                path: parsed_path(p1@),
                name: name@,
                from: from_of(p3@),
                target: target@,
                public_data: public_data@,
                data: p6@,
            });
        }
        Ok(ev)
    }

    /// Encodes the event as its outer total-length prefix followed by its six
    /// framed fields; fails only when the path cannot be turned into bytes.
    /// The buffer decodes back to this very event once the outer prefix is
    /// stripped.
    #[verifier::rlimit(100)]
    pub fn to_raw(&self) -> (r: Result<Vec<u8>, EncodeError>)
        requires
            wire_size(self@) <= 0xFFFF_FFFF,
            wire_size(self@) + 4 <= usize::MAX,
        ensures
            match r {
                Ok(buf) => path_wf(self@.path) && buf@ == u32_be_bytes(wire_size(self@) as u32)
                    + event_wire(self@) && buf@.len() == 4 + wire_size(self@) && parse_event(
                    buf@.subrange(4, buf@.len() as int),
                ) == Ok::<_, DecodeError>(self@),
                Err(e) => e == EncodeError::PathEncodingFailed && !path_wf(self@.path),
            },
    {
        let path_bytes = match self.path.to_bytes() {
            Some(b) => b,
            None => return Err(EncodeError::PathEncodingFailed),
        };
        let name_bytes = self.name.as_str().as_bytes_vec();
        let target_bytes = self.target.as_str().as_bytes_vec();
        let public_bytes = self.public_data.as_str().as_bytes_vec();
        assert(name_bytes@ == encode_utf8(self.name@));
        assert(target_bytes@ == encode_utf8(self.target@));
        assert(public_bytes@ == encode_utf8(self.public_data@));
        let total: usize = 28 + path_bytes.len() + name_bytes.len() + 8 + target_bytes.len()
            + public_bytes.len() + self.data.len();
        let mut buf: Vec<u8> = Vec::with_capacity(total);
        push_u32_be(&mut buf, (total - 4) as u32);
        write_field(&mut buf, &path_bytes);
        write_field(&mut buf, &name_bytes);
        push_u32_be(&mut buf, 8);
        push_u64_be(&mut buf, self.from);
        write_field(&mut buf, &target_bytes);
        write_field(&mut buf, &public_bytes);
        write_field(&mut buf, &self.data);
        proof {
            let v = self@;
            let f1 = frame(path_bytes@);
            let f2 = frame(name_bytes@);
            let f3 = frame(u64_be_bytes(self.from));
            let f4 = frame(target_bytes@);
            let f5 = frame(public_bytes@);
            let f6 = frame(self.data@);
            let outer = u32_be_bytes((total - 4) as u32);
            assert(u32_be_bytes(8u32) + u64_be_bytes(self.from) =~= f3);
            assert(buf@ == outer + f1 + f2 + (u32_be_bytes(8u32) + u64_be_bytes(self.from)) + f4
                + f5 + f6) by {
                assert(outer + f1 + f2 + u32_be_bytes(8u32) + u64_be_bytes(self.from) =~= outer
                    + f1 + f2 + (u32_be_bytes(8u32) + u64_be_bytes(self.from)));
            }
            assert(event_wire(v) == f1 + f2 + f3 + f4 + f5 + f6);
            assert(buf@ == outer + event_wire(v)) by {
                assert(outer + f1 + f2 + f3 + f4 + f5 + f6 =~= outer + (f1 + f2 + f3 + f4 + f5
                    + f6));
            }
            assert((total - 4) as int == wire_size(v));
            assert(buf@.len() == 4 + wire_size(v));
            assert(buf@.subrange(4, buf@.len() as int) =~= event_wire(v));
            lemma_event_roundtrip(v);
        }
        Ok(buf)
    }
}

} // verus!
