//! One header record: a file name and five 32-bit fields.
use crate::error::PboError;
use crate::le::{le_bytes, le_value, read_le_u32, write_le_u32};
use crate::source::{lemma_nul_offset, nul_at, Source};
use crate::text::{cstring_bytes, push_cstring, text_of};
use vstd::prelude::*;
use vstd::utf8::{decode_utf8, valid_utf8};

verus! {

/// The `method` tag that marks the extension pseudo-header.
pub const EXT_METHOD: u32 = 0x5665_7273;

#[derive(Debug, Clone)]
pub struct PBOHeader {
    pub filename: String,
    pub method: u32,
    pub original: u32,
    pub reserved: u32,
    pub timestamp: u32,
    pub size: u32,
}

pub struct HeaderView {
    pub filename: Seq<char>,
    pub method: u32,
    pub original: u32,
    pub reserved: u32,
    pub timestamp: u32,
    pub size: u32,
}

impl View for PBOHeader {
    type V = HeaderView;

    open spec fn view(&self) -> HeaderView {
        HeaderView {
            filename: self.filename@,
            method: self.method,
            original: self.original,
            reserved: self.reserved,
            timestamp: self.timestamp,
            size: self.size,
        }
    }
}

/// Forward slashes in a stored name become backslashes.
pub open spec fn normalize(b: Seq<u8>) -> Seq<u8> {
    b.map_values(|x: u8| if x == 0x2f { 0x5cu8 } else { x })
}

/// The 32-bit field stored at `at`.
pub open spec fn field_at(b: Seq<u8>, at: int) -> u32 {
    le_value(b.subrange(at, at + 4)) as u32
}

/// Decodes the header record that starts at `pos`, giving it and the
/// position just past it.
pub open spec fn parse_header(b: Seq<u8>, pos: int) -> Result<(HeaderView, int), PboError> {
    if pos < 0 || pos >= b.len() {
        Err(PboError::MissingSentinel)
    } else {
        let e = nul_at(b, pos);
        let n = normalize(b.subrange(pos, e));
        if e + 21 > b.len() || !valid_utf8(n) {
            Err(PboError::MalformedHeader)
        } else {
            Ok(
                (
                    HeaderView {
                        filename: decode_utf8(n),
                        method: field_at(b, e + 1),
                        original: field_at(b, e + 5),
                        reserved: field_at(b, e + 9),
                        timestamp: field_at(b, e + 13),
                        size: field_at(b, e + 17),
                    },
                    e + 21,
                ),
            )
        }
    }
}

/// The stored form of a header record.
pub open spec fn header_bytes(h: HeaderView) -> Seq<u8> {
    cstring_bytes(h.filename) + le_bytes(h.method) + le_bytes(h.original) + le_bytes(h.reserved)
        + le_bytes(h.timestamp) + le_bytes(h.size)
}

/// Reads one 32-bit field from the cursor.
fn read_field(input: &mut Source) -> (r: Option<u32>)
    requires
        old(input).wf(),
    ensures
        final(input).wf(),
        final(input).bytes() == old(input).bytes(),
        final(input).seek_count() == old(input).seek_count(),
        ({
            let b = old(input).bytes();
            let p = old(input).cursor();
            if p + 4 <= b.len() {
                r == Some(field_at(b, p)) && final(input).cursor() == p + 4
            } else {
                r.is_none()
            }
        }),
{
    match input.read_exact(4) {
        Some(v) => Some(read_le_u32(v.as_slice())),
        None => None,
    }
}

/// Replaces every forward slash by a backslash.
fn normalize_in_place(v: &mut Vec<u8>)
    ensures
        final(v)@ == normalize(old(v)@),
{
    let mut i: usize = 0;
    while i < v.len()
        invariant
            i <= v@.len(),
            v@.len() == old(v)@.len(),
            forall|j: int| 0 <= j < i ==> v@[j] == normalize(old(v)@)[j],
            forall|j: int| i <= j < v@.len() ==> v@[j] == old(v)@[j],
        decreases v.len() - i,
    {
        if v[i] == 0x2f {
            v.set(i, 0x5c);
        }
        i = i + 1;
    }
    assert(v@ =~= normalize(old(v)@));
}

/// Appends the stored form of a 32-bit field.
pub(crate) fn push_field(out: &mut Vec<u8>, n: u32)
    ensures
        final(out)@ == old(out)@ + le_bytes(n),
{
    let mut buf: [u8; 4] = [0u8; 4];
    write_le_u32(&mut buf, n);
    out.push(buf[0]);
    out.push(buf[1]);
    out.push(buf[2]);
    out.push(buf[3]);
    assert(out@ =~= old(out)@ + le_bytes(n));
}

/// A copy of a header record.
pub(crate) fn copy_header(h: &PBOHeader) -> (r: PBOHeader)
    ensures
        r@ == h@,
{
    PBOHeader {
        filename: h.filename.clone(),
        method: h.method,
        original: h.original,
        reserved: h.reserved,
        timestamp: h.timestamp,
        size: h.size,
    }
}

impl PBOHeader {
    /// Decodes one header record at the cursor, with the number of bytes it
    /// took.
    pub fn read(input: &mut Source) -> (r: Result<(PBOHeader, usize), PboError>)
        requires
            old(input).wf(),
        ensures
            final(input).wf(),
            final(input).bytes() == old(input).bytes(),
            final(input).seek_count() == old(input).seek_count(),
            match r {
                Ok((h, n)) => parse_header(old(input).bytes(), old(input).cursor()) == Ok::<
                    (HeaderView, int),
                    PboError,
                >((h@, old(input).cursor() + n)) && final(input).cursor() == old(input).cursor()
                    + n,
                Err(e) => parse_header(old(input).bytes(), old(input).cursor()) == Err::<
                    (HeaderView, int),
                    PboError,
                >(e),
            },
    {
        let ghost b = input.bytes();
        let ghost p = input.cursor();
        proof {
            lemma_nul_offset(b, p);
        }
        if input.position() >= input.len() {
            return Err(PboError::MissingSentinel);
        }
        let mut raw = match input.read_cstring() {
            Some(raw) => raw,
            None => {
                return Err(PboError::MalformedHeader);
            },
        };
        let ghost e = nul_at(b, p);
        let method = match read_field(input) {
            Some(x) => x,
            None => {
                return Err(PboError::MalformedHeader);
            },
        };
        let original = match read_field(input) {
            Some(x) => x,
            None => {
                return Err(PboError::MalformedHeader);
            },
        };
        let reserved = match read_field(input) {
            Some(x) => x,
            None => {
                return Err(PboError::MalformedHeader);
            },
        };
        let timestamp = match read_field(input) {
            Some(x) => x,
            None => {
                return Err(PboError::MalformedHeader);
            },
        };
        let size = match read_field(input) {
            Some(x) => x,
            None => {
                return Err(PboError::MalformedHeader);
            },
        };
        let len = raw.len();
        normalize_in_place(&mut raw);
        let filename = match text_of(raw) {
            Some(s) => s,
            None => {
                return Err(PboError::MalformedHeader);
            },
        };
        let h = PBOHeader { filename, method, original, reserved, timestamp, size };
        Ok((h, len + 21))
    }

    /// Appends the stored form of this record; the name is written as it
    /// stands.
    pub fn write(&self, output: &mut Vec<u8>)
        ensures
            final(output)@ == old(output)@ + header_bytes(self@),
    {
        push_cstring(output, self.filename.as_str());
        push_field(output, self.method);
        push_field(output, self.original);
        push_field(output, self.reserved);
        push_field(output, self.timestamp);
        push_field(output, self.size);
        assert(output@ =~= old(output)@ + header_bytes(self@));
    }
}

} // verus!
