//! The archive index as it is laid out on disk, stated over bytes.
use crate::error::PboError;
use crate::header::{parse_header, HeaderView, EXT_METHOD};
use crate::source::nul_at;
use vstd::prelude::*;
use vstd::utf8::{decode_utf8, valid_utf8};

verus! {

/// An extension entry: key and value.
pub type ExtView = (Seq<char>, Seq<char>);

/// The forward scan over header records and extension entries, from `pos`,
/// with the headers `hs` and entries `exts` found so far. `in_ext` holds
/// while inside an extension block. It ends at the empty-name header and
/// gives the headers, the entries and the position just past that header.
#[verifier::opaque]
pub open spec fn scan(b: Seq<u8>, pos: int, in_ext: bool, hs: Seq<HeaderView>, exts: Seq<ExtView>)
    -> Result<(Seq<HeaderView>, Seq<ExtView>, int), PboError>
    decreases b.len() - pos,
{
    if pos < 0 {
        Err(PboError::MissingSentinel)
    } else if in_ext {
        let e = nul_at(b, pos);
        if e >= b.len() {
            Err(PboError::MissingSentinel)
        } else if e == pos {
            scan(b, pos + 1, false, hs, exts)
        } else if !valid_utf8(b.subrange(pos, e)) {
            Err(PboError::MalformedHeader)
        } else {
            let e2 = nul_at(b, e + 1);
            if e2 >= b.len() {
                Err(PboError::MissingSentinel)
            } else if !valid_utf8(b.subrange(e + 1, e2)) {
                Err(PboError::MalformedHeader)
            } else {
                scan(
                    b,
                    e2 + 1,
                    true,
                    hs,
                    exts.push((decode_utf8(b.subrange(pos, e)), decode_utf8(b.subrange(e + 1, e2)))),
                )
            }
        }
    } else {
        match parse_header(b, pos) {
            Err(x) => Err(x),
            Ok((h, _)) => {
                let next = nul_at(b, pos) + 21;
                if h.method == EXT_METHOD {
                    scan(b, next, true, hs, exts)
                } else if h.filename.len() == 0 {
                    Ok((hs, exts, next))
                } else {
                    scan(b, next, false, hs.push(h), exts)
                }
            },
        }
    }
}

/// The scan from the first byte.
pub open spec fn scan_all(b: Seq<u8>) -> Result<(Seq<HeaderView>, Seq<ExtView>, int), PboError> {
    scan(b, 0, false, Seq::<HeaderView>::empty(), Seq::<ExtView>::empty())
}

/// Total payload length declared by `hs`.
pub open spec fn sum_sizes(hs: Seq<HeaderView>) -> int
    decreases hs.len(),
{
    if hs.len() == 0 {
        0
    } else {
        sum_sizes(hs.drop_last()) + hs.last().size
    }
}

pub proof fn lemma_sum_sizes_take(hs: Seq<HeaderView>, i: int)
    requires
        0 <= i < hs.len(),
    ensures
        sum_sizes(hs.take(i + 1)) == sum_sizes(hs.take(i)) + hs[i].size,
        sum_sizes(hs.take(i)) >= 0,
{
    assert(hs.take(i + 1).drop_last() =~= hs.take(i));
    lemma_sum_sizes_nonneg(hs.take(i));
}

pub proof fn lemma_sum_sizes_nonneg(hs: Seq<HeaderView>)
    ensures
        sum_sizes(hs) >= 0,
    decreases hs.len(),
{
    if hs.len() > 0 {
        lemma_sum_sizes_nonneg(hs.drop_last());
    }
}

pub proof fn lemma_sum_sizes_split(a: Seq<HeaderView>, c: Seq<HeaderView>)
    ensures
        sum_sizes(a + c) == sum_sizes(a) + sum_sizes(c),
        sum_sizes(c) >= 0,
    decreases c.len(),
{
    lemma_sum_sizes_nonneg(c);
    if c.len() > 0 {
        assert((a + c).drop_last() =~= a + c.drop_last());
        lemma_sum_sizes_split(a, c.drop_last());
    } else {
        assert(a + c =~= a);
    }
}

/// What a read finds in a source.
pub struct Index {
    pub headers: Seq<HeaderView>,
    pub exts: Seq<ExtView>,
    pub blob_start: int,
    pub checksum: Seq<u8>,
}

/// Decodes the index of an archive: the headers, the extension entries,
/// where the payloads begin, and the stored checksum after them.
pub open spec fn parse_archive(b: Seq<u8>) -> Result<Index, PboError> {
    match scan_all(b) {
        Err(e) => Err(e),
        Ok((hs, exts, start)) => {
            let end = start + sum_sizes(hs);
            if end > b.len() {
                Err(PboError::TruncatedPayload)
            } else if end + 21 > b.len() {
                Err(PboError::TruncatedChecksum)
            } else {
                Ok(
                    Index {
                        headers: hs,
                        exts: exts,
                        blob_start: start,
                        checksum: b.subrange(end + 1, end + 21),
                    },
                )
            }
        },
    }
}

} // verus!
