//! The canonical byte layout that `write` produces, stated over views.
use crate::digest::sha1_of;
use crate::format::ExtView;
use crate::header::{header_bytes, HeaderView, EXT_METHOD};
use crate::order::sort_entries;
use crate::pbo::{content, entries, PboView};
use crate::text::cstring_bytes;
use vstd::prelude::*;

verus! {

/// The extension key that is always written first.
pub open spec fn prefix_key() -> Seq<char> {
    seq!['p', 'r', 'e', 'f', 'i', 'x']
}

/// The value recorded last for `key`.
pub open spec fn ext_get(exts: Seq<ExtView>, key: Seq<char>) -> Option<Seq<char>>
    decreases exts.len(),
{
    if exts.len() == 0 {
        None
    } else if exts.last().0 == key {
        Some(exts.last().1)
    } else {
        ext_get(exts.drop_last(), key)
    }
}

/// The header that opens the extension block.
pub open spec fn ext_header() -> HeaderView {
    HeaderView {
        filename: seq![],
        method: EXT_METHOD,
        original: 0,
        reserved: 0,
        timestamp: 0,
        size: 0,
    }
}

/// The header that ends the header list.
pub open spec fn end_header() -> HeaderView {
    HeaderView { filename: seq![], method: 0, original: 0, reserved: 0, timestamp: 0, size: 0 }
}

/// The `prefix` entry, when there is one.
pub open spec fn prefix_part(exts: Seq<ExtView>) -> Seq<u8> {
    match ext_get(exts, prefix_key()) {
        Some(v) => cstring_bytes(prefix_key()) + cstring_bytes(v),
        None => seq![],
    }
}

/// The entries of `keys` other than `prefix`, each key with the value
/// recorded last for it in `all`.
pub open spec fn ext_rest(keys: Seq<ExtView>, all: Seq<ExtView>) -> Seq<u8>
    decreases keys.len(),
{
    if keys.len() == 0 {
        seq![]
    } else {
        let k = keys.last().0;
        ext_rest(keys.drop_last(), all) + if k == prefix_key() {
            seq![]
        } else {
            cstring_bytes(k) + cstring_bytes(
                match ext_get(all, k) {
                    Some(v) => v,
                    None => seq![],
                },
            )
        }
    }
}

/// The extension block: its header, `prefix` first, the other entries in
/// recorded order, and the empty key.
pub open spec fn ext_block(exts: Seq<ExtView>) -> Seq<u8> {
    header_bytes(ext_header()) + prefix_part(exts) + ext_rest(exts, exts) + seq![0u8]
}

/// The header written for `h`: zeroed method, reserved and timestamp, and
/// both sizes equal to the length of the content written.
pub open spec fn out_header(name: Seq<char>, c: Option<Seq<u8>>) -> HeaderView {
    let len = match c {
        Some(b) => b.len(),
        None => 0,
    };
    HeaderView {
        filename: name,
        method: 0,
        original: len as u32,
        reserved: 0,
        timestamp: 0,
        size: len as u32,
    }
}

/// The header records written for `list`.
pub open spec fn headers_block(list: Seq<HeaderView>, c: spec_fn(Seq<char>) -> Option<Seq<u8>>) -> Seq<u8>
    decreases list.len(),
{
    if list.len() == 0 {
        seq![]
    } else {
        let n = list.last().filename;
        headers_block(list.drop_last(), c) + header_bytes(out_header(n, c(n)))
    }
}

/// The contents written for `list`, concatenated.
pub open spec fn payload_block(list: Seq<HeaderView>, c: spec_fn(Seq<char>) -> Option<Seq<u8>>) -> Seq<u8>
    decreases list.len(),
{
    if list.len() == 0 {
        seq![]
    } else {
        let n = list.last().filename;
        payload_block(list.drop_last(), c) + match c(n) {
            Some(b) => b,
            None => seq![],
        }
    }
}

/// The files in the order they are written.
pub open spec fn write_list(v: PboView) -> Seq<HeaderView> {
    sort_entries(entries(v, false))
}

/// The content of each name in `v`.
pub open spec fn contents(v: PboView) -> spec_fn(Seq<char>) -> Option<Seq<u8>> {
    |n: Seq<char>| content(v, n)
}

/// Everything the checksum covers: extension block, headers, end header
/// and payloads.
pub open spec fn canonical(v: PboView) -> Seq<u8> {
    ext_block(v.exts) + headers_block(write_list(v), contents(v)) + header_bytes(end_header())
        + payload_block(write_list(v), contents(v))
}

/// The whole archive as written: the checksummed bytes, a reserved zero
/// byte, and the digest.
pub open spec fn archive_bytes(v: PboView) -> Seq<u8> {
    canonical(v) + seq![0u8] + sha1_of(canonical(v))
}

} // verus!
