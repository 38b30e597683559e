//! Properties that relate several operations of the archive.
use crate::encode::{
    archive_bytes, canonical, contents, end_header, ext_block, ext_get, ext_header, ext_rest,
    headers_block, payload_block, prefix_key, prefix_part, write_list,
};
use crate::format::{
    lemma_sum_sizes_split, lemma_sum_sizes_take, parse_archive, scan, sum_sizes, ExtView, Index,
};
use crate::encode::out_header;
use crate::header::{EXT_METHOD, field_at, header_bytes, normalize, parse_header, HeaderView};
use crate::le::{le_bytes, lemma_le_round_trip};
use crate::source::{lemma_nul_offset, nul_at, nul_offset};
use crate::text::cstring_bytes;
use vstd::utf8::{decode_utf8, encode_utf8, encode_utf8_decode_utf8, encode_utf8_valid_utf8};
use crate::order::{bytes_lt, insert_sorted, name_key, sort_entries};
use crate::pbo::{
    content, disk_file, entries, first_named, synth, file_pos, has_header, header_pos, overlay_get, overlay_only,
    pbo_wf, retrieved, FileView, PboView,
};
use crate::digest::sha1_of;
use crate::error::PboError;
use vstd::prelude::*;

verus! {

proof fn lemma_absent(ov: Seq<FileView>, name: Seq<char>)
    requires
        overlay_get(ov, name) is None,
    ensures
        forall|i: int| 0 <= i < ov.len() ==> ov[i].0 != name,
{
    if exists|i: int| 0 <= i < ov.len() && ov[i].0 == name {
        let c = choose|i: int| 0 <= i < ov.len() && ov[i].0 == name;
        assert(file_pos(ov, name) == c);
    }
}

proof fn lemma_unique_pos(ov: Seq<FileView>, name: Seq<char>, i: int)
    requires
        forall|a: int, b: int| 0 <= a < b < ov.len() ==> ov[a].0 != ov[b].0,
        0 <= i < ov.len(),
        ov[i].0 == name,
    ensures
        file_pos(ov, name) == i,
{
    let c = choose|c: int| 0 <= c < ov.len() && ov[c].0 == name;
    assert(0 <= c < ov.len() && ov[c].0 == name);
    if c < i {
        assert(ov[c].0 != ov[i].0);
    } else if c > i {
        assert(ov[i].0 != ov[c].0);
    }
}

/// Adding the entry `(name, c)` for a name absent from the overlay changes
/// what `n` reads only when `n` is `name`.
proof fn lemma_push_get(ov: Seq<FileView>, name: Seq<char>, c: Seq<u8>, n: Seq<char>)
    requires
        forall|a: int, b: int| 0 <= a < b < ov.len() ==> ov[a].0 != ov[b].0,
        forall|i: int| 0 <= i < ov.len() ==> ov[i].0 != name,
    ensures
        overlay_get(ov.push((name, c)), n) == if n == name {
            Some(c)
        } else {
            overlay_get(ov, n)
        },
{
    let nv = ov.push((name, c));
    assert forall|a: int, b: int| 0 <= a < b < nv.len() implies nv[a].0 != nv[b].0 by {
        if b == ov.len() {
            assert(nv[a] == ov[a]);
        } else {
            assert(nv[a] == ov[a] && nv[b] == ov[b]);
        }
    }
    if n == name {
        lemma_unique_pos(nv, n, ov.len() as int);
    } else if exists|i: int| 0 <= i < ov.len() && ov[i].0 == n {
        let i = choose|i: int| 0 <= i < ov.len() && ov[i].0 == n;
        lemma_unique_pos(ov, n, i);
        assert(nv[i] == ov[i]);
        lemma_unique_pos(nv, n, i);
    } else {
        assert forall|i: int| 0 <= i < nv.len() implies nv[i].0 != n by {
            if i < ov.len() {
                assert(nv[i] == ov[i]);
            }
        }
    }
}

/// With caching off, retrieving a file declared on disk twice reads the
/// source both times (the seek count grows, short of saturating); with
/// caching on, the second retrieval is answered from the overlay and leaves
/// the source alone. Both give the same bytes.
pub proof fn cache_semantics(
    v0: PboView,
    v1: PboView,
    v2: PboView,
    name: Seq<char>,
    r1: Option<Seq<u8>>,
    r2: Option<Seq<u8>>,
)
    requires
        pbo_wf(v0),
        overlay_get(v0.overlay, name) is None,
        disk_file(v0, name) is Some,
        retrieved(v0, v1, name, r1),
        retrieved(v1, v2, name, r2),
    ensures
        r1 is Some,
        r2 == r1,
        !v0.cache ==> (v1.seeks < u64::MAX ==> v2.seeks > v1.seeks),
        v0.cache ==> v2.seeks == v1.seeks,
{
    lemma_absent(v0.overlay, name);
    if v0.cache {
        lemma_push_get(v0.overlay, name, r1->Some_0, name);
    }
}

/// A retrieval leaves unchanged the bytes that the checksum covers, so
/// `gen_checksum` gives the same digest before and after it.
pub proof fn retrieve_keeps_checksum(v0: PboView, v1: PboView, name: Seq<char>, r: Option<Seq<u8>>)
    requires
        pbo_wf(v0),
        retrieved(v0, v1, name, r),
    ensures
        canonical(v1) == canonical(v0),
        sha1_of(canonical(v1)) == sha1_of(canonical(v0)),
{
    if overlay_get(v0.overlay, name) is None && v0.cache && r is Some {
        lemma_absent(v0.overlay, name);
        let c = r->Some_0;
        assert forall|n: Seq<char>| #[trigger] content(v1, n) == content(v0, n) by {
            lemma_push_get(v0.overlay, name, c, n);
        }
        assert(contents(v1) =~= contents(v0));
        assert(header_pos(v0.headers, name) < v0.headers.len());
        assert(has_header(v0.headers, name));
        assert(v1.overlay.drop_last() =~= v0.overlay);
        assert(overlay_only(v1.overlay, v1.headers) == overlay_only(v0.overlay, v0.headers));
        assert(entries(v1, false) == entries(v0, false));
    } else {
        assert(v1.overlay == v0.overlay);
        assert(contents(v1) =~= contents(v0));
    }
}

/// An archive with no files and no extension entries is checksummed over
/// exactly its extension header, the empty key, and the end header (43
/// bytes); the whole archive adds a zero byte and the digest.
pub proof fn empty_archive_layout(v: PboView)
    requires
        v.headers.len() == 0,
        v.exts.len() == 0,
        v.overlay.len() == 0,
    ensures
        canonical(v) == header_bytes(ext_header()) + seq![0u8] + header_bytes(end_header()),
        canonical(v).len() == 43,
        archive_bytes(v) == canonical(v) + seq![0u8] + sha1_of(canonical(v)),
{
    assert(overlay_only(v.overlay, v.headers) =~= seq![]);
    assert(entries(v, false) =~= seq![]);
    assert(write_list(v) =~= seq![]);
    assert(prefix_part(v.exts) =~= seq![]);
    assert(ext_rest(v.exts, v.exts) =~= seq![]);
    assert(canonical(v) =~= header_bytes(ext_header()) + seq![0u8] + header_bytes(end_header()));
}

/// Whether a name survives being stored: its UTF-8 bytes hold neither a
/// NUL byte (which would end it) nor a forward slash (which decoding turns
/// into a backslash).
pub open spec fn storable_name(name: Seq<char>) -> bool {
    forall|i: int|
        0 <= i < encode_utf8(name).len() ==> #[trigger] encode_utf8(name)[i] != 0
            && encode_utf8(name)[i] != 0x2f
}

proof fn lemma_nul_run(b: Seq<u8>, p: int, k: int)
    requires
        0 <= p <= k < b.len(),
        b[k] == 0,
        forall|i: int| p <= i < k ==> b[i] != 0,
    ensures
        nul_offset(b, p) == k - p,
    decreases k - p,
{
    if p < k {
        lemma_nul_run(b, p + 1, k);
    }
}

proof fn lemma_field(b: Seq<u8>, at: int, n: u32)
    requires
        0 <= at,
        at + 4 <= b.len(),
        b.subrange(at, at + 4) == le_bytes(n),
    ensures
        field_at(b, at) == n,
{
    lemma_le_round_trip(n);
}

/// Decoding the stored form of a header record, whatever follows it, gives
/// the record back and the position just past it, for any storable name.
pub proof fn header_round_trip(h: HeaderView, rest: Seq<u8>)
    requires
        storable_name(h.filename),
    ensures
        parse_header(header_bytes(h) + rest, 0) == Ok::<(HeaderView, int), PboError>(
            (h, header_bytes(h).len() as int),
        ),
{
    let b = header_bytes(h) + rest;
    assert(b.subrange(0, header_bytes(h).len() as int) =~= header_bytes(h));
    lemma_header_at(b, 0, h);
}

proof fn lemma_sub(b: Seq<u8>, pos: int, x: Seq<u8>, lo: int, hi: int)
    requires
        0 <= pos,
        0 <= lo <= hi <= x.len(),
        pos + x.len() <= b.len(),
        b.subrange(pos, pos + x.len()) == x,
    ensures
        b.subrange(pos + lo, pos + hi) == x.subrange(lo, hi),
{
    assert forall|i: int| 0 <= i < hi - lo implies b.subrange(pos + lo, pos + hi)[i] == x.subrange(lo, hi)[i] by {
        assert(b.subrange(pos, pos + x.len())[lo + i] == x[lo + i]);
    }
    assert(b.subrange(pos + lo, pos + hi) =~= x.subrange(lo, hi));
}

proof fn lemma_header_parts(h: HeaderView)
    ensures
        ({
            let hb = header_bytes(h);
            let k = encode_utf8(h.filename).len() as int;
            &&& hb.len() == k + 21
            &&& hb.subrange(0, k) == encode_utf8(h.filename)
            &&& hb[k] == 0
            &&& hb.subrange(k + 1, k + 5) == le_bytes(h.method)
            &&& hb.subrange(k + 5, k + 9) == le_bytes(h.original)
            &&& hb.subrange(k + 9, k + 13) == le_bytes(h.reserved)
            &&& hb.subrange(k + 13, k + 17) == le_bytes(h.timestamp)
            &&& hb.subrange(k + 17, k + 21) == le_bytes(h.size)
        }),
{
    let hb = header_bytes(h);
    let e = encode_utf8(h.filename);
    let k = e.len() as int;
    assert(hb.subrange(0, k) =~= e);
    assert(hb.subrange(k + 1, k + 5) =~= le_bytes(h.method));
    assert(hb.subrange(k + 5, k + 9) =~= le_bytes(h.original));
    assert(hb.subrange(k + 9, k + 13) =~= le_bytes(h.reserved));
    assert(hb.subrange(k + 13, k + 17) =~= le_bytes(h.timestamp));
    assert(hb.subrange(k + 17, k + 21) =~= le_bytes(h.size));
}

proof fn lemma_header_at(b: Seq<u8>, pos: int, h: HeaderView)
    requires
        storable_name(h.filename),
        0 <= pos,
        pos + header_bytes(h).len() <= b.len(),
        b.subrange(pos, pos + header_bytes(h).len()) == header_bytes(h),
    ensures
        parse_header(b, pos) == Ok::<(HeaderView, int), PboError>(
            (h, pos + header_bytes(h).len()),
        ),
        nul_at(b, pos) + 21 == pos + header_bytes(h).len(),
{
    let e = encode_utf8(h.filename);
    let hb = header_bytes(h);
    let k = e.len() as int;
    lemma_header_parts(h);
    assert(b.subrange(pos, pos + hb.len())[k] == hb[k]);
    assert forall|i: int| pos <= i < pos + k implies b[i] != 0 by {
        assert(b.subrange(pos, pos + hb.len())[i - pos] == hb[i - pos]);
        assert(hb.subrange(0, k)[i - pos] == e[i - pos]);
    }
    lemma_nul_run(b, pos, pos + k);
    lemma_sub(b, pos, hb, 0, k);
    assert(normalize(e) =~= e);
    encode_utf8_valid_utf8(h.filename);
    encode_utf8_decode_utf8(h.filename);
    lemma_sub(b, pos, hb, k + 1, k + 5);
    lemma_sub(b, pos, hb, k + 5, k + 9);
    lemma_sub(b, pos, hb, k + 9, k + 13);
    lemma_sub(b, pos, hb, k + 13, k + 17);
    lemma_sub(b, pos, hb, k + 17, k + 21);
    lemma_field(b, pos + k + 1, h.method);
    lemma_field(b, pos + k + 5, h.original);
    lemma_field(b, pos + k + 9, h.reserved);
    lemma_field(b, pos + k + 13, h.timestamp);
    lemma_field(b, pos + k + 17, h.size);
}

/// The headers written for `list`.
pub open spec fn written_headers(list: Seq<HeaderView>, c: spec_fn(Seq<char>) -> Option<Seq<u8>>) -> Seq<HeaderView> {
    list.map_values(|h: HeaderView| out_header(h.filename, c(h.filename)))
}

proof fn lemma_headers_block_first(list: Seq<HeaderView>, c: spec_fn(Seq<char>) -> Option<Seq<u8>>)
    requires
        list.len() > 0,
    ensures
        headers_block(list, c) == header_bytes(out_header(list[0].filename, c(list[0].filename)))
            + headers_block(list.drop_first(), c),
    decreases list.len(),
{
    if list.len() == 1 {
        assert(list.drop_first() =~= seq![]);
        assert(list.drop_last() =~= seq![]);
    } else {
        lemma_headers_block_first(list.drop_last(), c);
        assert(list.drop_last().drop_first() =~= list.drop_first().drop_last());
        assert(list.drop_first().last() == list.last());
        assert(list.drop_last()[0] == list[0]);
    }
}

/// Scanning the written header list and its end header gives back the
/// written headers.
#[verifier::rlimit(40)]
proof fn lemma_scan_headers(
    b: Seq<u8>,
    pos: int,
    list: Seq<HeaderView>,
    c: spec_fn(Seq<char>) -> Option<Seq<u8>>,
    hs: Seq<HeaderView>,
    exts: Seq<ExtView>,
)
    requires
        0 <= pos,
        pos + headers_block(list, c).len() + 21 <= b.len(),
        b.subrange(pos, pos + headers_block(list, c).len() + 21) == headers_block(list, c)
            + header_bytes(end_header()),
        forall|i: int|
            0 <= i < list.len() ==> storable_name(#[trigger] list[i].filename)
                && list[i].filename.len() > 0,
    ensures
        scan(b, pos, false, hs, exts) == Ok::<(Seq<HeaderView>, Seq<ExtView>, int), PboError>(
            (hs + written_headers(list, c), exts, pos + headers_block(list, c).len() + 21),
        ),
    decreases list.len(),
{
    reveal(scan);
    let hb = headers_block(list, c);
    if list.len() == 0 {
        assert(hb =~= seq![]);
        assert(storable_name(end_header().filename));
        assert(b.subrange(pos, pos + 21) =~= header_bytes(end_header()));
        lemma_header_at(b, pos, end_header());
        assert(hs + written_headers(list, c) =~= hs);
    } else {
        let h = out_header(list[0].filename, c(list[0].filename));
        lemma_headers_block_first(list, c);
        let n = header_bytes(h).len() as int;
        assert(storable_name(list[0].filename));
        let big = hb + header_bytes(end_header());
        lemma_sub(b, pos, big, 0, n);
        assert(big.subrange(0, n) =~= header_bytes(h));
        lemma_header_at(b, pos, h);
        let rest = list.drop_first();
        assert forall|i: int| 0 <= i < rest.len() implies storable_name(#[trigger] rest[i].filename)
            && rest[i].filename.len() > 0 by {
            assert(rest[i] == list[i + 1]);
        }
        lemma_sub(b, pos, big, n, big.len() as int);
        assert(big.subrange(n, big.len() as int) =~= headers_block(rest, c) + header_bytes(end_header()));
        lemma_scan_headers(b, pos + n, rest, c, hs.push(h), exts);
        assert(hs.push(h) + written_headers(rest, c) =~= hs + written_headers(list, c));
    }
}

/// Whether a string can be stored as a C string: no NUL in its bytes.
pub open spec fn nul_free(s: Seq<char>) -> bool {
    forall|i: int| 0 <= i < encode_utf8(s).len() ==> #[trigger] encode_utf8(s)[i] != 0
}

/// The value written for an extension key.
pub open spec fn ext_value(all: Seq<ExtView>, k: Seq<char>) -> Seq<char> {
    match ext_get(all, k) {
        Some(v) => v,
        None => seq![],
    }
}

/// The entries written after `prefix`, as a decoder sees them.
pub open spec fn written_rest(keys: Seq<ExtView>, all: Seq<ExtView>) -> Seq<ExtView>
    decreases keys.len(),
{
    if keys.len() == 0 {
        seq![]
    } else {
        let k = keys.last().0;
        written_rest(keys.drop_last(), all) + if k == prefix_key() {
            Seq::<ExtView>::empty()
        } else {
            seq![(k, ext_value(all, k))]
        }
    }
}

/// The extension entries as a decoder of the written block sees them.
pub open spec fn written_exts(exts: Seq<ExtView>) -> Seq<ExtView> {
    (match ext_get(exts, prefix_key()) {
        Some(v) => seq![(prefix_key(), v)],
        None => Seq::<ExtView>::empty(),
    }) + written_rest(exts, exts)
}

proof fn lemma_ext_get_from(all: Seq<ExtView>, k: Seq<char>)
    requires
        ext_get(all, k) is Some,
    ensures
        exists|i: int| 0 <= i < all.len() && all[i].0 == k && all[i].1 == ext_get(all, k)->Some_0,
    decreases all.len(),
{
    if all.last().0 != k {
        lemma_ext_get_from(all.drop_last(), k);
        let i = choose|i: int| 0 <= i < all.len() - 1 && all.drop_last()[i].0 == k && all.drop_last()[i].1 == ext_get(all, k)->Some_0;
        assert(all[i] == all.drop_last()[i]);
    } else {
        assert(all[all.len() - 1] == all.last());
    }
}

proof fn lemma_ext_rest_first(keys: Seq<ExtView>, all: Seq<ExtView>)
    requires
        keys.len() > 0,
    ensures
        ext_rest(keys, all) == (if keys[0].0 == prefix_key() {
            Seq::<u8>::empty()
        } else {
            cstring_bytes(keys[0].0) + cstring_bytes(ext_value(all, keys[0].0))
        }) + ext_rest(keys.drop_first(), all),
        written_rest(keys, all) == (if keys[0].0 == prefix_key() {
            Seq::<ExtView>::empty()
        } else {
            seq![(keys[0].0, ext_value(all, keys[0].0))]
        }) + written_rest(keys.drop_first(), all),
    decreases keys.len(),
{
    if keys.len() == 1 {
        assert(keys.drop_first() =~= seq![]);
        assert(keys.drop_last() =~= seq![]);
        assert(keys.last() == keys[0]);
    } else {
        lemma_ext_rest_first(keys.drop_last(), all);
        assert(keys.drop_last().drop_first() =~= keys.drop_first().drop_last());
        assert(keys.drop_first().last() == keys.last());
        assert(keys.drop_last()[0] == keys[0]);
    }
}

proof fn lemma_cstring_at(b: Seq<u8>, pos: int, s: Seq<char>)
    requires
        nul_free(s),
        0 <= pos,
        pos + cstring_bytes(s).len() <= b.len(),
        b.subrange(pos, pos + cstring_bytes(s).len()) == cstring_bytes(s),
    ensures
        nul_at(b, pos) == pos + encode_utf8(s).len(),
        b.subrange(pos, nul_at(b, pos)) == encode_utf8(s),
{
    let e = encode_utf8(s);
    let cb = cstring_bytes(s);
    let k = e.len() as int;
    assert(b.subrange(pos, pos + cb.len())[k] == cb[k]);
    assert forall|i: int| pos <= i < pos + k implies b[i] != 0 by {
        assert(b.subrange(pos, pos + cb.len())[i - pos] == cb[i - pos]);
    }
    lemma_nul_run(b, pos, pos + k);
    lemma_sub(b, pos, cb, 0, k);
    assert(cb.subrange(0, k) =~= e);
}

/// Scanning one written extension entry.
proof fn lemma_scan_entry(
    b: Seq<u8>,
    pos: int,
    k: Seq<char>,
    v: Seq<char>,
    hs: Seq<HeaderView>,
    exts: Seq<ExtView>,
)
    requires
        nul_free(k),
        nul_free(v),
        k.len() > 0,
        0 <= pos,
        pos + cstring_bytes(k).len() + cstring_bytes(v).len() <= b.len(),
        b.subrange(pos, pos + cstring_bytes(k).len() + cstring_bytes(v).len()) == cstring_bytes(k)
            + cstring_bytes(v),
    ensures
        scan(b, pos, true, hs, exts) == scan(
            b,
            pos + cstring_bytes(k).len() + cstring_bytes(v).len(),
            true,
            hs,
            exts.push((k, v)),
        ),
{
    reveal(scan);
    let both = cstring_bytes(k) + cstring_bytes(v);
    let n = cstring_bytes(k).len() as int;
    lemma_sub(b, pos, both, 0, n);
    assert(both.subrange(0, n) =~= cstring_bytes(k));
    lemma_cstring_at(b, pos, k);
    lemma_sub(b, pos, both, n, both.len() as int);
    assert(both.subrange(n, both.len() as int) =~= cstring_bytes(v));
    lemma_cstring_at(b, pos + n, v);
    encode_utf8_valid_utf8(k);
    encode_utf8_decode_utf8(k);
    encode_utf8_valid_utf8(v);
    encode_utf8_decode_utf8(v);
    assert(encode_utf8(k).len() > 0) by {
        if encode_utf8(k).len() == 0 {
            assert(decode_utf8(encode_utf8(k)) =~= seq![]) by {
                assert(encode_utf8(k) =~= seq![]);
            }
        }
    }
}

/// Scanning the written extension entries after `prefix` and the empty key
/// that ends the block.
#[verifier::rlimit(40)]
proof fn lemma_scan_rest(
    b: Seq<u8>,
    pos: int,
    keys: Seq<ExtView>,
    all: Seq<ExtView>,
    hs: Seq<HeaderView>,
    exts: Seq<ExtView>,
)
    requires
        0 <= pos,
        pos + ext_rest(keys, all).len() + 1 <= b.len(),
        b.subrange(pos, pos + ext_rest(keys, all).len() + 1) == ext_rest(keys, all) + seq![0u8],
        forall|i: int| 0 <= i < keys.len() ==> nul_free(#[trigger] keys[i].0) && keys[i].0.len() > 0,
        forall|i: int| 0 <= i < all.len() ==> nul_free(#[trigger] all[i].1),
    ensures
        scan(b, pos, true, hs, exts) == scan(
            b,
            pos + ext_rest(keys, all).len() + 1,
            false,
            hs,
            exts + written_rest(keys, all),
        ),
    decreases keys.len(),
{
    reveal(scan);
    let er = ext_rest(keys, all);
    let big = er + seq![0u8];
    if keys.len() == 0 {
        assert(er =~= seq![]);
        assert(b.subrange(pos, pos + 1)[0] == 0);
        assert(b[pos] == 0);
        assert(nul_offset(b, pos) == 0);
        assert(exts + written_rest(keys, all) =~= exts);
    } else {
        lemma_ext_rest_first(keys, all);
        let k = keys[0].0;
        let rest = keys.drop_first();
        assert forall|i: int| 0 <= i < rest.len() implies nul_free(#[trigger] rest[i].0) && rest[i].0.len() > 0 by {
            assert(rest[i] == keys[i + 1]);
        }
        if k == prefix_key() {
            assert(ext_rest(keys, all) =~= ext_rest(rest, all));
            assert(written_rest(keys, all) =~= written_rest(rest, all));
            lemma_scan_rest(b, pos, rest, all, hs, exts);
        } else {
            let v = ext_value(all, k);
            assert(nul_free(v)) by {
                if ext_get(all, k) is Some {
                    lemma_ext_get_from(all, k);
                    let i = choose|i: int| 0 <= i < all.len() && all[i].0 == k && all[i].1 == ext_get(all, k)->Some_0;
                    assert(nul_free(all[i].1));
                }
            }
            assert(nul_free(keys[0].0));
            let n = cstring_bytes(k).len() + cstring_bytes(v).len();
            lemma_sub(b, pos, big, 0, n as int);
            assert(big.subrange(0, n as int) =~= cstring_bytes(k) + cstring_bytes(v));
            lemma_scan_entry(b, pos, k, v, hs, exts);
            lemma_sub(b, pos, big, n as int, big.len() as int);
            assert(big.subrange(n as int, big.len() as int) =~= ext_rest(rest, all) + seq![0u8]);
            lemma_scan_rest(b, pos + n, rest, all, hs, exts.push((k, v)));
            assert(exts.push((k, v)) + written_rest(rest, all) =~= exts + written_rest(keys, all));
        }
    }
}

proof fn lemma_sizes(list: Seq<HeaderView>, c: spec_fn(Seq<char>) -> Option<Seq<u8>>)
    requires
        forall|n: Seq<char>| #[trigger] c(n) is Some ==> c(n)->Some_0.len() <= u32::MAX,
    ensures
        sum_sizes(written_headers(list, c)) == payload_block(list, c).len(),
    decreases list.len(),
{
    if list.len() > 0 {
        assert(written_headers(list, c).drop_last() =~= written_headers(list.drop_last(), c));
        lemma_sizes(list.drop_last(), c);
        let n = list.last().filename;
        if c(n) is Some {
            assert(c(n)->Some_0.len() <= u32::MAX);
        }
    }
}

proof fn lemma_insert_members(r: Seq<HeaderView>, x: HeaderView)
    ensures
        forall|y: HeaderView| #[trigger] insert_sorted(r, x).contains(y) ==> r.contains(y) || y == x,
    decreases r.len(),
{
    if r.len() > 0 && !bytes_lt(name_key(x.filename), name_key(r[0].filename)) {
        lemma_insert_members(r.drop_first(), x);
        assert forall|y: HeaderView| #[trigger] insert_sorted(r, x).contains(y) implies r.contains(y) || y == x by {
            let t = insert_sorted(r, x);
            let i = choose|i: int| 0 <= i < t.len() && t[i] == y;
            if i > 0 {
                assert(insert_sorted(r.drop_first(), x)[i - 1] == y);
                assert(insert_sorted(r.drop_first(), x).contains(y));
                if r.drop_first().contains(y) {
                    let j = choose|j: int| 0 <= j < r.drop_first().len() && r.drop_first()[j] == y;
                    assert(r[j + 1] == y);
                }
            } else {
                assert(r[0] == y);
            }
        }
    } else if r.len() > 0 {
        assert forall|y: HeaderView| #[trigger] insert_sorted(r, x).contains(y) implies r.contains(y) || y == x by {
            let t = insert_sorted(r, x);
            let i = choose|i: int| 0 <= i < t.len() && t[i] == y;
            if i > 0 {
                assert(r[i - 1] == y);
            }
        }
    }
}

proof fn lemma_sort_members(s: Seq<HeaderView>)
    ensures
        forall|y: HeaderView| #[trigger] sort_entries(s).contains(y) ==> s.contains(y),
    decreases s.len(),
{
    if s.len() > 0 {
        lemma_sort_members(s.drop_last());
        lemma_insert_members(sort_entries(s.drop_last()), s.last());
        assert forall|y: HeaderView| #[trigger] sort_entries(s).contains(y) implies s.contains(y) by {
            if y == s.last() {
                assert(s[s.len() - 1] == y);
            } else {
                assert(sort_entries(s.drop_last()).contains(y));
                assert(s.drop_last().contains(y));
                let j = choose|j: int| 0 <= j < s.drop_last().len() && s.drop_last()[j] == y;
                assert(s[j] == y);
            }
        }
    }
}

proof fn lemma_content_len(v: PboView, n: Seq<char>)
    requires
        pbo_wf(v),
    ensures
        content(v, n) is Some ==> content(v, n)->Some_0.len() <= u32::MAX,
{
    if overlay_get(v.overlay, n) is None {
        let k = header_pos(v.headers, n);
        if v.source is Some && 0 <= k < v.headers.len() {
            let hs = v.headers;
            lemma_sum_sizes_take(hs, k);
            assert(hs.take(k + 1) + hs.skip(k + 1) =~= hs);
            lemma_sum_sizes_split(hs.take(k + 1), hs.skip(k + 1));
        }
    }
}

/// Scanning the written extension block.
#[verifier::rlimit(40)]
proof fn lemma_scan_ext_block(b: Seq<u8>, exts: Seq<ExtView>)
    requires
        ext_block(exts).len() <= b.len(),
        b.subrange(0, ext_block(exts).len() as int) == ext_block(exts),
        forall|i: int|
            0 <= i < exts.len() ==> nul_free(#[trigger] exts[i].0) && exts[i].0.len() > 0
                && nul_free(exts[i].1),
    ensures
        scan(b, 0, false, seq![], seq![]) == scan(
            b,
            ext_block(exts).len() as int,
            false,
            seq![],
            written_exts(exts),
        ),
{
    let h0 = header_bytes(ext_header());
    let pp = prefix_part(exts);
    let er = ext_rest(exts, exts);
    let eb = ext_block(exts);
    assert(encode_utf8(seq![]) =~= Seq::<u8>::empty());
    assert(h0.len() == 21);
    lemma_sub(b, 0, eb, 0, 21);
    assert(eb.subrange(0, 21) =~= h0);
    lemma_header_at(b, 0, ext_header());
    assert(scan(b, 0, false, seq![], seq![]) == scan(b, 21, true, seq![], seq![])) by {
        reveal(scan);
    }
    let wp = match ext_get(exts, prefix_key()) {
        Some(pv) => seq![(prefix_key(), pv)],
        None => Seq::<ExtView>::empty(),
    };
    let q: int = 21 + pp.len() as int;
    if ext_get(exts, prefix_key()) is Some {
        let pv = ext_get(exts, prefix_key())->Some_0;
        lemma_ext_get_from(exts, prefix_key());
        let i = choose|i: int| 0 <= i < exts.len() && exts[i].0 == prefix_key() && exts[i].1 == pv;
        assert(nul_free(exts[i].0));
        lemma_sub(b, 0, eb, 21, q);
        assert(eb.subrange(21, q) =~= cstring_bytes(prefix_key()) + cstring_bytes(pv));
        lemma_scan_entry(b, 21, prefix_key(), pv, seq![], seq![]);
        assert(Seq::<ExtView>::empty().push((prefix_key(), pv)) =~= wp);
    } else {
        assert(pp =~= seq![]);
    }
    lemma_sub(b, 0, eb, q, eb.len() as int);
    assert(eb.subrange(q, eb.len() as int) =~= er + seq![0u8]);
    assert forall|i: int| 0 <= i < exts.len() implies nul_free(#[trigger] exts[i].1) by {
        assert(nul_free(exts[i].0));
    }
    lemma_scan_rest(b, q, exts, exts, seq![], wp);
    assert(Seq::<ExtView>::empty() + written_rest(exts, exts) =~= written_rest(exts, exts));
}

/// Reading back what `write` produced gives, as the archive's headers,
/// every file sorted case-insensitively with method, reserved and
/// timestamp zero and both sizes equal to the length of its content, as
/// extension entries `prefix` first and the others in recorded order, and
/// the digest as the stored checksum. This holds whenever every file name
/// is non-empty and holds no NUL or forward slash, and every extension key
/// is non-empty and no key or value holds a NUL, and the digest has its 20
/// bytes.
#[verifier::rlimit(60)]
pub proof fn round_trip(v: PboView)
    requires
        pbo_wf(v),
        forall|i: int|
            0 <= i < entries(v, false).len() ==> storable_name(#[trigger] entries(v, false)[i].filename)
                && entries(v, false)[i].filename.len() > 0,
        forall|i: int|
            0 <= i < v.exts.len() ==> nul_free(#[trigger] v.exts[i].0) && v.exts[i].0.len() > 0
                && nul_free(v.exts[i].1),
        sha1_of(canonical(v)).len() == 20,
    ensures
        parse_archive(archive_bytes(v)) is Ok,
        parse_archive(archive_bytes(v))->Ok_0.headers == written_headers(write_list(v), contents(v)),
        parse_archive(archive_bytes(v))->Ok_0.exts == written_exts(v.exts),
        parse_archive(archive_bytes(v))->Ok_0.blob_start == ext_block(v.exts).len() + headers_block(
            write_list(v),
            contents(v),
        ).len() + 21,
        parse_archive(archive_bytes(v))->Ok_0.checksum == sha1_of(canonical(v)),
{
    let b = archive_bytes(v);
    let c = contents(v);
    let l = write_list(v);
    let eb = ext_block(v.exts);
    let hb = headers_block(l, c);
    let e = header_bytes(end_header());
    let pb = payload_block(l, c);
    let d = sha1_of(canonical(v));
    assert(encode_utf8(seq![]) =~= Seq::<u8>::empty());
    assert(e.len() == 21);
    assert(b =~= eb + (hb + e) + pb + seq![0u8] + d);
    assert(b.subrange(0, eb.len() as int) =~= eb);
    lemma_scan_ext_block(b, v.exts);
    lemma_sort_members(entries(v, false));
    assert forall|i: int| 0 <= i < l.len() implies storable_name(#[trigger] l[i].filename)
        && l[i].filename.len() > 0 by {
        assert(l.contains(l[i]));
        let j = choose|j: int| 0 <= j < entries(v, false).len() && entries(v, false)[j] == l[i];
        assert(storable_name(entries(v, false)[j].filename));
    }
    let p0 = eb.len() as int;
    assert(b.subrange(p0, p0 + hb.len() + 21) =~= hb + e);
    lemma_scan_headers(b, p0, l, c, seq![], written_exts(v.exts));
    assert(Seq::<HeaderView>::empty() + written_headers(l, c) =~= written_headers(l, c));
    assert forall|n: Seq<char>| #[trigger] c(n) is Some implies c(n)->Some_0.len() <= u32::MAX by {
        lemma_content_len(v, n);
    }
    lemma_sizes(l, c);
    let start = p0 + hb.len() + 21;
    let fin = start + pb.len();
    assert(b.len() == fin + 21);
    assert(b.subrange(fin + 1, fin + 21) =~= d);
}

proof fn lemma_first_exists(hs: Seq<HeaderView>, n: Seq<char>, i: int)
    requires
        0 <= i < hs.len(),
        hs[i].filename == n,
    ensures
        exists|k: int| first_named(hs, n, k),
    decreases i,
{
    if exists|j: int| 0 <= j < i && hs[j].filename == n {
        let j = choose|j: int| 0 <= j < i && hs[j].filename == n;
        lemma_first_exists(hs, n, j);
    } else {
        assert(first_named(hs, n, i));
    }
}

proof fn lemma_only_members(ov: Seq<FileView>, hs: Seq<HeaderView>)
    ensures
        forall|x: HeaderView| #[trigger] overlay_only(ov, hs).contains(x) ==> exists|i: int|
            0 <= i < ov.len() && x == synth(ov[i]),
    decreases ov.len(),
{
    if ov.len() > 0 {
        lemma_only_members(ov.drop_last(), hs);
        assert forall|x: HeaderView| #[trigger] overlay_only(ov, hs).contains(x) implies exists|i: int|
            0 <= i < ov.len() && x == synth(ov[i]) by {
            let r = overlay_only(ov.drop_last(), hs);
            if r.contains(x) {
                let i = choose|i: int| 0 <= i < ov.drop_last().len() && x == synth(ov.drop_last()[i]);
                assert(ov[i] == ov.drop_last()[i]);
            } else {
                assert(x == synth(ov.last()));
                assert(ov[ov.len() - 1] == ov.last());
            }
        }
    }
}

proof fn lemma_payload_split(a: Seq<HeaderView>, t: Seq<HeaderView>, c: spec_fn(Seq<char>) -> Option<Seq<u8>>)
    ensures
        payload_block(a + t, c) == payload_block(a, c) + payload_block(t, c),
    decreases t.len(),
{
    if t.len() == 0 {
        assert(a + t =~= a);
    } else {
        assert((a + t).drop_last() =~= a + t.drop_last());
        lemma_payload_split(a, t.drop_last(), c);
    }
}

/// Every file listed for writing has content.
proof fn lemma_entry_content(v: PboView, n: Seq<char>)
    requires
        pbo_wf(v),
        exists|j: int| 0 <= j < entries(v, false).len() && entries(v, false)[j].filename == n,
    ensures
        content(v, n) is Some,
{
    let en = entries(v, false);
    let j = choose|j: int| 0 <= j < en.len() && en[j].filename == n;
    if overlay_get(v.overlay, n) is None {
        if j < v.headers.len() {
            assert(v.headers[j] == en[j]);
            lemma_first_exists(v.headers, n, j);
        } else {
            let oo = overlay_only(v.overlay, v.headers);
            assert(en[j] == oo[j - v.headers.len()]);
            assert(oo.contains(en[j]));
            lemma_only_members(v.overlay, v.headers);
            let i = choose|i: int| 0 <= i < v.overlay.len() && en[j] == synth(v.overlay[i]);
            lemma_unique_pos(v.overlay, n, i);
        }
    }
}

/// After reading back what `write` produced (under the conditions of
/// `round_trip`), every file that was written reads back as the content it
/// had: any archive state whose headers, source and payload start are those
/// of the decoded index, with an empty overlay, gives the same bytes for it.
#[verifier::rlimit(60)]
pub proof fn round_trip_contents(v: PboView, w: PboView, n: Seq<char>)
    requires
        pbo_wf(v),
        forall|i: int|
            0 <= i < entries(v, false).len() ==> storable_name(#[trigger] entries(v, false)[i].filename)
                && entries(v, false)[i].filename.len() > 0,
        forall|i: int|
            0 <= i < v.exts.len() ==> nul_free(#[trigger] v.exts[i].0) && v.exts[i].0.len() > 0
                && nul_free(v.exts[i].1),
        sha1_of(canonical(v)).len() == 20,
        exists|j: int| 0 <= j < entries(v, false).len() && entries(v, false)[j].filename == n,
        parse_archive(archive_bytes(v)) is Ok,
        w.headers == parse_archive(archive_bytes(v))->Ok_0.headers,
        w.blob_start == parse_archive(archive_bytes(v))->Ok_0.blob_start,
        w.source == Some(archive_bytes(v)),
        w.overlay.len() == 0,
    ensures
        content(v, n) is Some,
        content(w, n) == content(v, n),
{
    round_trip(v);
    lemma_entry_content(v, n);
    let b = archive_bytes(v);
    let c = contents(v);
    let l = write_list(v);
    let wh = written_headers(l, c);
    let eb = ext_block(v.exts);
    let hb = headers_block(l, c);
    let e = header_bytes(end_header());
    let pb = payload_block(l, c);
    let d = sha1_of(canonical(v));
    assert(encode_utf8(seq![]) =~= Seq::<u8>::empty());
    assert(e.len() == 21);
    assert(b =~= eb + hb + e + pb + seq![0u8] + d);
    // the first written header of that name
    lemma_sort_members(entries(v, false));
    let en = entries(v, false);
    let j = choose|j: int| 0 <= j < en.len() && en[j].filename == n;
    assert(sort_entries(en).len() == en.len()) by {
        lemma_sort_len(en);
    }
    lemma_sort_has(en, en[j]);
    let i = choose|i: int| 0 <= i < l.len() && l[i] == en[j];
    assert(wh[i].filename == n);
    lemma_first_exists(wh, n, i);
    let k = header_pos(wh, n);
    assert(first_named(wh, n, k));
    assert(0 <= k < l.len());
    assert(l[k].filename == n);
    assert(overlay_get(w.overlay, n) is None);
    // where its payload lies
    assert(wh.take(k) =~= written_headers(l.take(k), c));
    assert forall|m: Seq<char>| #[trigger] c(m) is Some implies c(m)->Some_0.len() <= u32::MAX by {
        lemma_content_len(v, m);
    }
    lemma_sizes(l.take(k), c);
    assert(l =~= l.take(k + 1) + l.skip(k + 1));
    lemma_payload_split(l.take(k + 1), l.skip(k + 1), c);
    assert(l.take(k + 1).drop_last() =~= l.take(k));
    let cn = c(n)->Some_0;
    let before = payload_block(l.take(k), c);
    assert(payload_block(l.take(k + 1), c) == before + cn);
    assert(wh[k].size == cn.len());
    let start: int = eb.len() + hb.len() + 21int;
    assert(pb =~= before + cn + payload_block(l.skip(k + 1), c));
    assert(b.subrange(start + before.len() as int, start + before.len() as int + cn.len() as int) =~= cn);
}

proof fn lemma_sort_len(s: Seq<HeaderView>)
    ensures
        sort_entries(s).len() == s.len(),
    decreases s.len(),
{
    if s.len() > 0 {
        lemma_sort_len(s.drop_last());
        lemma_insert_len(sort_entries(s.drop_last()), s.last());
    }
}

proof fn lemma_insert_len(r: Seq<HeaderView>, x: HeaderView)
    ensures
        insert_sorted(r, x).len() == r.len() + 1,
    decreases r.len(),
{
    if r.len() > 0 {
        lemma_insert_len(r.drop_first(), x);
    }
}

proof fn lemma_insert_has(r: Seq<HeaderView>, x: HeaderView, y: HeaderView)
    requires
        r.contains(y) || y == x,
    ensures
        insert_sorted(r, x).contains(y),
    decreases r.len(),
{
    let t = insert_sorted(r, x);
    if r.len() == 0 {
        assert(t[0] == x);
    } else if bytes_lt(name_key(x.filename), name_key(r[0].filename)) {
        if y == x {
            assert(t[0] == y);
        } else {
            let i = choose|i: int| 0 <= i < r.len() && r[i] == y;
            assert(t[i + 1] == y);
        }
    } else {
        if y == r[0] {
            assert(t[0] == y);
        } else {
            if r.contains(y) {
                let i = choose|i: int| 0 <= i < r.len() && r[i] == y;
                assert(r.drop_first()[i - 1] == y);
            }
            lemma_insert_has(r.drop_first(), x, y);
            let i = choose|i: int| 0 <= i < insert_sorted(r.drop_first(), x).len() && insert_sorted(r.drop_first(), x)[i] == y;
            assert(t[i + 1] == y);
        }
    }
}

proof fn lemma_sort_has(s: Seq<HeaderView>, y: HeaderView)
    requires
        s.contains(y),
    ensures
        sort_entries(s).contains(y),
    decreases s.len(),
{
    if y == s.last() {
        lemma_insert_has(sort_entries(s.drop_last()), s.last(), y);
    } else {
        let i = choose|i: int| 0 <= i < s.len() && s[i] == y;
        assert(s.drop_last()[i] == y);
        lemma_sort_has(s.drop_last(), y);
        lemma_insert_has(sort_entries(s.drop_last()), s.last(), y);
    }
}

proof fn lemma_nul_same(b: Seq<u8>, b2: Seq<u8>, pos: int, lim: int)
    requires
        0 <= pos < b.len(),
        nul_at(b, pos) < lim,
        lim <= b.len(),
        lim <= b2.len(),
        forall|i: int| 0 <= i < lim ==> b2[i] == b[i],
    ensures
        nul_at(b2, pos) == nul_at(b, pos),
{
    lemma_nul_offset(b, pos);
    let e = nul_at(b, pos);
    assert forall|i: int| pos <= i < e implies b2[i] != 0 by {
        assert(b[i] != 0);
    }
    lemma_nul_run(b2, pos, e);
}

/// A successful scan reads no byte at or past the position where it ends,
/// so any bytes that agree up to there scan the same way.
#[verifier::rlimit(60)]
proof fn lemma_scan_frame(
    b: Seq<u8>,
    b2: Seq<u8>,
    pos: int,
    in_ext: bool,
    hs: Seq<HeaderView>,
    ex: Seq<ExtView>,
)
    requires
        0 <= pos,
        scan(b, pos, in_ext, hs, ex) is Ok,
        scan(b, pos, in_ext, hs, ex)->Ok_0.2 <= b.len(),
        scan(b, pos, in_ext, hs, ex)->Ok_0.2 <= b2.len(),
        forall|i: int| 0 <= i < scan(b, pos, in_ext, hs, ex)->Ok_0.2 ==> b2[i] == b[i],
    ensures
        scan(b2, pos, in_ext, hs, ex) == scan(b, pos, in_ext, hs, ex),
        scan(b, pos, in_ext, hs, ex)->Ok_0.2 > pos,
    decreases b.len() - pos,
{
    reveal(scan);
    let fin = scan(b, pos, in_ext, hs, ex)->Ok_0.2;
    lemma_nul_offset(b, pos);
    let e = nul_at(b, pos);
    if in_ext {
        if e == pos {
            lemma_scan_frame(b, b2, pos + 1, false, hs, ex);
            lemma_nul_same(b, b2, pos, fin);
        } else {
            lemma_nul_offset(b, e + 1);
            let e2 = nul_at(b, e + 1);
            let ex2 = ex.push((decode_utf8(b.subrange(pos, e)), decode_utf8(b.subrange(e + 1, e2))));
            lemma_scan_frame(b, b2, e2 + 1, true, hs, ex2);
            lemma_nul_same(b, b2, pos, fin);
            lemma_nul_same(b, b2, e + 1, fin);
            assert(b2.subrange(pos, e) =~= b.subrange(pos, e));
            assert(b2.subrange(e + 1, e2) =~= b.subrange(e + 1, e2));
        }
    } else {
        let h = parse_header(b, pos)->Ok_0.0;
        let next = e + 21;
        if h.method == EXT_METHOD {
            lemma_scan_frame(b, b2, next, true, hs, ex);
        } else if h.filename.len() != 0 {
            lemma_scan_frame(b, b2, next, false, hs.push(h), ex);
        }
        lemma_nul_same(b, b2, pos, fin);
        assert(b2.subrange(pos, e) =~= b.subrange(pos, e));
        assert(b2.subrange(e + 1, e + 5) =~= b.subrange(e + 1, e + 5));
        assert(b2.subrange(e + 5, e + 9) =~= b.subrange(e + 5, e + 9));
        assert(b2.subrange(e + 9, e + 13) =~= b.subrange(e + 9, e + 13));
        assert(b2.subrange(e + 13, e + 17) =~= b.subrange(e + 13, e + 17));
        assert(b2.subrange(e + 17, e + 21) =~= b.subrange(e + 17, e + 21));
        assert(parse_header(b2, pos) == parse_header(b, pos));
    }
}

/// A source that decodes and ends with its digest fails to decode with
/// `TruncatedChecksum` once its last 20 bytes are cut off.
pub proof fn truncated_checksum(b: Seq<u8>)
    requires
        parse_archive(b) is Ok,
        b.len() == parse_archive(b)->Ok_0.blob_start + sum_sizes(parse_archive(b)->Ok_0.headers)
            + 21,
    ensures
        parse_archive(b.subrange(0, b.len() - 20)) == Err::<Index, PboError>(
            PboError::TruncatedChecksum,
        ),
{
    let b2 = b.subrange(0, b.len() - 20);
    let r = scan(b, 0, false, Seq::<HeaderView>::empty(), Seq::<ExtView>::empty());
    let hs = r->Ok_0.0;
    let start = r->Ok_0.2;
    crate::format::lemma_sum_sizes_nonneg(hs);
    assert(start + sum_sizes(hs) + 21 <= b.len());
    assert forall|i: int| 0 <= i < start implies b2[i] == b[i] by {}
    lemma_scan_frame(b, b2, 0, false, Seq::<HeaderView>::empty(), Seq::<ExtView>::empty());
    assert(crate::format::scan_all(b2) == r);
    assert(b2.len() == b.len() - 20);
    let end = start + sum_sizes(hs);
    assert(end <= b2.len());
    assert(end + 21 > b2.len());
    assert(parse_archive(b2) == Err::<Index, PboError>(PboError::TruncatedChecksum));
}

} // verus!
