//! The archive: its index, the retained source, and the in-memory overlay
//! of added or cached files.
use crate::error::PboError;
use crate::format::{
    lemma_sum_sizes_nonneg, lemma_sum_sizes_split, lemma_sum_sizes_take, parse_archive, scan,
    scan_all, sum_sizes, ExtView, Index,
};
use crate::order::{sort_entries, sort_headers};
use crate::header::{copy_header, header_bytes, HeaderView, PBOHeader, EXT_METHOD};
use crate::source::{bump, lemma_nul_offset, Source};
use crate::digest::{sha1, sha1_of};
use crate::encode::{
    archive_bytes, canonical, contents, ext_block, ext_get, ext_header, ext_rest, out_header,
    headers_block, payload_block, prefix_key, prefix_part,
};
use crate::text::{push_bytes, push_cstring, text_of};
use vstd::string::StringExecFns;
use vstd::prelude::*;

verus! {

/// An overlay entry: file name and content.
pub type FileView = (Seq<char>, Seq<u8>);

pub struct PboView {
    /// Headers declared on disk, in on-disk order.
    pub headers: Seq<HeaderView>,
    /// Extension entries in the order they were recorded (keys may repeat).
    pub exts: Seq<ExtView>,
    /// Files added or cached, with distinct names.
    pub overlay: Seq<FileView>,
    /// The checksum found by a read.
    pub checksum: Option<Seq<u8>>,
    /// The bytes of the retained source.
    pub source: Option<Seq<u8>>,
    /// Where the payloads begin in the source.
    pub blob_start: int,
    /// Repositionings of the source's cursor so far.
    pub seeks: u64,
    pub cache: bool,
}

pub open spec fn headers_view(v: Seq<PBOHeader>) -> Seq<HeaderView> {
    v.map_values(|h: PBOHeader| h@)
}

pub open spec fn exts_view(v: Seq<(String, String)>) -> Seq<ExtView> {
    v.map_values(|p: (String, String)| (p.0@, p.1@))
}

pub open spec fn overlay_view(v: Seq<(String, Vec<u8>)>) -> Seq<FileView> {
    v.map_values(|p: (String, Vec<u8>)| (p.0@, p.1@))
}

/// The archive's invariant: overlay names are distinct and each content
/// fits a 32-bit size; the source holds every declared payload and the
/// 21 trailing bytes; without a source no header is declared.
pub open spec fn pbo_wf(v: PboView) -> bool {
    &&& forall|i: int, j: int|
        0 <= i < j < v.overlay.len() ==> v.overlay[i].0 != v.overlay[j].0
    &&& forall|i: int| 0 <= i < v.overlay.len() ==> v.overlay[i].1.len() <= u32::MAX
    &&& match v.source {
        Some(s) => 0 <= v.blob_start && v.blob_start + sum_sizes(v.headers) + 21 <= s.len(),
        None => v.headers.len() == 0 && v.blob_start == 0,
    }
}

pub struct PBO {
    extensions: Vec<(String, String)>,
    headers: Vec<PBOHeader>,
    checksum: Option<Vec<u8>>,
    files: Vec<(String, Vec<u8>)>,
    input: Option<Source>,
    blob_start: usize,
    read_cache: bool,
}

impl View for PBO {
    type V = PboView;

    closed spec fn view(&self) -> PboView {
        PboView {
            headers: headers_view(self.headers@),
            exts: exts_view(self.extensions@),
            overlay: overlay_view(self.files@),
            checksum: match self.checksum {
                Some(c) => Some(c@),
                None => None,
            },
            source: match self.input {
                Some(s) => Some(s.bytes()),
                None => None,
            },
            blob_start: self.blob_start as int,
            seeks: match self.input {
                Some(s) => s.seek_count(),
                None => 0,
            },
            cache: self.read_cache,
        }
    }
}

/// One step of the scan inside an extension block: an entry, or the empty
/// key that ends the block (`Ok(false)`).
fn scan_ext_entry(src: &mut Source, exts: &mut Vec<(String, String)>, Ghost(hs): Ghost<
    Seq<HeaderView>,
>) -> (r: Result<bool, PboError>)
    requires
        old(src).wf(),
    ensures
        final(src).wf(),
        final(src).bytes() == old(src).bytes(),
        r is Ok ==> final(src).cursor() > old(src).cursor(),
        scan(old(src).bytes(), old(src).cursor(), true, hs, exts_view(old(exts)@)) == match r {
            Ok(more) => scan(final(src).bytes(), final(src).cursor(), more, hs, exts_view(final(exts)@)),
            Err(e) => Err(e),
        },
{
    let ghost b = src.bytes();
    let ghost pos = src.cursor();
    proof {
        lemma_nul_offset(b, pos);
        reveal(scan);
    }
    let key = match src.read_cstring() {
        Some(k) => k,
        None => {
            return Err(PboError::MissingSentinel);
        },
    };
    if key.len() == 0 {
        return Ok(false);
    }
    let key = match text_of(key) {
        Some(k) => k,
        None => {
            return Err(PboError::MalformedHeader);
        },
    };
    proof {
        lemma_nul_offset(b, src.cursor());
    }
    let val = match src.read_cstring() {
        Some(v) => v,
        None => {
            return Err(PboError::MissingSentinel);
        },
    };
    let val = match text_of(val) {
        Some(v) => v,
        None => {
            return Err(PboError::MalformedHeader);
        },
    };
    let ghost prev = exts@;
    exts.push((key, val));
    assert(exts_view(exts@) =~= exts_view(prev).push((key@, val@)));
    Ok(true)
}

/// One step of the scan outside an extension block: a file header is kept;
/// `Some(true)` opens an extension block; `None` is the end of the list.
fn scan_header(src: &mut Source, hs: &mut Vec<PBOHeader>, Ghost(exts): Ghost<Seq<ExtView>>) -> (r:
    Result<Option<bool>, PboError>)
    requires
        old(src).wf(),
    ensures
        final(src).wf(),
        final(src).bytes() == old(src).bytes(),
        r is Ok ==> final(src).cursor() > old(src).cursor(),
        scan(old(src).bytes(), old(src).cursor(), false, headers_view(old(hs)@), exts) == match r {
            Ok(Some(ext)) => scan(final(src).bytes(), final(src).cursor(), ext, headers_view(final(hs)@), exts),
            Ok(None) => Ok((headers_view(final(hs)@), exts, final(src).cursor())),
            Err(e) => Err(e),
        },
{
    let ghost b = src.bytes();
    let ghost pos = src.cursor();
    proof {
        lemma_nul_offset(b, pos);
        reveal(scan);
    }
    let (h, _n) = match PBOHeader::read(src) {
        Ok(x) => x,
        Err(e) => {
            return Err(e);
        },
    };
    if h.method == EXT_METHOD {
        Ok(Some(true))
    } else if h.filename.as_str().is_empty() {
        Ok(None)
    } else {
        let ghost prev = hs@;
        hs.push(h);
        assert(headers_view(hs@) =~= headers_view(prev).push(h@));
        Ok(Some(false))
    }
}

/// Index of the overlay entry named `name`, or the overlay's length.
pub open spec fn file_pos(ov: Seq<FileView>, name: Seq<char>) -> int {
    if exists|i: int| 0 <= i < ov.len() && ov[i].0 == name {
        choose|i: int| 0 <= i < ov.len() && ov[i].0 == name
    } else {
        ov.len() as int
    }
}

/// The overlay's content for `name`.
pub open spec fn overlay_get(ov: Seq<FileView>, name: Seq<char>) -> Option<Seq<u8>> {
    let k = file_pos(ov, name);
    if 0 <= k < ov.len() {
        Some(ov[k].1)
    } else {
        None
    }
}

/// Whether `i` is the first header named `name`.
pub open spec fn first_named(hs: Seq<HeaderView>, name: Seq<char>, i: int) -> bool {
    &&& 0 <= i < hs.len()
    &&& hs[i].filename == name
    &&& forall|j: int| 0 <= j < i ==> hs[j].filename != name
}

/// Index of the first header named `name`, or the list's length.
pub open spec fn header_pos(hs: Seq<HeaderView>, name: Seq<char>) -> int {
    if exists|i: int| first_named(hs, name, i) {
        choose|i: int| first_named(hs, name, i)
    } else {
        hs.len() as int
    }
}

/// Where the payload of header `k` begins in the source.
pub open spec fn payload_start(v: PboView, k: int) -> int {
    v.blob_start + sum_sizes(v.headers.take(k))
}

/// The payload of the first header named `name`, read from the source.
pub open spec fn disk_file(v: PboView, name: Seq<char>) -> Option<Seq<u8>> {
    let k = header_pos(v.headers, name);
    match v.source {
        Some(s) => if 0 <= k < v.headers.len() {
            Some(s.subrange(payload_start(v, k), payload_start(v, k) + v.headers[k].size))
        } else {
            None
        },
        None => None,
    }
}

/// The current content of `name`: the overlay's if it has one, else the
/// payload declared on disk.
pub open spec fn content(v: PboView, name: Seq<char>) -> Option<Seq<u8>> {
    match overlay_get(v.overlay, name) {
        Some(c) => Some(c),
        None => disk_file(v, name),
    }
}

/// The overlay after `add(name, bytes)`: replaced in place, or appended.
pub open spec fn overlay_set(ov: Seq<FileView>, name: Seq<char>, bytes: Seq<u8>) -> Seq<FileView> {
    let k = file_pos(ov, name);
    if 0 <= k < ov.len() {
        ov.update(k, (name, bytes))
    } else {
        ov.push((name, bytes))
    }
}

/// The overlay after `remove(name)`.
pub open spec fn overlay_without(ov: Seq<FileView>, name: Seq<char>) -> Seq<FileView> {
    let k = file_pos(ov, name);
    if 0 <= k < ov.len() {
        ov.remove(k)
    } else {
        ov
    }
}

/// The state after a retrieval of `name` from `old` that returned `r`.
/// Nothing but the overlay and the source's cursor can change. A name in
/// the overlay is answered from it without touching the source. Otherwise
/// the source is repositioned, and with caching on, a payload found on
/// disk is added to the overlay.
pub open spec fn retrieved(old: PboView, new: PboView, name: Seq<char>, r: Option<Seq<u8>>) -> bool {
    &&& r == content(old, name)
    &&& new.headers == old.headers
    &&& new.exts == old.exts
    &&& new.checksum == old.checksum
    &&& new.source == old.source
    &&& new.blob_start == old.blob_start
    &&& new.cache == old.cache
    &&& if overlay_get(old.overlay, name) is Some {
        new.overlay == old.overlay && new.seeks == old.seeks
    } else {
        &&& (old.source is Some && old.seeks < u64::MAX ==> new.seeks > old.seeks)
        &&& (old.source is None ==> new.seeks == old.seeks)
        &&& new.overlay == if old.cache && r is Some {
            old.overlay.push((name, r->Some_0))
        } else {
            old.overlay
        }
    }
}

/// Whether a header named `name` is declared on disk.
pub open spec fn has_header(hs: Seq<HeaderView>, name: Seq<char>) -> bool {
    header_pos(hs, name) < hs.len()
}

/// The header-like record listed for an overlay entry.
pub open spec fn synth(f: FileView) -> HeaderView {
    HeaderView {
        filename: f.0,
        method: 0,
        original: f.1.len() as u32,
        reserved: 0,
        timestamp: 0,
        size: f.1.len() as u32,
    }
}

/// Records for the overlay entries whose names no header declares, in
/// overlay order.
pub open spec fn overlay_only(ov: Seq<FileView>, hs: Seq<HeaderView>) -> Seq<HeaderView>
    decreases ov.len(),
{
    if ov.len() == 0 {
        seq![]
    } else {
        let rest = overlay_only(ov.drop_last(), hs);
        if has_header(hs, ov.last().0) {
            rest
        } else {
            rest.push(synth(ov.last()))
        }
    }
}

/// The overlay entries whose names a header declares.
pub open spec fn overlay_on_disk(ov: Seq<FileView>, hs: Seq<HeaderView>) -> Seq<FileView>
    decreases ov.len(),
{
    if ov.len() == 0 {
        seq![]
    } else {
        let rest = overlay_on_disk(ov.drop_last(), hs);
        if has_header(hs, ov.last().0) {
            rest.push(ov.last())
        } else {
            rest
        }
    }
}

/// The records `files(disk_only)` lists: the headers declared on disk, then,
/// unless `disk_only`, one for each overlay-only file.
pub open spec fn entries(v: PboView, disk_only: bool) -> Seq<HeaderView> {
    if disk_only {
        v.headers
    } else {
        v.headers + overlay_only(v.overlay, v.headers)
    }
}

/// Index of the entry recorded last under `key`.
fn ext_lookup(exts: &Vec<(String, String)>, key: &String) -> (r: Option<usize>)
    ensures
        match r {
            Some(i) => i < exts@.len() && ext_get(exts_view(exts@), key@) == Some(exts@[i as int].1@),
            None => ext_get(exts_view(exts@), key@) is None,
        },
{
    let ghost ev = exts_view(exts@);
    let mut i: usize = exts.len();
    assert(ev.take(ev.len() as int) =~= ev);
    while i > 0
        invariant
            i <= exts@.len(),
            ev == exts_view(exts@),
            ext_get(ev, key@) == ext_get(ev.take(i as int), key@),
        decreases i,
    {
        i = i - 1;
        assert(ev.take(i as int + 1).drop_last() =~= ev.take(i as int));
        if exts[i].0 == *key {
            return Some(i);
        }
    }
    None
}

proof fn lemma_file_pos(ov: Seq<FileView>, name: Seq<char>, i: int)
    requires
        forall|a: int, b: int| 0 <= a < b < ov.len() ==> ov[a].0 != ov[b].0,
        0 <= i < ov.len(),
        ov[i].0 == name,
    ensures
        file_pos(ov, name) == i,
{
    let c = choose|c: int| 0 <= c < ov.len() && ov[c].0 == name;
    assert(0 <= c < ov.len() && ov[c].0 == name);
    if c < i {
        assert(ov[c].0 != ov[i].0);
    } else if c > i {
        assert(ov[i].0 != ov[c].0);
    }
}

proof fn lemma_header_pos(hs: Seq<HeaderView>, name: Seq<char>, i: int)
    requires
        first_named(hs, name, i),
    ensures
        header_pos(hs, name) == i,
{
    let c = choose|c: int| first_named(hs, name, c);
    assert(first_named(hs, name, c));
    if c < i {
        assert(hs[c].filename != name);
    } else if c > i {
        assert(hs[i].filename != name);
    }
}

/// Index of the overlay entry named `name`, or the overlay's length.
fn find_file(files: &Vec<(String, Vec<u8>)>, name: &String) -> (r: usize)
    requires
        forall|a: int, b: int|
            0 <= a < b < files@.len() ==> files@[a].0@ != files@[b].0@,
    ensures
        r as int == file_pos(overlay_view(files@), name@),
        r <= files@.len(),
{
    let ghost ov = overlay_view(files@);
    assert(forall|a: int, b: int| 0 <= a < b < ov.len() ==> ov[a].0 != ov[b].0) by {
        assert(forall|a: int| 0 <= a < ov.len() ==> ov[a].0 == #[trigger] files@[a].0@);
    }
    let mut i: usize = 0;
    while i < files.len()
        invariant
            i <= files@.len(),
            ov == overlay_view(files@),
            forall|a: int, b: int| 0 <= a < b < ov.len() ==> ov[a].0 != ov[b].0,
            forall|j: int| 0 <= j < i ==> ov[j].0 != name@,
        decreases files.len() - i,
    {
        if files[i].0 == *name {
            proof {
                lemma_file_pos(ov, name@, i as int);
            }
            return i;
        }
        i = i + 1;
    }
    assert(!exists|j: int| 0 <= j < ov.len() && ov[j].0 == name@);
    i
}

/// Index of the first header named `name`, or the list's length.
fn find_header(headers: &Vec<PBOHeader>, name: &String) -> (r: usize)
    ensures
        r as int == header_pos(headers_view(headers@), name@),
        r <= headers@.len(),
{
    let ghost hv = headers_view(headers@);
    let mut i: usize = 0;
    while i < headers.len()
        invariant
            i <= headers@.len(),
            hv == headers_view(headers@),
            forall|j: int| 0 <= j < i ==> hv[j].filename != name@,
        decreases headers.len() - i,
    {
        if headers[i].filename == *name {
            proof {
                lemma_header_pos(hv, name@, i as int);
            }
            return i;
        }
        i = i + 1;
    }
    assert(!exists|j: int| first_named(hv, name@, j));
    i
}

/// A copy of a byte buffer.
fn copy_bytes(b: &Vec<u8>) -> (r: Vec<u8>)
    ensures
        r@ == b@,
{
    let mut out: Vec<u8> = Vec::new();
    crate::text::push_bytes(&mut out, b.as_slice());
    assert(out@ =~= b@);
    out
}

proof fn lemma_read_err(b: Seq<u8>, e: PboError)
    requires
        parse_archive(b) == Err::<Index, PboError>(e) || scan_all(b) == Err::<
            (Seq<HeaderView>, Seq<ExtView>, int),
            PboError,
        >(e),
    ensures
        ({
            let r = Err::<PBO, PboError>(e);
            &&& r is Ok <==> parse_archive(b) is Ok
            &&& r is Err ==> parse_archive(b) == Err::<Index, PboError>(r->Err_0)
        }),
{
}

impl PBO {
    pub closed spec fn source_ok(&self) -> bool {
        match self.input {
            Some(s) => s.wf(),
            None => true,
        }
    }

    pub open spec fn wf(&self) -> bool {
        pbo_wf(self@) && self.source_ok()
    }

    /// An empty archive: no headers, no extensions, no files, no source,
    /// caching off.
    pub fn new() -> (r: PBO)
        ensures
            r.wf(),
            r@.headers.len() == 0,
            r@.exts.len() == 0,
            r@.overlay.len() == 0,
            r@.checksum.is_none(),
            r@.source.is_none(),
            !r@.cache,
    {
        let r = PBO {
            extensions: Vec::new(),
            headers: Vec::new(),
            checksum: None,
            files: Vec::new(),
            input: None,
            blob_start: 0,
            read_cache: false,
        };
        assert(r@.headers =~= seq![]);
        assert(r@.exts =~= seq![]);
        assert(r@.overlay =~= seq![]);
        r
    }

    /// Builds the index of an archive by one forward scan of `input`, then
    /// keeps `input` for later retrieval. Fails exactly as `parse_archive`
    /// does.
    pub fn read(input: Vec<u8>) -> (r: Result<PBO, PboError>)
        ensures
            r is Ok <==> parse_archive(input@) is Ok,
            r is Err ==> parse_archive(input@) == Err::<Index, PboError>(r->Err_0),
            r is Ok ==> ({
                let p = r->Ok_0;
                let ix = parse_archive(input@)->Ok_0;
                &&& p.wf()
                &&& p@.headers == ix.headers
                &&& p@.exts == ix.exts
                &&& p@.blob_start == ix.blob_start
                &&& p@.checksum == Some(ix.checksum)
                &&& p@.source == Some(input@)
                &&& p@.overlay.len() == 0
                &&& !p@.cache
            }),
    {
        let ghost b = input@;
        let src = Source::new(input);
        Self::scan_source(src, Ghost(b))
    }

    /// Turns read caching on or off, returning the previous setting. With
    /// caching on, a payload read from the source is kept in the overlay.
    pub fn set_cache_enabled(&mut self, enable: bool) -> (r: bool)
        requires
            old(self).wf(),
        ensures
            final(self).wf(),
            r == old(self)@.cache,
            final(self)@ == (PboView { cache: enable, ..old(self)@ }),
    {
        let r = self.read_cache;
        self.read_cache = enable;
        r
    }

    /// Whether read caching is on.
    pub fn cache_enabled(&self) -> (r: bool)
        ensures
            r == self@.cache,
    {
        self.read_cache
    }

    /// Repositionings of the retained source so far (0 without a source).
    pub fn source_seeks(&self) -> (r: u64)
        ensures
            r == self@.seeks,
    {
        match &self.input {
            Some(src) => src.seeks(),
            None => 0,
        }
    }

    /// The content of `filename`: from the overlay if it is there, else
    /// read from the retained source after the first header of that name.
    /// The buffer returned is the caller's own copy.
    pub fn retrieve(&mut self, filename: &str) -> (r: Option<Vec<u8>>)
        requires
            old(self).wf(),
        ensures
            final(self).wf(),
            retrieved(
                old(self)@,
                final(self)@,
                filename@,
                match r {
                    Some(v) => Some(v@),
                    None => None,
                },
            ),
    {
        let name = filename.to_owned();
        proof {
            let ov = self@.overlay;
            assert(forall|a: int| 0 <= a < ov.len() ==> ov[a].0 == #[trigger] self.files@[a].0@);
        }
        let k = find_file(&self.files, &name);
        if k < self.files.len() {
            return Some(copy_bytes(&self.files[k].1));
        }
        let ghost v0 = self@;
        let mut src = match self.input.take() {
            Some(src) => src,
            None => {
                return None;
            },
        };
        let ghost hv = self@.headers;
        let ghost b = src.bytes();
        proof {
            lemma_sum_sizes_nonneg(hv);
        }
        src.seek_to(self.blob_start);
        let mut i: usize = 0;
        while i < self.headers.len()
            invariant
                src.wf(),
                src.bytes() == b,
                v0 == old(self)@,
                pbo_wf(v0),
                overlay_get(v0.overlay, name@) is None,
                name@ == filename@,
                self.files == old(self).files,
                self.extensions == old(self).extensions,
                self.headers == old(self).headers,
                self.checksum == old(self).checksum,
                self.read_cache == old(self).read_cache,
                self.blob_start == old(self).blob_start,
                self.input is None,
                v0.source == Some(b),
                hv == headers_view(self.headers@),
                hv == v0.headers,
                self.blob_start == v0.blob_start,
                0 <= v0.blob_start,
                v0.blob_start + sum_sizes(hv) + 21 <= b.len(),
                i <= hv.len(),
                src.cursor() == payload_start(v0, i as int),
                forall|j: int| 0 <= j < i ==> hv[j].filename != name@,
                src.seek_count() >= bump(v0.seeks),
                bump(v0.seeks) >= v0.seeks,
                v0.seeks < u64::MAX ==> bump(v0.seeks) > v0.seeks,
            decreases self.headers.len() - i,
        {
            proof {
                lemma_sum_sizes_take(hv, i as int);
                assert(hv.take(i as int + 1) + hv.skip(i as int + 1) =~= hv);
                lemma_sum_sizes_split(hv.take(i as int + 1), hv.skip(i as int + 1));
            }
            let size = self.headers[i].size as usize;
            if self.headers[i].filename == name {
                proof {
                    lemma_header_pos(hv, name@, i as int);
                }
                let bytes = src.read_exact(size);
                self.input = Some(src);
                let bytes = match bytes {
                    Some(x) => x,
                    None => {
                        return None;
                    },
                };
                if self.read_cache {
                    let kept = copy_bytes(&bytes);
                    let ghost f0 = self.files@;
                    self.files.push((name, kept));
                    proof {
                        assert(self.files@ == f0.push((name, kept)));
                        assert(overlay_view(self.files@) =~= overlay_view(f0).push((filename@, bytes@)));
                        assert(self@.overlay == overlay_view(self.files@));
                    }
                }
                proof {
                    assert(disk_file(v0, filename@) == Some(bytes@));
                    assert(content(v0, filename@) == Some(bytes@));
                }
                return Some(bytes);
            }
            src.skip(size);
            i = i + 1;
        }
        proof {
            assert(!exists|j: int| first_named(hv, name@, j));
        }
        self.input = Some(src);
        None
    }

    /// Adds `file` under `filename` to the overlay, replacing and returning
    /// what it held under that name. The headers on disk are not touched.
    pub fn add(&mut self, filename: &str, file: Vec<u8>) -> (r: Option<Vec<u8>>)
        requires
            old(self).wf(),
            file@.len() <= u32::MAX,
        ensures
            final(self).wf(),
            final(self)@ == (PboView {
                overlay: overlay_set(old(self)@.overlay, filename@, file@),
                ..old(self)@
            }),
            match r {
                Some(v) => overlay_get(old(self)@.overlay, filename@) == Some(v@),
                None => overlay_get(old(self)@.overlay, filename@) is None,
            },
    {
        let name = filename.to_owned();
        proof {
            let ov = self@.overlay;
            assert(forall|a: int| 0 <= a < ov.len() ==> ov[a].0 == #[trigger] self.files@[a].0@);
        }
        let ghost ov0 = self@.overlay;
        let k = find_file(&self.files, &name);
        if k < self.files.len() {
            let (_n, prev) = self.files.remove(k);
            self.files.insert(k, (name, file));
            proof {
                assert(self@.overlay =~= ov0.update(k as int, (filename@, file@)));
            }
            Some(prev)
        } else {
            self.files.push((name, file));
            proof {
                assert(self@.overlay =~= ov0.push((filename@, file@)));
            }
            None
        }
    }

    /// Removes `filename` from the overlay, returning what it held. A file
    /// declared on disk stays retrievable.
    pub fn remove(&mut self, filename: &str) -> (r: Option<Vec<u8>>)
        requires
            old(self).wf(),
        ensures
            final(self).wf(),
            final(self)@ == (PboView {
                overlay: overlay_without(old(self)@.overlay, filename@),
                ..old(self)@
            }),
            match r {
                Some(v) => overlay_get(old(self)@.overlay, filename@) == Some(v@),
                None => overlay_get(old(self)@.overlay, filename@) is None,
            },
    {
        let name = filename.to_owned();
        proof {
            let ov = self@.overlay;
            assert(forall|a: int| 0 <= a < ov.len() ==> ov[a].0 == #[trigger] self.files@[a].0@);
        }
        let ghost ov0 = self@.overlay;
        let k = find_file(&self.files, &name);
        if k < self.files.len() {
            let (_n, prev) = self.files.remove(k);
            proof {
                assert(self@.overlay =~= ov0.remove(k as int));
            }
            Some(prev)
        } else {
            None
        }
    }

    /// The value recorded last for the extension `key`.
    pub fn extension(&self, key: &str) -> (r: Option<String>)
        ensures
            match r {
                Some(v) => ext_get(self@.exts, key@) == Some(v@),
                None => ext_get(self@.exts, key@) is None,
            },
    {
        let k = key.to_owned();
        match ext_lookup(&self.extensions, &k) {
            Some(i) => Some(self.extensions[i].1.clone()),
            None => None,
        }
    }

    /// The first header declared on disk under `filename`.
    pub fn header(&mut self, filename: &str) -> (r: Option<PBOHeader>)
        ensures
            *final(self) == *old(self),
            match r {
                Some(h) => {
                    let k = header_pos(old(self)@.headers, filename@);
                    0 <= k < old(self)@.headers.len() && h@ == old(self)@.headers[k]
                },
                None => header_pos(old(self)@.headers, filename@) == old(self)@.headers.len(),
            },
    {
        let name = filename.to_owned();
        let k = find_header(&self.headers, &name);
        if k < self.headers.len() {
            Some(copy_header(&self.headers[k]))
        } else {
            None
        }
    }

    /// The files of the archive: the headers declared on disk, then, unless
    /// `disk_only`, a record for each overlay file that no header declares.
    pub fn files(&self, disk_only: bool) -> (r: Vec<PBOHeader>)
        requires
            self.wf(),
        ensures
            headers_view(r@) == entries(self@, disk_only),
    {
        let mut out: Vec<PBOHeader> = Vec::new();
        let mut i: usize = 0;
        let ghost hv = self@.headers;
        assert(headers_view(out@) =~= hv.take(0));
        while i < self.headers.len()
            invariant
                i <= self.headers@.len(),
                hv == headers_view(self.headers@),
                headers_view(out@) == hv.take(i as int),
            decreases self.headers.len() - i,
        {
            let h = copy_header(&self.headers[i]);
            let ghost out0 = out@;
            out.push(h);
            assert(headers_view(out@) =~= headers_view(out0).push(h@));
            assert(hv.take(i as int + 1) =~= hv.take(i as int).push(hv[i as int]));
            i = i + 1;
        }
        assert(hv.take(hv.len() as int) =~= hv);
        if disk_only {
            return out;
        }
        let ghost ov = self@.overlay;
        let mut j: usize = 0;
        assert(ov.take(0) =~= seq![]);
        assert(hv + overlay_only(ov.take(0), hv) =~= hv);
        while j < self.files.len()
            invariant
                j <= self.files@.len(),
                hv == headers_view(self.headers@),
                ov == overlay_view(self.files@),
                pbo_wf(self@),
                ov == self@.overlay,
                headers_view(out@) == hv + overlay_only(ov.take(j as int), hv),
            decreases self.files.len() - j,
        {
            let k = find_header(&self.headers, &self.files[j].0);
            proof {
                assert(ov.take(j as int + 1).drop_last() =~= ov.take(j as int));
                assert(ov.take(j as int + 1).last() == ov[j as int]);
            }
            if k == self.headers.len() {
                let len = self.files[j].1.len();
                assert(ov[j as int].1.len() <= u32::MAX);
                let h = PBOHeader {
                    filename: self.files[j].0.clone(),
                    method: 0,
                    original: len as u32,
                    reserved: 0,
                    timestamp: 0,
                    size: len as u32,
                };
                let ghost out0 = out@;
                out.push(h);
                assert(headers_view(out@) =~= headers_view(out0).push(h@));
                assert(h@ == synth(ov[j as int]));
            }
            j = j + 1;
        }
        assert(ov.take(ov.len() as int) =~= ov);
        out
    }

    /// `files(disk_only)` ordered by the case-insensitive key of the names.
    pub fn files_sorted(&self, disk_only: bool) -> (r: Vec<PBOHeader>)
        requires
            self.wf(),
        ensures
            headers_view(r@) == sort_entries(entries(self@, disk_only)),
    {
        let all = self.files(disk_only);
        sort_headers(&all)
    }

    /// Drops from the overlay every file whose name no header on disk
    /// declares.
    pub fn clear_cache(&mut self)
        requires
            old(self).wf(),
        ensures
            final(self).wf(),
            final(self)@ == (PboView {
                overlay: overlay_on_disk(old(self)@.overlay, old(self)@.headers),
                ..old(self)@
            }),
    {
        let ghost ov = self@.overlay;
        let ghost hv = self@.headers;
        let mut kept: Vec<(String, Vec<u8>)> = Vec::new();
        let mut j: usize = 0;
        let n = self.files.len();
        assert(ov.take(0) =~= seq![]);
        assert(overlay_view(kept@) =~= seq![]);
        while j < n
            invariant
                n == self.files@.len(),
                j <= n,
                hv == headers_view(self.headers@),
                ov == overlay_view(self.files@),
                overlay_view(kept@) == overlay_on_disk(ov.take(j as int), hv),
                pbo_wf(old(self)@),
                ov == old(self)@.overlay,
                forall|a: int| 0 <= a < kept@.len() ==> exists|x: int| 0 <= x < j && #[trigger] overlay_view(kept@)[a] == ov[x],
                forall|a: int, b: int| 0 <= a < b < kept@.len() ==> overlay_view(kept@)[a].0 != overlay_view(kept@)[b].0,
                forall|a: int| 0 <= a < kept@.len() ==> (#[trigger] overlay_view(kept@)[a]).1.len() <= u32::MAX,
                self == old(self),
            decreases n - j,
        {
            let k = find_header(&self.headers, &self.files[j].0);
            proof {
                assert(ov.take(j as int + 1).drop_last() =~= ov.take(j as int));
                assert(ov.take(j as int + 1).last() == ov[j as int]);
            }
            if k < self.headers.len() {
                let name = self.files[j].0.clone();
                let bytes = copy_bytes(&self.files[j].1);
                assert(ov[j as int] == (name@, bytes@));
                let ghost kept0 = kept@;
                kept.push((name, bytes));
                assert(overlay_view(kept@) =~= overlay_view(kept0).push(ov[j as int]));
                proof {
                    let kv = overlay_view(kept@);
                    let kv0 = overlay_view(kept0);
                    assert forall|a: int| 0 <= a < kept@.len() implies exists|x: int| 0 <= x < j + 1 && #[trigger] kv[a] == ov[x] by {
                        if a < kept0.len() {
                            let x = choose|x: int| 0 <= x < j && kv0[a] == ov[x];
                            assert(kv[a] == ov[x]);
                        } else {
                            assert(kv[a] == ov[j as int]);
                        }
                    }
                    assert forall|a: int, b: int| 0 <= a < b < kept@.len() implies kv[a].0 != kv[b].0 by {
                        if b == kept0.len() {
                            let x = choose|x: int| 0 <= x < j && kv0[a] == ov[x];
                            assert(kv[a] == ov[x]);
                            assert(ov[x].0 != ov[j as int].0);
                        } else {
                            assert(kv[a] == kv0[a] && kv[b] == kv0[b]);
                        }
                    }
                }
            }
            j = j + 1;
        }
        assert(ov.take(ov.len() as int) =~= ov);
        self.files = kept;
    }

    /// The current content of `name`, without touching the cursor.
    fn content_of(&self, name: &String) -> (r: Option<Vec<u8>>)
        requires
            self.wf(),
        ensures
            match r {
                Some(b) => content(self@, name@) == Some(b@) && b@.len() <= u32::MAX,
                None => content(self@, name@) is None,
            },
    {
        proof {
            let ov = self@.overlay;
            assert(forall|a: int| 0 <= a < ov.len() ==> ov[a].0 == #[trigger] self.files@[a].0@);
        }
        let k = find_file(&self.files, name);
        if k < self.files.len() {
            return Some(copy_bytes(&self.files[k].1));
        }
        let src = match &self.input {
            Some(src) => src,
            None => {
                return None;
            },
        };
        let kh = find_header(&self.headers, name);
        if kh == self.headers.len() {
            return None;
        }
        let ghost hv = self@.headers;
        proof {
            assert(hv.take(kh as int + 1) + hv.skip(kh as int + 1) =~= hv);
            lemma_sum_sizes_split(hv.take(kh as int + 1), hv.skip(kh as int + 1));
            lemma_sum_sizes_take(hv, kh as int);
        }
        let mut off: usize = self.blob_start;
        let mut i: usize = 0;
        let total = src.len();
        while i < kh
            invariant
                total == src.bytes().len(),
                i <= kh < hv.len(),
                hv == headers_view(self.headers@),
                self.wf(),
                self@.source == Some(src.bytes()),
                off == payload_start(self@, i as int),
                payload_start(self@, kh as int) + hv[kh as int].size + 21 <= src.bytes().len(),
            decreases kh - i,
        {
            proof {
                lemma_sum_sizes_take(hv, i as int);
                lemma_sum_sizes_take(hv, kh as int);
                assert(hv.take(kh as int) =~= hv.take(i as int + 1) + hv.take(kh as int).skip(i as int + 1));
                lemma_sum_sizes_split(hv.take(i as int + 1), hv.take(kh as int).skip(i as int + 1));
            }
            off = off + self.headers[i].size as usize;
            i = i + 1;
        }
        let size = self.headers[kh].size as usize;
        Some(src.read_at(off, size))
    }

    /// The bytes the checksum covers, in the canonical layout.
    fn canonical_bytes(&self) -> (r: Vec<u8>)
        requires
            self.wf(),
        ensures
            r@ == canonical(self@),
    {
        let ghost v = self@;
        let ghost ev = v.exts;
        let mut buf: Vec<u8> = Vec::new();
        let ext = PBOHeader {
            filename: String::new(),
            method: EXT_METHOD,
            original: 0,
            reserved: 0,
            timestamp: 0,
            size: 0,
        };
        ext.write(&mut buf);
        proof {
            reveal_strlit("prefix");
        }
        let pk = String::from_str("prefix");
        assert(pk@ =~= prefix_key());
        match ext_lookup(&self.extensions, &pk) {
            Some(i) => {
                push_cstring(&mut buf, pk.as_str());
                push_cstring(&mut buf, self.extensions[i].1.as_str());
            },
            None => {},
        }
        let ghost pre = buf@;
        assert(pre =~= header_bytes(ext_header()) + prefix_part(ev));
        let mut i: usize = 0;
        assert(ev.take(0) =~= seq![]);
        assert(buf@ =~= pre + ext_rest(ev.take(0), ev));
        while i < self.extensions.len()
            invariant
                i <= self.extensions@.len(),
                ev == exts_view(self.extensions@),
                pk@ == prefix_key(),
                buf@ == pre + ext_rest(ev.take(i as int), ev),
            decreases self.extensions.len() - i,
        {
            proof {
                assert(ev.take(i as int + 1).drop_last() =~= ev.take(i as int));
                assert(ev.take(i as int + 1).last() == ev[i as int]);
            }
            let ghost b0 = buf@;
            if self.extensions[i].0 != pk {
                let key = &self.extensions[i].0;
                push_cstring(&mut buf, key.as_str());
                match ext_lookup(&self.extensions, key) {
                    Some(j) => push_cstring(&mut buf, self.extensions[j].1.as_str()),
                    None => push_cstring(&mut buf, ""),
                }
                proof {
                    reveal_strlit("");
                }
            }
            assert(buf@ =~= pre + ext_rest(ev.take(i as int + 1), ev));
            i = i + 1;
        }
        assert(ev.take(ev.len() as int) =~= ev);
        buf.push(0u8);
        assert(buf@ =~= ext_block(ev));
        let ghost eb = buf@;
        let list = self.files_sorted(false);
        let ghost lv = headers_view(list@);
        let ghost c = contents(v);
        let mut payloads: Vec<u8> = Vec::new();
        let mut j: usize = 0;
        assert(lv.take(0) =~= seq![]);
        assert(buf@ =~= eb + headers_block(lv.take(0), c));
        assert(payloads@ =~= payload_block(lv.take(0), c));
        while j < list.len()
            invariant
                j <= list@.len(),
                self.wf(),
                v == self@,
                c == contents(v),
                lv == headers_view(list@),
                buf@ == eb + headers_block(lv.take(j as int), c),
                payloads@ == payload_block(lv.take(j as int), c),
            decreases list.len() - j,
        {
            proof {
                assert(lv.take(j as int + 1).drop_last() =~= lv.take(j as int));
                assert(lv.take(j as int + 1).last() == lv[j as int]);
            }
            let name = &list[j].filename;
            let bytes = match self.content_of(name) {
                Some(b) => b,
                None => Vec::new(),
            };
            let len = bytes.len() as u32;
            let h = PBOHeader {
                filename: name.clone(),
                method: 0,
                original: len,
                reserved: 0,
                timestamp: 0,
                size: len,
            };
            assert(h@ == out_header(lv[j as int].filename, c(lv[j as int].filename)));
            h.write(&mut buf);
            push_bytes(&mut payloads, bytes.as_slice());
            assert(buf@ =~= eb + headers_block(lv.take(j as int + 1), c));
            assert(payloads@ =~= payload_block(lv.take(j as int + 1), c));
            j = j + 1;
        }
        assert(lv.take(lv.len() as int) =~= lv);
        let end = PBOHeader {
            filename: String::new(),
            method: 0,
            original: 0,
            reserved: 0,
            timestamp: 0,
            size: 0,
        };
        end.write(&mut buf);
        push_bytes(&mut buf, payloads.as_slice());
        assert(buf@ =~= canonical(v));
        buf
    }

    /// Computes the SHA-1 digest of the canonical layout afresh.
    pub fn gen_checksum(&mut self) -> (r: Result<Vec<u8>, PboError>)
        requires
            old(self).wf(),
        ensures
            final(self).wf(),
            final(self)@ == old(self)@,
            match r {
                Ok(d) => d@ == sha1_of(canonical(old(self)@)) && d@.len() == 20,
                Err(e) => e == PboError::DigestFailure,
            },
    {
        let buf = self.canonical_bytes();
        match sha1(buf.as_slice()) {
            Ok(d) => Ok(d),
            Err(_) => Err(PboError::DigestFailure),
        }
    }

    /// The checksum found by `read`, or, when there is none, a fresh one.
    pub fn checksum(&mut self) -> (r: Result<Vec<u8>, PboError>)
        requires
            old(self).wf(),
        ensures
            final(self).wf(),
            final(self)@ == old(self)@,
            match old(self)@.checksum {
                Some(c) => r is Ok && r->Ok_0@ == c,
                None => match r {
                    Ok(d) => d@ == sha1_of(canonical(old(self)@)),
                    Err(e) => e == PboError::DigestFailure,
                },
            },
    {
        match &self.checksum {
            Some(c) => {
                return Ok(copy_bytes(c));
            },
            None => {},
        }
        self.gen_checksum()
    }

    /// Appends the archive in its canonical layout to `output`: extension
    /// block, the headers of all files sorted case-insensitively with sizes
    /// taken from their current content, the end header, the payloads in the
    /// same order, a zero byte and the SHA-1 digest of all before it.
    pub fn write(&mut self, output: &mut Vec<u8>) -> (r: Result<(), PboError>)
        requires
            old(self).wf(),
        ensures
            final(self).wf(),
            final(self)@ == old(self)@,
            match r {
                Ok(_) => final(output)@ == old(output)@ + archive_bytes(old(self)@),
                Err(e) => e == PboError::DigestFailure && final(output)@ == old(output)@,
            },
    {
        let buf = self.canonical_bytes();
        let digest = match sha1(buf.as_slice()) {
            Ok(d) => d,
            Err(_) => {
                return Err(PboError::DigestFailure);
            },
        };
        push_bytes(output, buf.as_slice());
        output.push(0u8);
        push_bytes(output, digest.as_slice());
        assert(output@ =~= old(output)@ + archive_bytes(self@));
        Ok(())
    }

    fn scan_source(mut src: Source, Ghost(b0): Ghost<Seq<u8>>) -> (r: Result<PBO, PboError>)
        requires
            src.wf(),
            src.cursor() == 0,
            src.bytes() == b0,
        ensures
            r is Ok <==> parse_archive(b0) is Ok,
            r is Err ==> parse_archive(b0) == Err::<Index, PboError>(r->Err_0),
            r is Ok ==> ({
                let p = r->Ok_0;
                let ix = parse_archive(b0)->Ok_0;
                &&& p.wf()
                &&& p@.headers == ix.headers
                &&& p@.exts == ix.exts
                &&& p@.blob_start == ix.blob_start
                &&& p@.checksum == Some(ix.checksum)
                &&& p@.source == Some(b0)
                &&& p@.overlay.len() == 0
                &&& !p@.cache
            }),
    {
        let ghost b = b0;
        let mut hs: Vec<PBOHeader> = Vec::new();
        let mut exts: Vec<(String, String)> = Vec::new();
        let mut in_ext = false;
        assert(headers_view(hs@) =~= Seq::<HeaderView>::empty());
        assert(exts_view(exts@) =~= Seq::<ExtView>::empty());
        loop
            invariant_except_break
                scan_all(b) == scan(
                    b,
                    src.cursor(),
                    in_ext,
                    headers_view(hs@),
                    exts_view(exts@),
                ),
            invariant
                b == b0,
                src.wf(),
                src.bytes() == b,
            ensures
                src.wf(),
                src.bytes() == b,
                scan_all(b) == Ok::<
                    (Seq<HeaderView>, Seq<ExtView>, int),
                    PboError,
                >((headers_view(hs@), exts_view(exts@), src.cursor())),
            decreases b.len() - src.cursor(),
        {
            if in_ext {
                match scan_ext_entry(&mut src, &mut exts, Ghost(headers_view(hs@))) {
                    Ok(more) => {
                        in_ext = more;
                    },
                    Err(e) => {
                        proof {
                            lemma_read_err(b0, e);
                        }
                        return Err(e);
                    },
                }
            } else {
                match scan_header(&mut src, &mut hs, Ghost(exts_view(exts@))) {
                    Ok(Some(ext)) => {
                        in_ext = ext;
                    },
                    Ok(None) => {
                        break ;
                    },
                    Err(e) => {
                        proof {
                            lemma_read_err(b0, e);
                        }
                        return Err(e);
                    },
                }
            }
        }
        let ghost hv = headers_view(hs@);
        let ghost ev = exts_view(exts@);
        let blob_start = src.position();
        let mut i: usize = 0;
        while i < hs.len()
            invariant
                b == b0,
                src.wf(),
                src.bytes() == b,
                i <= hs@.len(),
                hv == headers_view(hs@),
                ev == exts_view(exts@),
                scan_all(b) == Ok::<
                    (Seq<HeaderView>, Seq<ExtView>, int),
                    PboError,
                >((hv, ev, blob_start as int)),
                blob_start <= src.cursor(),
                src.cursor() == blob_start + sum_sizes(hv.take(i as int)),
            decreases hs.len() - i,
        {
            proof {
                lemma_sum_sizes_take(hv, i as int);
            }
            let size = hs[i].size as usize;
            assert(hv[i as int].size == hs@[i as int].size);
            if size > src.len() - src.position() {
                proof {
                    assert(hv.take(i as int + 1) + hv.skip(i as int + 1) =~= hv);
                    lemma_sum_sizes_split(hv.take(i as int + 1), hv.skip(i as int + 1));
                }
                proof {
                    lemma_read_err(b0, PboError::TruncatedPayload);
                }
                return Err(PboError::TruncatedPayload);
            }
            src.skip(size);
            i = i + 1;
        }
        assert(hv.take(hs@.len() as int) =~= hv);
        if src.len() - src.position() < 21 {
            proof {
                    lemma_read_err(b0, PboError::TruncatedChecksum);
                }
            return Err(PboError::TruncatedChecksum);
        }
        src.skip(1);
        let checksum = match src.read_exact(20) {
            Some(c) => c,
            None => {
                proof {
                    lemma_read_err(b0, PboError::TruncatedChecksum);
                }
            return Err(PboError::TruncatedChecksum);
            },
        };
        let p = PBO {
            extensions: exts,
            headers: hs,
            checksum: Some(checksum),
            files: Vec::new(),
            input: Some(src),
            blob_start,
            read_cache: false,
        };
        assert(p@.overlay =~= seq![]);
        Ok(p)
    }
}

} // verus!
