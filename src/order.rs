//! Case-insensitive ordering of file names.
use crate::header::{copy_header, HeaderView, PBOHeader};
use crate::pbo::headers_view;
use vstd::prelude::*;
use vstd::utf8::encode_utf8;

verus! {

/// What `str::to_lowercase` gives for a string.
pub uninterp spec fn lower_of(s: Seq<char>) -> Seq<char>;

/// Relies on `str::to_lowercase`: the lowercase form depends on the
/// characters alone.
#[verifier::external_body]
fn lowercase(s: &str) -> (r: String)
    ensures
        r@ == lower_of(s@),
{
    s.to_lowercase()
}

/// The sort key of a name: the UTF-8 bytes of its lowercase form.
pub open spec fn name_key(name: Seq<char>) -> Seq<u8> {
    encode_utf8(lower_of(name))
}

/// Lexicographic order on bytes, as `String`'s `Ord` compares.
pub open spec fn bytes_lt(a: Seq<u8>, b: Seq<u8>) -> bool
    decreases a.len(),
{
    if a.len() == 0 {
        b.len() > 0
    } else if b.len() == 0 {
        false
    } else if a[0] != b[0] {
        a[0] < b[0]
    } else {
        bytes_lt(a.drop_first(), b.drop_first())
    }
}

/// `x` placed into `r` after every entry whose key is not above its own.
pub open spec fn insert_sorted(r: Seq<HeaderView>, x: HeaderView) -> Seq<HeaderView>
    decreases r.len(),
{
    if r.len() == 0 {
        seq![x]
    } else if bytes_lt(name_key(x.filename), name_key(r[0].filename)) {
        seq![x] + r
    } else {
        seq![r[0]] + insert_sorted(r.drop_first(), x)
    }
}

/// The entries ordered by the case-insensitive key of their names; entries
/// with equal keys keep their order.
pub open spec fn sort_entries(s: Seq<HeaderView>) -> Seq<HeaderView>
    decreases s.len(),
{
    if s.len() == 0 {
        seq![]
    } else {
        insert_sorted(sort_entries(s.drop_last()), s.last())
    }
}

proof fn lemma_insert_at(r: Seq<HeaderView>, x: HeaderView, p: int)
    requires
        0 <= p <= r.len(),
        forall|j: int| 0 <= j < p ==> !bytes_lt(name_key(x.filename), name_key(#[trigger] r[j].filename)),
        p < r.len() ==> bytes_lt(name_key(x.filename), name_key(r[p].filename)),
    ensures
        insert_sorted(r, x) == r.take(p) + seq![x] + r.skip(p),
    decreases p,
{
    if p == 0 {
        assert(r.take(0) + seq![x] + r.skip(0) =~= seq![x] + r);
        if r.len() == 0 {
            assert(seq![x] + r =~= seq![x]);
        }
    } else {
        let t = r.drop_first();
        assert forall|j: int| 0 <= j < p - 1 implies !bytes_lt(
            name_key(x.filename),
            name_key(#[trigger] t[j].filename),
        ) by {
            assert(t[j] == r[j + 1]);
        }
        if p - 1 < t.len() {
            assert(t[p - 1] == r[p]);
        }
        lemma_insert_at(t, x, p - 1);
        assert(seq![r[0]] + (t.take(p - 1) + seq![x] + t.skip(p - 1)) =~= r.take(p) + seq![x]
            + r.skip(p));
    }
}

/// Whether `a` orders strictly before `b`.
fn less(a: &[u8], b: &[u8]) -> (r: bool)
    ensures
        r == bytes_lt(a@, b@),
{
    let mut i: usize = 0;
    assert(a@.skip(0) =~= a@);
    assert(b@.skip(0) =~= b@);
    while i < a.len() && i < b.len() && a[i] == b[i]
        invariant
            i <= a@.len(),
            i <= b@.len(),
            bytes_lt(a@, b@) == bytes_lt(a@.skip(i as int), b@.skip(i as int)),
        decreases a.len() - i,
    {
        assert(a@.skip(i as int).drop_first() =~= a@.skip(i as int + 1));
        assert(b@.skip(i as int).drop_first() =~= b@.skip(i as int + 1));
        i = i + 1;
    }
    if i == a.len() {
        i < b.len()
    } else if i == b.len() {
        false
    } else {
        a[i] < b[i]
    }
}

/// The sort key of a name.
fn key_of(name: &String) -> (r: Vec<u8>)
    ensures
        r@ == name_key(name@),
{
    let l = lowercase(name.as_str());
    let mut out: Vec<u8> = Vec::new();
    crate::text::push_bytes(&mut out, l.as_str().as_bytes());
    out
}

/// Sorts header records by the case-insensitive key of their names,
/// keeping the order of equal keys.
pub fn sort_headers(items: &Vec<PBOHeader>) -> (r: Vec<PBOHeader>)
    ensures
        headers_view(r@) == sort_entries(headers_view(items@)),
{
    let ghost iv = headers_view(items@);
    let mut out: Vec<PBOHeader> = Vec::new();
    let mut keys: Vec<Vec<u8>> = Vec::new();
    let mut i: usize = 0;
    assert(iv.take(0) =~= seq![]);
    assert(headers_view(out@) =~= seq![]);
    while i < items.len()
        invariant
            i <= items@.len(),
            iv == headers_view(items@),
            headers_view(out@) == sort_entries(iv.take(i as int)),
            keys@.len() == out@.len(),
            forall|j: int| 0 <= j < keys@.len() ==> (#[trigger] keys@[j])@ == name_key(out@[j].filename@),
        decreases items.len() - i,
    {
        let x = copy_header(&items[i]);
        let kx = key_of(&x.filename);
        let ghost ov = headers_view(out@);
        let mut p: usize = 0;
        while p < out.len() && !less(kx.as_slice(), keys[p].as_slice())
            invariant
                p <= out@.len(),
                keys@.len() == out@.len(),
                ov == headers_view(out@),
                kx@ == name_key(x@.filename),
                forall|j: int| 0 <= j < keys@.len() ==> (#[trigger] keys@[j])@ == name_key(out@[j].filename@),
                forall|j: int| 0 <= j < p ==> !bytes_lt(name_key(x@.filename), name_key(#[trigger] ov[j].filename)),
            decreases out.len() - p,
        {
            p = p + 1;
        }
        proof {
            lemma_insert_at(ov, x@, p as int);
            assert(iv.take(i as int + 1).drop_last() =~= iv.take(i as int));
            assert(iv.take(i as int + 1).last() == iv[i as int]);
        }
        let ghost xv = x@;
        let ghost kxv = kx@;
        let ghost out0 = out@;
        let ghost keys0 = keys@;
        out.insert(p, x);
        keys.insert(p, kx);
        proof {
            assert(headers_view(out@) =~= ov.take(p as int) + seq![xv] + ov.skip(p as int));
            assert forall|j: int| 0 <= j < keys@.len() implies (#[trigger] keys@[j])@ == name_key(out@[j].filename@) by {
                if j < p {
                    assert(keys@[j] == keys0[j] && out@[j] == out0[j]);
                } else if j > p {
                    assert(keys@[j] == keys0[j - 1] && out@[j] == out0[j - 1]);
                }
            }
        }
        i = i + 1;
    }
    assert(iv.take(items@.len() as int) =~= iv);
    out
}

} // verus!
