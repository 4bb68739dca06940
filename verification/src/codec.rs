//! The compact binary codec for scan results. Cached results are
//! persisted in this format, and the binary request path ships it to the
//! client. Integers are little-endian, strings are length-prefixed UTF-8;
//! the encoding of every value is pinned down byte for byte, and a
//! successful decode returns exactly the value whose encoding the bytes
//! are.
use vstd::prelude::*;

verus! {

use crate::item::{Item, ItemView, ScanResult, TimingInfo};
use crate::walk::items_view;
use vstd::utf8::{encode_utf8, valid_utf8};

/// The eight little-endian bytes of `v`.
pub open spec fn enc_u64(v: u64) -> Seq<u8> {
    seq![
        v as u8,
        (v >> 8) as u8,
        (v >> 16) as u8,
        (v >> 24) as u8,
        (v >> 32) as u8,
        (v >> 40) as u8,
        (v >> 48) as u8,
        (v >> 56) as u8,
    ]
}

/// A string: the byte length of its UTF-8 form, then that form.
pub open spec fn enc_str(s: Seq<char>) -> Seq<u8> {
    enc_u64(encode_utf8(s).len() as u64) + encode_utf8(s)
}

/// A boolean as one byte.
pub open spec fn enc_bool(b: bool) -> Seq<u8> {
    if b {
        seq![1u8]
    } else {
        seq![0u8]
    }
}

/// One item: path, name, size (as the two's-complement image of the
/// signed value), formatted size, directory flag.
pub open spec fn enc_item(iv: ItemView) -> Seq<u8> {
    enc_str(iv.path) + enc_str(iv.name) + enc_u64(iv.size as u64) + enc_str(iv.size_formatted)
        + enc_bool(iv.is_dir)
}

/// An item list: its length, then each item in order.
pub open spec fn enc_items(items: Seq<ItemView>) -> Seq<u8>
    decreases items.len(),
{
    if items.len() == 0 {
        Seq::empty()
    } else {
        enc_items(items.drop_last()) + enc_item(items.last())
    }
}

/// The timing block: a presence flag, then the four phase lengths.
pub open spec fn enc_timing(t: Option<TimingInfo>) -> Seq<u8> {
    match t {
        None => enc_bool(false) + enc_u64(0) + enc_u64(0) + enc_u64(0) + enc_u64(0),
        Some(ti) => enc_bool(true) + enc_u64(ti.scan_phase) + enc_u64(ti.compute_phase) + enc_u64(
            ti.format_phase,
        ) + enc_u64(ti.total),
    }
}

/// A whole scan result. The performance block is not persisted: a cache
/// hit gets fresh metrics from the orchestrator.
pub open spec fn enc_result(r: ScanResult) -> Seq<u8> {
    enc_str(r.path@) + enc_u64(r.total_size as u64) + enc_str(r.total_size_formatted@) + enc_u64(
        r.scan_time_ms,
    ) + enc_timing(r.timing) + enc_u64(r.items@.len() as u64) + enc_items(items_view(r.items@))
}

/// Appends the eight little-endian bytes of `v`.
pub fn push_u64(out: &mut Vec<u8>, v: u64)
    ensures
        final(out)@ == old(out)@ + enc_u64(v),
{
    out.push(v as u8);
    out.push((v >> 8) as u8);
    out.push((v >> 16) as u8);
    out.push((v >> 24) as u8);
    out.push((v >> 32) as u8);
    out.push((v >> 40) as u8);
    out.push((v >> 48) as u8);
    out.push((v >> 56) as u8);
    proof {
        assert(out@ =~= old(out)@ + enc_u64(v));
    }
}

/// Appends a length-prefixed string.
pub fn push_str(out: &mut Vec<u8>, s: &str)
    ensures
        final(out)@ == old(out)@ + enc_str(s@),
{
    let bytes = s.as_bytes_vec();
    push_u64(out, bytes.len() as u64);
    let mut i: usize = 0;
    while i < bytes.len()
        invariant
            bytes@ == encode_utf8(s@),
            i <= bytes.len(),
            out@ == old(out)@ + enc_u64(bytes@.len() as u64) + bytes@.subrange(0, i as int),
        decreases bytes.len() - i,
    {
        out.push(bytes[i]);
        proof {
            assert(out@ =~= old(out)@ + enc_u64(bytes@.len() as u64) + bytes@.subrange(0, i + 1));
        }
        i = i + 1;
    }
    proof {
        assert(bytes@.subrange(0, bytes@.len() as int) =~= bytes@);
        assert(out@ =~= old(out)@ + enc_str(s@));
    }
}

/// Appends a boolean byte.
pub fn push_bool(out: &mut Vec<u8>, b: bool)
    ensures
        final(out)@ == old(out)@ + enc_bool(b),
{
    if b {
        out.push(1u8);
    } else {
        out.push(0u8);
    }
    proof {
        assert(out@ =~= old(out)@ + enc_bool(b));
    }
}

/// Appends one encoded item.
pub fn push_item(out: &mut Vec<u8>, it: &Item)
    ensures
        final(out)@ == old(out)@ + enc_item(it@),
{
    push_str(out, it.path.as_str());
    push_str(out, it.name.as_str());
    push_u64(out, it.size as u64);
    push_str(out, it.size_formatted.as_str());
    push_bool(out, it.is_dir);
    proof {
        assert(out@ =~= old(out)@ + enc_item(it@));
    }
}

/// Encodes an item list, without a length prefix.
pub fn encode_items(items: &Vec<Item>) -> (r: Vec<u8>)
    ensures
        r@ == enc_items(items_view(items@)),
{
    let mut out: Vec<u8> = Vec::new();
    let mut i: usize = 0;
    while i < items.len()
        invariant
            i <= items@.len(),
            out@ == enc_items(items_view(items@.subrange(0, i as int))),
        decreases items.len() - i,
    {
        let ghost prefix = items_view(items@.subrange(0, i as int));
        let ghost prefix1 = items_view(items@.subrange(0, i + 1));
        proof {
            assert(prefix1.drop_last() =~= prefix);
            assert(prefix1.last() == items@[i as int]@);
        }
        push_item(&mut out, &items[i]);
        i = i + 1;
    }
    proof {
        assert(items@.subrange(0, items@.len() as int) =~= items@);
    }
    out
}

/// Encodes a whole scan result for the disk cache.
pub fn encode_scan_result(r: &ScanResult) -> (out: Vec<u8>)
    ensures
        out@ == enc_result(*r),
{
    let mut out: Vec<u8> = Vec::new();
    push_str(&mut out, r.path.as_str());
    push_u64(&mut out, r.total_size as u64);
    push_str(&mut out, r.total_size_formatted.as_str());
    push_u64(&mut out, r.scan_time_ms);
    match &r.timing {
        None => {
            push_bool(&mut out, false);
            push_u64(&mut out, 0);
            push_u64(&mut out, 0);
            push_u64(&mut out, 0);
            push_u64(&mut out, 0);
        },
        Some(t) => {
            push_bool(&mut out, true);
            push_u64(&mut out, t.scan_phase);
            push_u64(&mut out, t.compute_phase);
            push_u64(&mut out, t.format_phase);
            push_u64(&mut out, t.total);
        },
    }
    push_u64(&mut out, r.items.len() as u64);
    let body = encode_items(&r.items);
    let mut i: usize = 0;
    while i < body.len()
        invariant
            body@ == enc_items(items_view(r.items@)),
            i <= body.len(),
            out@ == enc_str(r.path@) + enc_u64(r.total_size as u64) + enc_str(
                r.total_size_formatted@,
            ) + enc_u64(r.scan_time_ms) + enc_timing(r.timing) + enc_u64(r.items@.len() as u64)
                + body@.subrange(0, i as int),
        decreases body.len() - i,
    {
        out.push(body[i]);
        proof {
            assert(out@ =~= enc_str(r.path@) + enc_u64(r.total_size as u64) + enc_str(
                r.total_size_formatted@,
            ) + enc_u64(r.scan_time_ms) + enc_timing(r.timing) + enc_u64(r.items@.len() as u64)
                + body@.subrange(0, i + 1));
        }
        i = i + 1;
    }
    proof {
        assert(body@.subrange(0, body@.len() as int) =~= body@);
        assert(out@ =~= enc_result(*r));
    }
    out
}

/// Two values with the same eight bytes are the same value.
pub proof fn lemma_enc_u64_injective(a: u64, b: u64)
    requires
        enc_u64(a) == enc_u64(b),
    ensures
        a == b,
{
    assert(enc_u64(a)[0] == enc_u64(b)[0]);
    assert(enc_u64(a)[1] == enc_u64(b)[1]);
    assert(enc_u64(a)[2] == enc_u64(b)[2]);
    assert(enc_u64(a)[3] == enc_u64(b)[3]);
    assert(enc_u64(a)[4] == enc_u64(b)[4]);
    assert(enc_u64(a)[5] == enc_u64(b)[5]);
    assert(enc_u64(a)[6] == enc_u64(b)[6]);
    assert(enc_u64(a)[7] == enc_u64(b)[7]);
    assert((a as u8 == b as u8 && (a >> 8) as u8 == (b >> 8) as u8 && (a >> 16) as u8 == (b >> 16)
        as u8 && (a >> 24) as u8 == (b >> 24) as u8 && (a >> 32) as u8 == (b >> 32) as u8 && (a
        >> 40) as u8 == (b >> 40) as u8 && (a >> 48) as u8 == (b >> 48) as u8 && (a >> 56) as u8
        == (b >> 56) as u8) ==> a == b) by (bit_vector);
}

/// Two strings with the same UTF-8 bytes are the same string.
pub proof fn lemma_encode_utf8_injective(a: Seq<char>, b: Seq<char>)
    requires
        encode_utf8(a) == encode_utf8(b),
    ensures
        a == b,
{
    vstd::utf8::encode_utf8_decode_utf8(a);
    vstd::utf8::encode_utf8_decode_utf8(b);
}

/// Relies on `String::from_utf8`: succeeds exactly on valid UTF-8, and
/// the returned string's bytes are the input bytes.
#[verifier::external_body]
fn string_from_utf8(bytes: Vec<u8>) -> (r: Option<String>)
    ensures
        r matches Some(s) ==> encode_utf8(s@) == bytes@,
        valid_utf8(bytes@) ==> r is Some,
{
    String::from_utf8(bytes).ok()
}

/// Reads the little-endian `u64` at `pos`. A success returns exactly the
/// value those eight bytes encode.
pub fn dec_u64(bytes: &Vec<u8>, pos: usize) -> (r: Option<(u64, usize)>)
    ensures
        match r {
            Some((v, end)) => {
                &&& end == pos + 8
                &&& end <= bytes@.len()
                &&& bytes@.subrange(pos as int, end as int) == enc_u64(v)
            },
            None => bytes@.len() < pos + 8,
        },
        forall|v: u64|
            pos + 8 <= bytes@.len() && #[trigger] bytes@.subrange(pos as int, pos + 8) == enc_u64(
                v,
            ) ==> r == Some((v, (pos + 8) as usize)),
{
    if bytes.len() < 8 || pos > bytes.len() - 8 {
        return None;
    }
    let b0 = bytes[pos];
    let b1 = bytes[pos + 1];
    let b2 = bytes[pos + 2];
    let b3 = bytes[pos + 3];
    let b4 = bytes[pos + 4];
    let b5 = bytes[pos + 5];
    let b6 = bytes[pos + 6];
    let b7 = bytes[pos + 7];
    let v: u64 = (b0 as u64) | ((b1 as u64) << 8) | ((b2 as u64) << 16) | ((b3 as u64) << 24) | (
    (b4 as u64) << 32) | ((b5 as u64) << 40) | ((b6 as u64) << 48) | ((b7 as u64) << 56);
    proof {
        assert({
            let w = (b0 as u64) | ((b1 as u64) << 8) | ((b2 as u64) << 16) | ((b3 as u64) << 24)
                | ((b4 as u64) << 32) | ((b5 as u64) << 40) | ((b6 as u64) << 48) | ((b7 as u64)
                << 56);
            &&& w as u8 == b0
            &&& (w >> 8) as u8 == b1
            &&& (w >> 16) as u8 == b2
            &&& (w >> 24) as u8 == b3
            &&& (w >> 32) as u8 == b4
            &&& (w >> 40) as u8 == b5
            &&& (w >> 48) as u8 == b6
            &&& (w >> 56) as u8 == b7
        }) by (bit_vector);
        assert(bytes@.subrange(pos as int, (pos + 8) as int) =~= enc_u64(v));
        assert forall|w: u64|
            pos + 8 <= bytes@.len() && bytes@.subrange(pos as int, pos + 8) == enc_u64(
                w,
            ) implies w == v by {
            lemma_enc_u64_injective(w, v);
        }
    }
    Some((v, pos + 8))
}

/// Reads a length-prefixed string. A success returns exactly the string
/// those bytes encode.
#[verifier::rlimit(100)]
pub fn dec_str(bytes: &Vec<u8>, pos: usize) -> (r: Option<(String, usize)>)
    ensures
        match r {
            Some((s, end)) => {
                &&& pos + 8 <= end <= bytes@.len()
                &&& bytes@.subrange(pos as int, end as int) == enc_str(s@)
            },
            None => true,
        },
        forall|s2: Seq<char>|
            str_fits_here(bytes@, pos as int, s2) && #[trigger] bytes@.subrange(
                pos as int,
                pos + 8 + encode_utf8(s2).len(),
            ) == enc_str(s2) ==> (r matches Some(q) && q.0@ == s2 && q.1 == pos + 8 + encode_utf8(
                s2,
            ).len()),
{
    let (n, p) = match dec_u64(bytes, pos) {
        Some(x) => x,
        None => {
            return None;
        },
    };
    proof {
        assert forall|s2: Seq<char>|
            str_fits_here(bytes@, pos as int, s2) && bytes@.subrange(
                pos as int,
                pos + 8 + encode_utf8(s2).len(),
            ) == enc_str(s2) implies n == encode_utf8(s2).len() by {
            let n2 = encode_utf8(s2).len() as int;
            assert(bytes@.subrange(pos as int, pos + 8) =~= bytes@.subrange(
                pos as int,
                pos + 8 + n2,
            ).subrange(0, 8));
            assert(enc_str(s2).subrange(0, 8) =~= enc_u64(encode_utf8(s2).len() as u64));
            lemma_enc_u64_injective(n, encode_utf8(s2).len() as u64);
        }
    }
    if n > (bytes.len() - p) as u64 {
        proof {
            assert forall|s2: Seq<char>|
                str_fits_here(bytes@, pos as int, s2) && bytes@.subrange(
                    pos as int,
                    pos + 8 + encode_utf8(s2).len(),
                ) == enc_str(s2) implies false by {
                assert(n == encode_utf8(s2).len());
            }
        }
        return None;
    }
    let count = n as usize;
    proof {
        assert(p + count <= bytes@.len());
    }
    let mut raw: Vec<u8> = Vec::new();
    let mut i: usize = 0;
    while i < count
        invariant
            p + count <= bytes@.len(),
            bytes@.len() <= usize::MAX,
            i <= count,
            raw@ == bytes@.subrange(p as int, p + i as int),
        decreases count - i,
    {
        raw.push(bytes[p + i]);
        proof {
            assert(raw@ =~= bytes@.subrange(p as int, p + i + 1 as int));
        }
        i = i + 1;
    }
    let ghost rawview = raw@;
    proof {
        assert forall|s2: Seq<char>|
            str_fits_here(bytes@, pos as int, s2) && bytes@.subrange(
                pos as int,
                pos + 8 + encode_utf8(s2).len(),
            ) == enc_str(s2) implies rawview == encode_utf8(s2) by {
            let n2 = encode_utf8(s2).len() as int;
            assert(n == encode_utf8(s2).len());
            assert(rawview =~= bytes@.subrange(pos as int, pos + 8 + n2).subrange(8, 8 + n2));
            assert(enc_str(s2).subrange(8, 8 + n2) =~= encode_utf8(s2));
        }
    }
    match string_from_utf8(raw) {
        Some(s) => {
            proof {
                assert(encode_utf8(s@) == rawview);
                assert(bytes@.subrange(pos as int, (p + count) as int) =~= enc_str(s@));
                assert forall|s2: Seq<char>|
                    str_fits_here(bytes@, pos as int, s2) && bytes@.subrange(
                        pos as int,
                        pos + 8 + encode_utf8(s2).len(),
                    ) == enc_str(s2) implies s@ == s2 by {
                    lemma_encode_utf8_injective(s@, s2);
                }
            }
            Some((s, p + count))
        },
        None => {
            proof {
                assert forall|s2: Seq<char>|
                    str_fits_here(bytes@, pos as int, s2) && bytes@.subrange(
                        pos as int,
                        pos + 8 + encode_utf8(s2).len(),
                    ) == enc_str(s2) implies false by {
                    vstd::utf8::encode_utf8_valid_utf8(s2);
                    assert(valid_utf8(rawview));
                }
            }
            None
        },
    }
}

/// The side conditions under which the encoding of `s2` can sit at
/// `pos`: its length prefix is representable and it ends inside the
/// input.
pub open spec fn str_fits_here(bytes: Seq<u8>, pos: int, s2: Seq<char>) -> bool {
    &&& encode_utf8(s2).len() <= u64::MAX
    &&& pos + 8 + encode_utf8(s2).len() <= bytes.len()
}

/// Reads a boolean byte; anything but 0 or 1 is rejected.
pub fn dec_bool(bytes: &Vec<u8>, pos: usize) -> (r: Option<(bool, usize)>)
    ensures
        match r {
            Some((b, end)) => {
                &&& end == pos + 1
                &&& end <= bytes@.len()
                &&& bytes@.subrange(pos as int, end as int) == enc_bool(b)
            },
            None => true,
        },
        forall|b: bool|
            pos + 1 <= bytes@.len() && #[trigger] bytes@.subrange(pos as int, pos + 1) == enc_bool(
                b,
            ) ==> r == Some((b, (pos + 1) as usize)),
{
    if pos >= bytes.len() {
        return None;
    }
    let b = bytes[pos];
    proof {
        assert(bytes@.subrange(pos as int, (pos + 1) as int)[0] == bytes@[pos as int]);
        assert(enc_bool(true)[0] == 1u8 && enc_bool(false)[0] == 0u8);
    }
    if b == 1 {
        proof {
            assert(bytes@.subrange(pos as int, (pos + 1) as int) =~= enc_bool(true));
            assert forall|w: bool|
                pos + 1 <= bytes@.len() && bytes@.subrange(pos as int, pos + 1) == enc_bool(
                    w,
                ) implies w == true by {
                assert(enc_bool(w)[0] == bytes@[pos as int]);
            }
        }
        Some((true, pos + 1))
    } else if b == 0 {
        proof {
            assert(bytes@.subrange(pos as int, (pos + 1) as int) =~= enc_bool(false));
            assert forall|w: bool|
                pos + 1 <= bytes@.len() && bytes@.subrange(pos as int, pos + 1) == enc_bool(
                    w,
                ) implies w == false by {
                assert(enc_bool(w)[0] == bytes@[pos as int]);
            }
        }
        Some((false, pos + 1))
    } else {
        proof {
            assert forall|w: bool|
                pos + 1 <= bytes@.len() && bytes@.subrange(pos as int, pos + 1) == enc_bool(
                    w,
                ) implies false by {
                assert(enc_bool(w)[0] == bytes@[pos as int]);
            }
        }
        None
    }
}


/// The side conditions under which an item's encoding round-trips: the
/// string length prefixes are representable and the size is a signed
/// 64-bit value.
pub open spec fn item_encodable(iv: ItemView) -> bool {
    &&& encode_utf8(iv.path).len() <= u64::MAX
    &&& encode_utf8(iv.name).len() <= u64::MAX
    &&& encode_utf8(iv.size_formatted).len() <= u64::MAX
    &&& i64::MIN <= iv.size <= i64::MAX
}

/// Carves an item's encoding at `pos` into its five fields, each at its
/// own offset.
pub proof fn lemma_item_parts(bytes: Seq<u8>, pos: int, iv: ItemView)
    requires
        0 <= pos,
        pos + enc_item(iv).len() <= bytes.len(),
        bytes.subrange(pos, pos + enc_item(iv).len()) == enc_item(iv),
        item_encodable(iv),
    ensures
        ({
            let o1 = pos + enc_str(iv.path).len();
            let o2 = o1 + enc_str(iv.name).len();
            let o3 = o2 + 8;
            let o4 = o3 + enc_str(iv.size_formatted).len();
            &&& bytes.subrange(pos, pos + 8 + encode_utf8(iv.path).len()) == enc_str(iv.path)
            &&& str_fits_here(bytes, pos, iv.path)
            &&& bytes.subrange(o1, o1 + 8 + encode_utf8(iv.name).len()) == enc_str(iv.name)
            &&& str_fits_here(bytes, o1, iv.name)
            &&& bytes.subrange(o2, o2 + 8) == enc_u64(iv.size as u64)
            &&& bytes.subrange(o3, o3 + 8 + encode_utf8(iv.size_formatted).len()) == enc_str(
                iv.size_formatted,
            )
            &&& str_fits_here(bytes, o3, iv.size_formatted)
            &&& bytes.subrange(o4, o4 + 1) == enc_bool(iv.is_dir)
            &&& o4 + 1 == pos + enc_item(iv).len()
        }),
{
    let whole = enc_item(iv);
    let la = enc_str(iv.path).len() as int;
    let lb = enc_str(iv.name).len() as int;
    let ld = enc_str(iv.size_formatted).len() as int;
    let o1 = pos + la;
    let o2 = o1 + lb;
    let o3 = o2 + 8;
    let o4 = o3 + ld;
    assert(bytes.subrange(pos, pos + la) =~= whole.subrange(0, la));
    assert(whole.subrange(0, la) =~= enc_str(iv.path));
    assert(bytes.subrange(o1, o1 + lb) =~= whole.subrange(la, la + lb));
    assert(whole.subrange(la, la + lb) =~= enc_str(iv.name));
    assert(bytes.subrange(o2, o2 + 8) =~= whole.subrange(la + lb, la + lb + 8));
    assert(whole.subrange(la + lb, la + lb + 8) =~= enc_u64(iv.size as u64));
    assert(bytes.subrange(o3, o3 + ld) =~= whole.subrange(la + lb + 8, la + lb + 8 + ld));
    assert(whole.subrange(la + lb + 8, la + lb + 8 + ld) =~= enc_str(iv.size_formatted));
    assert(bytes.subrange(o4, o4 + 1) =~= whole.subrange(la + lb + 8 + ld, la + lb + 8 + ld + 1));
    assert(whole.subrange(la + lb + 8 + ld, la + lb + 8 + ld + 1) =~= enc_bool(iv.is_dir));
}

/// Reads one item. A success returns exactly the item those bytes encode.
#[verifier::rlimit(100)]
pub fn dec_item(bytes: &Vec<u8>, pos: usize) -> (r: Option<(Item, usize)>)
    ensures
        match r {
            Some((it, end)) => {
                &&& pos + 8 <= end <= bytes@.len()
                &&& bytes@.subrange(pos as int, end as int) == enc_item(it@)
            },
            None => true,
        },
        forall|iv: ItemView|
            item_encodable(iv) && pos + enc_item(iv).len() <= bytes@.len()
                && #[trigger] bytes@.subrange(pos as int, pos + enc_item(iv).len()) == enc_item(iv)
                ==> (r matches Some(q) && q.0@ == iv && q.1 == pos + enc_item(iv).len()),
{
    let (path, p1) = match dec_str(bytes, pos) {
        Some(x) => x,
        None => {
            proof {
                assert forall|iv: ItemView|
                    item_encodable(iv) && pos + enc_item(iv).len() <= bytes@.len()
                        && bytes@.subrange(pos as int, pos + enc_item(iv).len()) == enc_item(
                        iv,
                    ) implies false by {
                    lemma_item_parts(bytes@, pos as int, iv);
                }
            }
            return None;
        },
    };
    proof {
        assert forall|iv: ItemView|
            item_encodable(iv) && pos + enc_item(iv).len() <= bytes@.len() && bytes@.subrange(
                pos as int,
                pos + enc_item(iv).len(),
            ) == enc_item(iv) implies path@ == iv.path && p1 == pos + enc_str(iv.path).len() by {
            lemma_item_parts(bytes@, pos as int, iv);
        }
    }
    let (name, p2) = match dec_str(bytes, p1) {
        Some(x) => x,
        None => {
            proof {
                assert forall|iv: ItemView|
                    item_encodable(iv) && pos + enc_item(iv).len() <= bytes@.len()
                        && bytes@.subrange(pos as int, pos + enc_item(iv).len()) == enc_item(
                        iv,
                    ) implies false by {
                    lemma_item_parts(bytes@, pos as int, iv);
                }
            }
            return None;
        },
    };
    proof {
        assert forall|iv: ItemView|
            item_encodable(iv) && pos + enc_item(iv).len() <= bytes@.len() && bytes@.subrange(
                pos as int,
                pos + enc_item(iv).len(),
            ) == enc_item(iv) implies name@ == iv.name && p2 == pos + enc_str(iv.path).len()
            + enc_str(iv.name).len() by {
            lemma_item_parts(bytes@, pos as int, iv);
        }
    }
    let (size_raw, p3) = match dec_u64(bytes, p2) {
        Some(x) => x,
        None => {
            proof {
                assert forall|iv: ItemView|
                    item_encodable(iv) && pos + enc_item(iv).len() <= bytes@.len()
                        && bytes@.subrange(pos as int, pos + enc_item(iv).len()) == enc_item(
                        iv,
                    ) implies false by {
                    lemma_item_parts(bytes@, pos as int, iv);
                }
            }
            return None;
        },
    };
    proof {
        assert forall|iv: ItemView|
            item_encodable(iv) && pos + enc_item(iv).len() <= bytes@.len() && bytes@.subrange(
                pos as int,
                pos + enc_item(iv).len(),
            ) == enc_item(iv) implies size_raw == iv.size as u64 && p3 == pos + enc_str(
            iv.path,
        ).len() + enc_str(iv.name).len() + 8 by {
            lemma_item_parts(bytes@, pos as int, iv);
        }
    }
    let (formatted, p4) = match dec_str(bytes, p3) {
        Some(x) => x,
        None => {
            proof {
                assert forall|iv: ItemView|
                    item_encodable(iv) && pos + enc_item(iv).len() <= bytes@.len()
                        && bytes@.subrange(pos as int, pos + enc_item(iv).len()) == enc_item(
                        iv,
                    ) implies false by {
                    lemma_item_parts(bytes@, pos as int, iv);
                }
            }
            return None;
        },
    };
    proof {
        assert forall|iv: ItemView|
            item_encodable(iv) && pos + enc_item(iv).len() <= bytes@.len() && bytes@.subrange(
                pos as int,
                pos + enc_item(iv).len(),
            ) == enc_item(iv) implies formatted@ == iv.size_formatted && p4 == pos + enc_str(
            iv.path,
        ).len() + enc_str(iv.name).len() + 8 + enc_str(iv.size_formatted).len() by {
            lemma_item_parts(bytes@, pos as int, iv);
        }
    }
    let (is_dir, p5) = match dec_bool(bytes, p4) {
        Some(x) => x,
        None => {
            proof {
                assert forall|iv: ItemView|
                    item_encodable(iv) && pos + enc_item(iv).len() <= bytes@.len()
                        && bytes@.subrange(pos as int, pos + enc_item(iv).len()) == enc_item(
                        iv,
                    ) implies false by {
                    lemma_item_parts(bytes@, pos as int, iv);
                }
            }
            return None;
        },
    };
    let size: i64 = size_raw as i64;
    proof {
        assert((size_raw as i64) as u64 == size_raw) by (bit_vector);
    }
    let it = Item { path, name, size, size_formatted: formatted, is_dir };
    proof {
        assert(bytes@.subrange(pos as int, p5 as int) =~= enc_item(it@));
        assert forall|iv: ItemView|
            item_encodable(iv) && pos + enc_item(iv).len() <= bytes@.len() && bytes@.subrange(
                pos as int,
                pos + enc_item(iv).len(),
            ) == enc_item(iv) implies it@ == iv && p5 == pos + enc_item(iv).len() by {
            lemma_item_parts(bytes@, pos as int, iv);
            let v: i64 = iv.size as i64;
            assert(v as int == iv.size);
            assert((v as u64) as i64 == v) by (bit_vector);
            assert(size == v);
            assert(it@ =~~= iv);
        }
    }
    Some((it, p5))
}


/// Every item of the list satisfies the round-trip side conditions.
pub open spec fn items_encodable(ivs: Seq<ItemView>) -> bool {
    forall|j: int| 0 <= j < ivs.len() ==> item_encodable(#[trigger] ivs[j])
}

/// One more item appends its encoding.
pub proof fn lemma_enc_items_snoc(ivs: Seq<ItemView>, i: int)
    requires
        0 <= i < ivs.len(),
    ensures
        enc_items(ivs.subrange(0, i + 1)) == enc_items(ivs.subrange(0, i)) + enc_item(ivs[i]),
{
    assert(ivs.subrange(0, i + 1).drop_last() =~= ivs.subrange(0, i));
    assert(ivs.subrange(0, i + 1).last() == ivs[i]);
}

/// The encoding of a prefix of the list is a prefix of the encoding.
pub proof fn lemma_enc_items_prefix(ivs: Seq<ItemView>, i: int)
    requires
        0 <= i <= ivs.len(),
    ensures
        enc_items(ivs.subrange(0, i)).len() <= enc_items(ivs).len(),
        enc_items(ivs).subrange(0, enc_items(ivs.subrange(0, i)).len() as int) == enc_items(
            ivs.subrange(0, i),
        ),
    decreases ivs.len() - i,
{
    if i == ivs.len() {
        assert(ivs.subrange(0, i) =~= ivs);
        assert(enc_items(ivs).subrange(0, enc_items(ivs).len() as int) =~= enc_items(ivs));
    } else {
        lemma_enc_items_snoc(ivs, i);
        lemma_enc_items_prefix(ivs, i + 1);
        let li = enc_items(ivs.subrange(0, i)).len() as int;
        let li1 = enc_items(ivs.subrange(0, i + 1)).len() as int;
        assert(enc_items(ivs).subrange(0, li) =~= enc_items(ivs).subrange(0, li1).subrange(0, li));
        assert(enc_items(ivs).subrange(0, li1).subrange(0, li) =~= enc_items(ivs.subrange(0, i)));
    }
}


/// One step of the item-list parse: when the bytes from `pos` hold a
/// whole encoded list whose first `i` items are already parsed, the next
/// parse at `p` yields exactly item `i`.
pub proof fn lemma_dec_items_step(
    b: Seq<u8>,
    pos: int,
    count: int,
    i: int,
    p: int,
    items0: Seq<ItemView>,
    hit: Option<(Item, usize)>,
)
    requires
        0 <= i < count,
        0 <= pos <= p <= b.len(),
        items0.len() == i,
        forall|ivs: Seq<ItemView>|
            ivs.len() == count && items_encodable(ivs) && pos + enc_items(ivs).len() <= b.len()
                && #[trigger] b.subrange(pos, pos + enc_items(ivs).len()) == enc_items(ivs) ==> (
            items0 == ivs.subrange(0, i) && p == pos + enc_items(ivs.subrange(0, i)).len()),
        forall|iv: ItemView|
            item_encodable(iv) && p + enc_item(iv).len() <= b.len() && #[trigger] b.subrange(
                p,
                p + enc_item(iv).len(),
            ) == enc_item(iv) ==> (hit matches Some(q) && q.0@ == iv && q.1 == p + enc_item(
                iv,
            ).len()),
    ensures
        forall|ivs: Seq<ItemView>|
            ivs.len() == count && items_encodable(ivs) && pos + enc_items(ivs).len() <= b.len()
                && #[trigger] b.subrange(pos, pos + enc_items(ivs).len()) == enc_items(ivs) ==> (
            hit matches Some(q) && q.0@ == ivs[i] && q.1 == pos + enc_items(
                ivs.subrange(0, i + 1),
            ).len() && items0.push(q.0@) == ivs.subrange(0, i + 1)),
{
    assert forall|ivs: Seq<ItemView>|
        ivs.len() == count && items_encodable(ivs) && pos + enc_items(ivs).len() <= b.len()
            && b.subrange(pos, pos + enc_items(ivs).len()) == enc_items(ivs) implies (hit matches
    Some(q) && q.0@ == ivs[i] && q.1 == pos + enc_items(ivs.subrange(0, i + 1)).len()
        && items0.push(q.0@) == ivs.subrange(0, i + 1)) by {
        let li = enc_items(ivs.subrange(0, i)).len() as int;
        let li1 = enc_items(ivs.subrange(0, i + 1)).len() as int;
        lemma_enc_items_snoc(ivs, i);
        lemma_enc_items_prefix(ivs, i + 1);
        lemma_enc_items_prefix(ivs, i);
        assert(li1 == li + enc_item(ivs[i]).len());
        assert(b.subrange(p, p + enc_item(ivs[i]).len()) =~= b.subrange(
            pos,
            pos + enc_items(ivs).len(),
        ).subrange(li, li1));
        assert(enc_items(ivs).subrange(li, li1) =~= enc_item(ivs[i])) by {
            assert(enc_items(ivs).subrange(0, li1) == enc_items(ivs.subrange(0, i + 1)));
            assert(enc_items(ivs).subrange(li, li1) =~= enc_items(ivs).subrange(0, li1).subrange(
                li,
                li1,
            ));
            assert(enc_items(ivs.subrange(0, i + 1)).subrange(li, li1) =~= enc_item(ivs[i]));
        }
        assert(hit matches Some(q) && q.0@ == ivs[i] && q.1 == p + enc_item(ivs[i]).len());
        assert(items0.push(ivs[i]) =~= ivs.subrange(0, i + 1));
    }
}

/// Reads `count` items. A success returns exactly the list those bytes
/// encode.
#[verifier::rlimit(100)]
pub fn dec_items(bytes: &Vec<u8>, pos: usize, count: usize) -> (r: Option<(Vec<Item>, usize)>)
    ensures
        match r {
            Some((items, end)) => {
                &&& pos <= end <= bytes@.len()
                &&& items@.len() == count
                &&& bytes@.subrange(pos as int, end as int) == enc_items(items_view(items@))
            },
            None => true,
        },
        forall|ivs: Seq<ItemView>|
            ivs.len() == count && items_encodable(ivs) && pos + enc_items(ivs).len()
                <= bytes@.len() && #[trigger] bytes@.subrange(
                pos as int,
                pos + enc_items(ivs).len(),
            ) == enc_items(ivs) ==> (r matches Some(q) && items_view(q.0@) == ivs && q.1 == pos
                + enc_items(ivs).len()),
{
    let mut items: Vec<Item> = Vec::new();
    let mut p = pos;
    let mut i: usize = 0;
    if pos > bytes.len() {
        return None;
    }
    proof {
        assert forall|ivs: Seq<ItemView>|
            ivs.len() == count && items_encodable(ivs) && pos + enc_items(ivs).len()
                <= bytes@.len() && bytes@.subrange(pos as int, pos + enc_items(ivs).len())
                == enc_items(ivs) implies items_view(items@) == ivs.subrange(0, 0) && p as int
            == pos + enc_items(ivs.subrange(0, 0)).len() by {
            assert(ivs.subrange(0, 0) =~= Seq::<ItemView>::empty());
            assert(items_view(items@) =~~= ivs.subrange(0, 0));
        }
    }
    #[verifier::rlimit(100)]
    while i < count
        invariant
            i <= count,
            pos <= p <= bytes@.len(),
            items@.len() == i,
            bytes@.subrange(pos as int, p as int) == enc_items(items_view(items@)),
            forall|ivs: Seq<ItemView>|
                ivs.len() == count && items_encodable(ivs) && pos + enc_items(ivs).len()
                    <= bytes@.len() && #[trigger] bytes@.subrange(
                    pos as int,
                    pos + enc_items(ivs).len(),
                ) == enc_items(ivs) ==> (items_view(items@) == ivs.subrange(0, i as int) && p as int
                    == pos + enc_items(ivs.subrange(0, i as int)).len()),
        decreases count - i,
    {
        let ghost items0 = items_view(items@);
        let hit = dec_item(bytes, p);
        proof {
            lemma_dec_items_step(
                bytes@,
                pos as int,
                count as int,
                i as int,
                p as int,
                items0,
                hit,
            );
        }
        let (it, p2) = match hit {
            Some(x) => x,
            None => {
                return None;
            },
        };
        items.push(it);
        proof {
            assert(items_view(items@) =~~= items0.push(it@));
            assert(items_view(items@).drop_last() =~= items0);
            assert(items_view(items@).last() == it@);
            assert(bytes@.subrange(pos as int, p2 as int) =~= bytes@.subrange(pos as int, p as int)
                + bytes@.subrange(p as int, p2 as int));
            assert(bytes@.subrange(pos as int, p2 as int) =~= enc_items(items_view(items@)));
        }
        p = p2;
        i = i + 1;
    }
    proof {
        assert forall|ivs: Seq<ItemView>|
            ivs.len() == count && items_encodable(ivs) && pos + enc_items(ivs).len()
                <= bytes@.len() && bytes@.subrange(pos as int, pos + enc_items(ivs).len())
                == enc_items(ivs) implies items_view(items@) == ivs && p as int == pos + enc_items(
            ivs,
        ).len() by {
            assert(ivs.subrange(0, count as int) =~= ivs);
        }
    }
    Some((items, p))
}


/// The side conditions under which a whole result's encoding
/// round-trips.
pub open spec fn result_encodable(x: ScanResult) -> bool {
    &&& encode_utf8(x.path@).len() <= u64::MAX
    &&& encode_utf8(x.total_size_formatted@).len() <= u64::MAX
    &&& x.items@.len() <= usize::MAX
    &&& items_encodable(items_view(x.items@))
}

/// Carves a result's encoding into its fields, each at its own offset.
#[verifier::rlimit(100)]
pub proof fn lemma_result_parts(bytes: Seq<u8>, x: ScanResult)
    requires
        bytes == enc_result(x),
        result_encodable(x),
    ensures
        ({
            let q1 = enc_str(x.path@).len() as int;
            let q2 = q1 + 8;
            let q3 = q2 + enc_str(x.total_size_formatted@).len();
            let q4 = q3 + 8;
            let q5 = q4 + 33;
            let q6 = q5 + 8;
            &&& bytes.subrange(0, 8 + encode_utf8(x.path@).len() as int) == enc_str(x.path@)
            &&& str_fits_here(bytes, 0, x.path@)
            &&& bytes.subrange(q1, q1 + 8) == enc_u64(x.total_size as u64)
            &&& bytes.subrange(q2, q2 + 8 + encode_utf8(x.total_size_formatted@).len()) == enc_str(
                x.total_size_formatted@,
            )
            &&& str_fits_here(bytes, q2, x.total_size_formatted@)
            &&& bytes.subrange(q3, q3 + 8) == enc_u64(x.scan_time_ms)
            &&& bytes.subrange(q4, q4 + 33) == enc_timing(x.timing)
            &&& bytes.subrange(q5, q5 + 8) == enc_u64(x.items@.len() as u64)
            &&& bytes.subrange(q6, q6 + enc_items(items_view(x.items@)).len()) == enc_items(
                items_view(x.items@),
            )
            &&& q6 + enc_items(items_view(x.items@)).len() == bytes.len()
        }),
{
    let whole = enc_result(x);
    let q1 = enc_str(x.path@).len() as int;
    let q2 = q1 + 8;
    let q3 = q2 + enc_str(x.total_size_formatted@).len() as int;
    let q4 = q3 + 8;
    let q5 = q4 + 33;
    let q6 = q5 + 8;
    assert(enc_timing(x.timing).len() == 33);
    assert(bytes.subrange(0, q1) =~= whole.subrange(0, q1));
    assert(whole.subrange(0, q1) =~= enc_str(x.path@));
    assert(bytes.subrange(q1, q1 + 8) =~= whole.subrange(q1, q2));
    assert(whole.subrange(q1, q2) =~= enc_u64(x.total_size as u64));
    assert(bytes.subrange(q2, q3) =~= whole.subrange(q2, q3));
    assert(whole.subrange(q2, q3) =~= enc_str(x.total_size_formatted@));
    assert(bytes.subrange(q3, q3 + 8) =~= whole.subrange(q3, q4));
    assert(whole.subrange(q3, q4) =~= enc_u64(x.scan_time_ms));
    assert(bytes.subrange(q4, q4 + 33) =~= whole.subrange(q4, q5));
    assert(whole.subrange(q4, q5) =~= enc_timing(x.timing));
    assert(bytes.subrange(q5, q5 + 8) =~= whole.subrange(q5, q6));
    assert(whole.subrange(q5, q6) =~= enc_u64(x.items@.len() as u64));
    assert(bytes.subrange(q6, q6 + enc_items(items_view(x.items@)).len()) =~= whole.subrange(
        q6,
        whole.len() as int,
    ));
    assert(whole.subrange(q6, whole.len() as int) =~= enc_items(items_view(x.items@)));
}

/// Inside the timing block: the flag byte and the four values.
pub proof fn lemma_timing_parts(bytes: Seq<u8>, q4: int, t: Option<TimingInfo>)
    requires
        0 <= q4,
        q4 + 33 <= bytes.len(),
        bytes.subrange(q4, q4 + 33) == enc_timing(t),
    ensures
        bytes.subrange(q4, q4 + 1) == enc_bool(t is Some),
        bytes.subrange(q4 + 1, q4 + 9) == enc_u64(
            match t {
                Some(ti) => ti.scan_phase,
                None => 0,
            },
        ),
        bytes.subrange(q4 + 9, q4 + 17) == enc_u64(
            match t {
                Some(ti) => ti.compute_phase,
                None => 0,
            },
        ),
        bytes.subrange(q4 + 17, q4 + 25) == enc_u64(
            match t {
                Some(ti) => ti.format_phase,
                None => 0,
            },
        ),
        bytes.subrange(q4 + 25, q4 + 33) == enc_u64(
            match t {
                Some(ti) => ti.total,
                None => 0,
            },
        ),
{
    let block = enc_timing(t);
    assert(bytes.subrange(q4, q4 + 1) =~= block.subrange(0, 1));
    assert(bytes.subrange(q4 + 1, q4 + 9) =~= block.subrange(1, 9));
    assert(bytes.subrange(q4 + 9, q4 + 17) =~= block.subrange(9, 17));
    assert(bytes.subrange(q4 + 17, q4 + 25) =~= block.subrange(17, 25));
    assert(bytes.subrange(q4 + 25, q4 + 33) =~= block.subrange(25, 33));
    match t {
        None => {
            assert(block.subrange(0, 1) =~= enc_bool(false));
            assert(block.subrange(1, 9) =~= enc_u64(0));
            assert(block.subrange(9, 17) =~= enc_u64(0));
            assert(block.subrange(17, 25) =~= enc_u64(0));
            assert(block.subrange(25, 33) =~= enc_u64(0));
        },
        Some(ti) => {
            assert(block.subrange(0, 1) =~= enc_bool(true));
            assert(block.subrange(1, 9) =~= enc_u64(ti.scan_phase));
            assert(block.subrange(9, 17) =~= enc_u64(ti.compute_phase));
            assert(block.subrange(17, 25) =~= enc_u64(ti.format_phase));
            assert(block.subrange(25, 33) =~= enc_u64(ti.total));
        },
    }
}

/// Reads the timing block: the flag byte and four phase lengths; an
/// absent timing must carry four zeros.
#[verifier::rlimit(100)]
pub fn dec_timing(bytes: &Vec<u8>, pos: usize) -> (r: Option<(Option<TimingInfo>, usize)>)
    ensures
        match r {
            Some((t, end)) => {
                &&& end == pos + 33
                &&& end <= bytes@.len()
                &&& bytes@.subrange(pos as int, end as int) == enc_timing(t)
            },
            None => true,
        },
        forall|t: Option<TimingInfo>|
            pos + 33 <= bytes@.len() && #[trigger] bytes@.subrange(pos as int, pos + 33)
                == enc_timing(t) ==> r == Some((t, (pos + 33) as usize)),
{
    let (has_timing, p5) = match dec_bool(bytes, pos) {
        Some(x) => x,
        None => {
            proof {
                assert forall|t: Option<TimingInfo>|
                    pos + 33 <= bytes@.len() && bytes@.subrange(pos as int, pos + 33)
                        == enc_timing(t) implies false by {
                    lemma_timing_parts(bytes@, pos as int, t);
                }
            }
            return None;
        },
    };
    let (t_scan, p6) = match dec_u64(bytes, p5) {
        Some(x) => x,
        None => {
            proof {
                assert forall|t: Option<TimingInfo>|
                    pos + 33 <= bytes@.len() && bytes@.subrange(pos as int, pos + 33)
                        == enc_timing(t) implies false by {
                    lemma_timing_parts(bytes@, pos as int, t);
                }
            }
            return None;
        },
    };
    let (t_compute, p7) = match dec_u64(bytes, p6) {
        Some(x) => x,
        None => {
            proof {
                assert forall|t: Option<TimingInfo>|
                    pos + 33 <= bytes@.len() && bytes@.subrange(pos as int, pos + 33)
                        == enc_timing(t) implies false by {
                    lemma_timing_parts(bytes@, pos as int, t);
                }
            }
            return None;
        },
    };
    let (t_format, p8) = match dec_u64(bytes, p7) {
        Some(x) => x,
        None => {
            proof {
                assert forall|t: Option<TimingInfo>|
                    pos + 33 <= bytes@.len() && bytes@.subrange(pos as int, pos + 33)
                        == enc_timing(t) implies false by {
                    lemma_timing_parts(bytes@, pos as int, t);
                }
            }
            return None;
        },
    };
    let (t_total, p9) = match dec_u64(bytes, p8) {
        Some(x) => x,
        None => {
            proof {
                assert forall|t: Option<TimingInfo>|
                    pos + 33 <= bytes@.len() && bytes@.subrange(pos as int, pos + 33)
                        == enc_timing(t) implies false by {
                    lemma_timing_parts(bytes@, pos as int, t);
                }
            }
            return None;
        },
    };
    if !has_timing && (t_scan != 0 || t_compute != 0 || t_format != 0 || t_total != 0) {
        proof {
            assert forall|t: Option<TimingInfo>|
                pos + 33 <= bytes@.len() && bytes@.subrange(pos as int, pos + 33) == enc_timing(
                    t,
                ) implies false by {
                lemma_timing_parts(bytes@, pos as int, t);
            }
        }
        return None;
    }
    let timing: Option<TimingInfo> = if has_timing {
        Some(
            TimingInfo {
                scan_phase: t_scan,
                compute_phase: t_compute,
                format_phase: t_format,
                total: t_total,
            },
        )
    } else {
        None
    };
    proof {
        assert(bytes@.subrange(pos as int, p9 as int) =~= enc_timing(timing));
        assert forall|t: Option<TimingInfo>|
            pos + 33 <= bytes@.len() && bytes@.subrange(pos as int, pos + 33) == enc_timing(
                t,
            ) implies t == timing by {
            lemma_timing_parts(bytes@, pos as int, t);
            lemma_enc_u64_injective(
                t_scan,
                match t {
                    Some(ti) => ti.scan_phase,
                    None => 0,
                },
            );
            lemma_enc_u64_injective(
                t_compute,
                match t {
                    Some(ti) => ti.compute_phase,
                    None => 0,
                },
            );
            lemma_enc_u64_injective(
                t_format,
                match t {
                    Some(ti) => ti.format_phase,
                    None => 0,
                },
            );
            lemma_enc_u64_injective(
                t_total,
                match t {
                    Some(ti) => ti.total,
                    None => 0,
                },
            );
        }
    }
    Some((timing, p9))
}

/// The scalar fields that precede the item list in an encoded result.
struct HeaderParts {
    path: String,
    total_raw: u64,
    formatted: String,
    scan_time_ms: u64,
    timing: Option<TimingInfo>,
    count_raw: u64,
    end: usize,
}

impl HeaderParts {
    /// The bytes this header stands for.
    spec fn enc(&self) -> Seq<u8> {
        enc_str(self.path@) + enc_u64(self.total_raw) + enc_str(self.formatted@) + enc_u64(
            self.scan_time_ms,
        ) + enc_timing(self.timing) + enc_u64(self.count_raw)
    }
}

/// Reads everything before the item list.
#[verifier::rlimit(100)]
fn dec_header(bytes: &Vec<u8>) -> (r: Option<HeaderParts>)
    ensures
        match r {
            Some(h) => {
                &&& h.end <= bytes@.len()
                &&& bytes@.subrange(0, h.end as int) == h.enc()
            },
            None => true,
        },
        forall|x: ScanResult|
            result_encodable(x) && bytes@ == #[trigger] enc_result(x) ==> (r matches Some(h) && {
                &&& h.path@ == x.path@
                &&& h.total_raw == x.total_size as u64
                &&& h.formatted@ == x.total_size_formatted@
                &&& h.scan_time_ms == x.scan_time_ms
                &&& h.timing == x.timing
                &&& h.count_raw == x.items@.len() as u64
                &&& h.end as int == enc_str(x.path@).len() + 8 + enc_str(
                    x.total_size_formatted@,
                ).len() + 8 + 33 + 8
            }),
{
    let (path, p1) = match dec_str(bytes, 0) {
        Some(x) => x,
        None => {
            proof {
                assert forall|x: ScanResult|
                    result_encodable(x) && bytes@ == enc_result(x) implies false by {
                    lemma_result_parts(bytes@, x);
                }
            }
            return None;
        },
    };
    let (total_raw, p2) = match dec_u64(bytes, p1) {
        Some(x) => x,
        None => {
            proof {
                assert forall|x: ScanResult|
                    result_encodable(x) && bytes@ == enc_result(x) implies false by {
                    lemma_result_parts(bytes@, x);
                }
            }
            return None;
        },
    };
    let (formatted, p3) = match dec_str(bytes, p2) {
        Some(x) => x,
        None => {
            proof {
                assert forall|x: ScanResult|
                    result_encodable(x) && bytes@ == enc_result(x) implies false by {
                    lemma_result_parts(bytes@, x);
                }
            }
            return None;
        },
    };
    let (scan_time_ms, p4) = match dec_u64(bytes, p3) {
        Some(x) => x,
        None => {
            proof {
                assert forall|x: ScanResult|
                    result_encodable(x) && bytes@ == enc_result(x) implies false by {
                    lemma_result_parts(bytes@, x);
                }
            }
            return None;
        },
    };
    let (timing, p9) = match dec_timing(bytes, p4) {
        Some(x) => x,
        None => {
            proof {
                assert forall|x: ScanResult|
                    result_encodable(x) && bytes@ == enc_result(x) implies false by {
                    lemma_result_parts(bytes@, x);
                }
            }
            return None;
        },
    };
    let (count_raw, p10) = match dec_u64(bytes, p9) {
        Some(x) => x,
        None => {
            proof {
                assert forall|x: ScanResult|
                    result_encodable(x) && bytes@ == enc_result(x) implies false by {
                    lemma_result_parts(bytes@, x);
                }
            }
            return None;
        },
    };
    let h = HeaderParts { path, total_raw, formatted, scan_time_ms, timing, count_raw, end: p10 };
    proof {
        assert(bytes@.subrange(0, p10 as int) =~= h.enc());
        assert forall|x: ScanResult|
            result_encodable(x) && bytes@ == enc_result(x) implies {
            &&& h.path@ == x.path@
            &&& h.total_raw == x.total_size as u64
            &&& h.formatted@ == x.total_size_formatted@
            &&& h.scan_time_ms == x.scan_time_ms
            &&& h.timing == x.timing
            &&& h.count_raw == x.items@.len() as u64
            &&& h.end as int == enc_str(x.path@).len() + 8 + enc_str(x.total_size_formatted@).len()
                + 8 + 33 + 8
        } by {
            lemma_result_parts(bytes@, x);
            lemma_enc_u64_injective(total_raw, x.total_size as u64);
            lemma_enc_u64_injective(scan_time_ms, x.scan_time_ms);
            lemma_enc_u64_injective(count_raw, x.items@.len() as u64);
        }
    }
    Some(h)
}

/// Decodes a scan result. A success returns exactly the result whose
/// encoding the whole input is; trailing bytes or malformed fields are
/// rejected. Conversely, the encoding of any representable result
/// decodes back to it.
#[verifier::rlimit(100)]
pub fn decode_scan_result(bytes: &Vec<u8>) -> (r: Option<ScanResult>)
    ensures
        match r {
            Some(res) => bytes@ == enc_result(res) && res.perf_metrics is None,
            None => true,
        },
        forall|x: ScanResult|
            result_encodable(x) && bytes@ == #[trigger] enc_result(x) ==> (r matches Some(res) && {
                &&& items_view(res.items@) == items_view(x.items@)
                &&& res.total_size == x.total_size
                &&& res.total_size_formatted@ == x.total_size_formatted@
                &&& res.scan_time_ms == x.scan_time_ms
                &&& res.path@ == x.path@
                &&& res.timing == x.timing
            }),
{
    let h = match dec_header(bytes) {
        Some(h) => h,
        None => {
            return None;
        },
    };
    if h.count_raw > usize::MAX as u64 {
        proof {
            assert forall|x: ScanResult|
                result_encodable(x) && bytes@ == enc_result(x) implies false by {
                lemma_result_parts(bytes@, x);
            }
        }
        return None;
    }
    let (items, p11) = match dec_items(bytes, h.end, h.count_raw as usize) {
        Some(x) => x,
        None => {
            proof {
                assert forall|x: ScanResult|
                    result_encodable(x) && bytes@ == enc_result(x) implies false by {
                    lemma_result_parts(bytes@, x);
                }
            }
            return None;
        },
    };
    if p11 != bytes.len() {
        proof {
            assert forall|x: ScanResult|
                result_encodable(x) && bytes@ == enc_result(x) implies false by {
                lemma_result_parts(bytes@, x);
            }
        }
        return None;
    }
    let total_size: i64 = h.total_raw as i64;
    proof {
        let w: u64 = h.total_raw;
        assert((w as i64) as u64 == w) by (bit_vector);
    }
    let res = ScanResult {
        items,
        total_size,
        total_size_formatted: h.formatted,
        scan_time_ms: h.scan_time_ms,
        path: h.path,
        timing: h.timing,
        perf_metrics: None,
    };
    proof {
        assert(bytes@.subrange(0, bytes@.len() as int) =~= bytes@);
        assert(bytes@ =~= enc_result(res));
        assert forall|x: ScanResult|
            result_encodable(x) && bytes@ == enc_result(x) implies {
            &&& items_view(res.items@) == items_view(x.items@)
            &&& res.total_size == x.total_size
            &&& res.total_size_formatted@ == x.total_size_formatted@
            &&& res.scan_time_ms == x.scan_time_ms
            &&& res.path@ == x.path@
            &&& res.timing == x.timing
        } by {
            lemma_result_parts(bytes@, x);
            let v: i64 = x.total_size;
            assert((v as u64) as i64 == v) by (bit_vector);
        }
    }
    Some(res)
}

/// The flattened form of a result for the binary request path: scalar
/// fields up front, the items as one nested byte block.
pub struct OptimizedScanResult {
    pub path: String,
    pub total_size: i64,
    pub total_size_formatted: String,
    pub scan_time_ms: u64,
    pub item_count: usize,
    pub has_timing: bool,
    pub timing_scan_ms: u64,
    pub timing_compute_ms: u64,
    pub timing_format_ms: u64,
    pub timing_total_ms: u64,
    pub items_data: Vec<u8>,
}

/// The flattened item record inside `items_data`.
pub struct OptimizedItem {
    pub path: String,
    pub name: String,
    pub size: i64,
    pub size_formatted: String,
    pub is_dir: bool,
}

impl OptimizedScanResult {
    /// Flattens a scan result; the items become their binary encoding.
    pub fn from_result(r: &ScanResult) -> (o: OptimizedScanResult)
        ensures
            o.path@ == r.path@,
            o.total_size == r.total_size,
            o.total_size_formatted@ == r.total_size_formatted@,
            o.scan_time_ms == r.scan_time_ms,
            o.item_count == r.items@.len(),
            o.has_timing == (r.timing is Some),
            r.timing matches Some(t) ==> o.timing_scan_ms == t.scan_phase && o.timing_compute_ms
                == t.compute_phase && o.timing_format_ms == t.format_phase && o.timing_total_ms
                == t.total,
            r.timing is None ==> o.timing_scan_ms == 0 && o.timing_compute_ms == 0
                && o.timing_format_ms == 0 && o.timing_total_ms == 0,
            o.items_data@ == enc_items(items_view(r.items@)),
    {
        let items_data = encode_items(&r.items);
        match &r.timing {
            Some(t) => OptimizedScanResult {
                path: r.path.clone(),
                total_size: r.total_size,
                total_size_formatted: r.total_size_formatted.clone(),
                scan_time_ms: r.scan_time_ms,
                item_count: r.items.len(),
                has_timing: true,
                timing_scan_ms: t.scan_phase,
                timing_compute_ms: t.compute_phase,
                timing_format_ms: t.format_phase,
                timing_total_ms: t.total,
                items_data,
            },
            None => OptimizedScanResult {
                path: r.path.clone(),
                total_size: r.total_size,
                total_size_formatted: r.total_size_formatted.clone(),
                scan_time_ms: r.scan_time_ms,
                item_count: r.items.len(),
                has_timing: false,
                timing_scan_ms: 0,
                timing_compute_ms: 0,
                timing_format_ms: 0,
                timing_total_ms: 0,
                items_data,
            },
        }
    }
}

/// The encoding of a flattened result.
pub open spec fn enc_optimized(o: OptimizedScanResult) -> Seq<u8> {
    enc_str(o.path@) + enc_u64(o.total_size as u64) + enc_str(o.total_size_formatted@) + enc_u64(
        o.scan_time_ms,
    ) + enc_u64(o.item_count as u64) + enc_bool(o.has_timing) + enc_u64(o.timing_scan_ms)
        + enc_u64(o.timing_compute_ms) + enc_u64(o.timing_format_ms) + enc_u64(o.timing_total_ms)
        + enc_u64(o.items_data@.len() as u64) + o.items_data@
}

/// Encodes the flattened result for the wire.
pub fn encode_optimized(o: &OptimizedScanResult) -> (r: Vec<u8>)
    ensures
        r@ == enc_optimized(*o),
{
    let mut out: Vec<u8> = Vec::new();
    push_str(&mut out, o.path.as_str());
    push_u64(&mut out, o.total_size as u64);
    push_str(&mut out, o.total_size_formatted.as_str());
    push_u64(&mut out, o.scan_time_ms);
    push_u64(&mut out, o.item_count as u64);
    push_bool(&mut out, o.has_timing);
    push_u64(&mut out, o.timing_scan_ms);
    push_u64(&mut out, o.timing_compute_ms);
    push_u64(&mut out, o.timing_format_ms);
    push_u64(&mut out, o.timing_total_ms);
    push_u64(&mut out, o.items_data.len() as u64);
    let ghost head = out@;
    let mut i: usize = 0;
    while i < o.items_data.len()
        invariant
            i <= o.items_data@.len(),
            out@ == head + o.items_data@.subrange(0, i as int),
        decreases o.items_data.len() - i,
    {
        out.push(o.items_data[i]);
        proof {
            assert(out@ =~= head + o.items_data@.subrange(0, i + 1));
        }
        i = i + 1;
    }
    proof {
        assert(o.items_data@.subrange(0, o.items_data@.len() as int) =~= o.items_data@);
        assert(out@ =~= enc_optimized(*o));
    }
    out
}

/// What the binary request path returns: the encoded result, possibly
/// compressed, with the uncompressed length alongside.
pub struct BinaryPayload {
    pub data: Vec<u8>,
    pub compressed: bool,
    pub original_size: usize,
}

/// Relies on `zstd::stream::encode_all` at compression level 3; nothing
/// is assumed of the produced bytes beyond what their length shows.
#[verifier::external_body]
fn zstd_compress(data: &Vec<u8>) -> (r: Option<Vec<u8>>)
{
    zstd::stream::encode_all(std::io::Cursor::new(data.as_slice()), 3).ok()
}

impl BinaryPayload {
    /// Wraps an encoded result. Payloads over the threshold are
    /// compressed when that shrinks them below four fifths of their
    /// size; otherwise the raw encoding is shipped.
    pub fn from_data(value: &OptimizedScanResult, compress_threshold: usize) -> (r: BinaryPayload)
        ensures
            r.original_size == enc_optimized(*value).len(),
            !r.compressed ==> r.data@ == enc_optimized(*value),
            r.compressed ==> r.original_size > compress_threshold && (r.data@.len() as int) * 10
                < (r.original_size as int) * 8,
    {
        let serialized = encode_optimized(value);
        let original_size = serialized.len();
        if original_size > compress_threshold {
            match zstd_compress(&serialized) {
                Some(compressed) => {
                    if (compressed.len() as u128) * 10 < (original_size as u128) * 8 {
                        return BinaryPayload { data: compressed, compressed: true, original_size };
                    }
                },
                None => {},
            }
        }
        BinaryPayload { data: serialized, compressed: false, original_size }
    }
}

/// One scan request inside a batch.
pub struct SingleRequest {
    pub id: String,
    pub path: String,
    pub force_refresh: bool,
}

/// A batch of scan requests.
pub struct BatchRequest {
    pub requests: Vec<SingleRequest>,
}

/// One scan's answer inside a batch: its request id, the encoded result
/// on success, or an error message.
pub struct SingleResponse {
    pub id: String,
    pub data: Vec<u8>,
    pub success: bool,
    pub error: Option<String>,
}

/// The answers to a batch of scan requests.
pub struct BatchResponse {
    pub results: Vec<SingleResponse>,
}

} // verus!
