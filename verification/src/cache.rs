use vstd::prelude::*;

use vstd::string::StringExecFns;
use vstd::utf8::{decode_utf8, encode_utf8, encode_utf8_decode_utf8, encode_utf8_valid_utf8, valid_utf8};

use crate::models::{lemma_deep_view_index, Highway, HighwayNode, NodeView, RoadView};

verus! {

// The cache artifact is this crate's own binary format: little-endian
// 64-bit words for identities, coordinates and counts, and UTF-8 with a
// byte-length prefix for tag strings. Decoding mirrors encoding exactly;
// anything truncated, trailing or malformed decodes to nothing, so a
// corrupt artifact is detected, never silently repaired.

/// The name of the cache artifact for a source file of the given name:
/// the source name under a fixed prefix, in the same directory. The key
/// is the name alone, never the content: the cache is rebuilt only when
/// the operator deletes the artifact, by design.
pub fn cache_file_name(name: &str) -> (r: String)
    ensures
        r@ == "_cache.highway."@ + name@,
{
    let mut s = String::from_str("_cache.highway.");
    s.append(name);
    s
}

/// Tag of the cache format, stored as the artifact's first word.
pub const CACHE_MAGIC: u64 = 0x3143414354454E52;

/// The eight bytes of `v`, least significant first.
pub open spec fn u64_le_bytes(v: u64) -> Seq<u8> {
    seq![
        (v & 0xff) as u8,
        ((v >> 8) & 0xff) as u8,
        ((v >> 16) & 0xff) as u8,
        ((v >> 24) & 0xff) as u8,
        ((v >> 32) & 0xff) as u8,
        ((v >> 40) & 0xff) as u8,
        ((v >> 48) & 0xff) as u8,
        ((v >> 56) & 0xff) as u8,
    ]
}

/// The word read back from eight bytes, least significant first.
pub open spec fn u64_from_le(
    b0: u8,
    b1: u8,
    b2: u8,
    b3: u8,
    b4: u8,
    b5: u8,
    b6: u8,
    b7: u8,
) -> u64 {
    (b0 as u64) | ((b1 as u64) << 8) | ((b2 as u64) << 16) | ((b3 as u64) << 24) | ((b4 as u64)
        << 32) | ((b5 as u64) << 40) | ((b6 as u64) << 48) | ((b7 as u64) << 56)
}

/// Reading back the eight bytes of a word yields the word.
pub proof fn lemma_u64_le_round_trip(v: u64)
    ensures
        u64_from_le(
            (v & 0xff) as u8,
            ((v >> 8) & 0xff) as u8,
            ((v >> 16) & 0xff) as u8,
            ((v >> 24) & 0xff) as u8,
            ((v >> 32) & 0xff) as u8,
            ((v >> 40) & 0xff) as u8,
            ((v >> 48) & 0xff) as u8,
            ((v >> 56) & 0xff) as u8,
        ) == v,
{
    assert((((v & 0xff) as u8) as u64) | ((((v >> 8) & 0xff) as u8) as u64) << 8 | ((((v >> 16)
        & 0xff) as u8) as u64) << 16 | ((((v >> 24) & 0xff) as u8) as u64) << 24 | ((((v >> 32)
        & 0xff) as u8) as u64) << 32 | ((((v >> 40) & 0xff) as u8) as u64) << 40 | ((((v >> 48)
        & 0xff) as u8) as u64) << 48 | ((((v >> 56) & 0xff) as u8) as u64) << 56 == v)
        by (bit_vector);
}

/// A signed value carried through the unsigned word encoding survives.
pub proof fn lemma_i64_cast_round_trip(v: i64)
    ensures
        (v as u64) as i64 == v,
{
    assert((v as u64) as i64 == v) by (bit_vector);
}

/// Reads one word at `pos`: its eight bytes, least significant first.
/// Nothing to read (fewer than eight bytes left) decodes to nothing.
pub open spec fn dec_u64(b: Seq<u8>, pos: int) -> Option<(u64, int)> {
    if 0 <= pos && pos + 8 <= b.len() {
        Some(
            (
                u64_from_le(
                    b[pos],
                    b[pos + 1],
                    b[pos + 2],
                    b[pos + 3],
                    b[pos + 4],
                    b[pos + 5],
                    b[pos + 6],
                    b[pos + 7],
                ),
                pos + 8,
            ),
        )
    } else {
        None
    }
}

/// Decoding at the start of an encoded word yields the word back.
pub proof fn lemma_dec_u64(v: u64, b: Seq<u8>, pos: int)
    requires
        0 <= pos,
        pos + 8 <= b.len(),
        b.subrange(pos, pos + 8) == u64_le_bytes(v),
    ensures
        dec_u64(b, pos) == Some((v, pos + 8)),
{
    assert forall|q: int| 0 <= q < 8 implies b[pos + q] == u64_le_bytes(v)[q] by {
        assert(b.subrange(pos, pos + 8)[q] == b[pos + q]);
    }
    lemma_u64_le_round_trip(v);
}

/// A string: the byte length of its UTF-8 encoding as one word, then the
/// UTF-8 bytes themselves.
pub open spec fn enc_str(s: Seq<char>) -> Seq<u8> {
    u64_le_bytes(encode_utf8(s).len() as u64) + encode_utf8(s)
}

/// The string's UTF-8 encoding is short enough for its byte length to be
/// stored as one word. Every string a program can hold satisfies this.
pub open spec fn str_fits(s: Seq<char>) -> bool {
    encode_utf8(s).len() <= u64::MAX
}

/// Reads one string at `pos`: a byte length, then that many bytes, which
/// must be valid UTF-8.
pub open spec fn dec_str(b: Seq<u8>, pos: int) -> Option<(Seq<char>, int)> {
    match dec_u64(b, pos) {
        Some((n, p)) => {
            if p + n <= b.len() {
                let bytes = b.subrange(p, p + n);
                if valid_utf8(bytes) {
                    Some((decode_utf8(bytes), p + n))
                } else {
                    None
                }
            } else {
                None
            }
        },
        None => None,
    }
}

/// Decoding at the start of an encoded string yields the string back.
pub proof fn lemma_dec_str(s: Seq<char>, b: Seq<u8>, pos: int)
    requires
        str_fits(s),
        0 <= pos,
        pos + enc_str(s).len() <= b.len(),
        b.subrange(pos, pos + enc_str(s).len()) == enc_str(s),
    ensures
        dec_str(b, pos) == Some((s, pos + enc_str(s).len())),
{
    let eb = encode_utf8(s);
    let n = eb.len() as int;
    assert(b.subrange(pos, pos + 8) =~= enc_str(s).subrange(0, 8));
    assert(enc_str(s).subrange(0, 8) =~= u64_le_bytes(n as u64));
    lemma_dec_u64(n as u64, b, pos);
    assert(n as u64 as int == n);
    assert(b.subrange(pos + 8, pos + 8 + n) =~= eb) by {
        assert forall|q: int| 0 <= q < n implies b[pos + 8 + q] == eb[q] by {
            assert(b.subrange(pos, pos + enc_str(s).len())[8 + q] == b[pos + 8 + q]);
            assert(enc_str(s)[8 + q] == eb[q]);
        }
    }
    encode_utf8_valid_utf8(s);
    encode_utf8_decode_utf8(s);
}

/// Appends the word's eight bytes, least significant first.
fn push_u64(out: &mut Vec<u8>, v: u64)
    ensures
        final(out)@ == old(out)@ + u64_le_bytes(v),
{
    out.push((v & 0xff) as u8);
    out.push(((v >> 8) & 0xff) as u8);
    out.push(((v >> 16) & 0xff) as u8);
    out.push(((v >> 24) & 0xff) as u8);
    out.push(((v >> 32) & 0xff) as u8);
    out.push(((v >> 40) & 0xff) as u8);
    out.push(((v >> 48) & 0xff) as u8);
    out.push(((v >> 56) & 0xff) as u8);
    assert(out@ =~= old(out)@ + u64_le_bytes(v));
}

/// Appends a signed value through the unsigned word encoding.
fn push_i64(out: &mut Vec<u8>, v: i64)
    ensures
        final(out)@ == old(out)@ + u64_le_bytes(v as u64),
{
    push_u64(out, v as u64);
}

/// Appends one encoded string: byte length, then UTF-8 bytes.
fn push_str(out: &mut Vec<u8>, s: &str)
    ensures
        final(out)@ == old(out)@ + enc_str(s@),
        str_fits(s@),
{
    let bytes = s.as_bytes();
    let n = bytes.len();
    push_u64(out, n as u64);
    let mut i: usize = 0;
    while i < n
        invariant
            i <= n,
            n == bytes@.len(),
            bytes@ == encode_utf8(s@),
            out@ == old(out)@ + u64_le_bytes(n as u64) + bytes@.take(i as int),
        decreases n - i,
    {
        out.push(bytes[i]);
        assert(out@ =~= old(out)@ + u64_le_bytes(n as u64) + bytes@.take(i + 1));
        i = i + 1;
    }
    assert(bytes@.take(n as int) =~= bytes@);
    assert(out@ =~= old(out)@ + enc_str(s@));
}

/// Reads one word; fails when fewer than eight bytes remain.
fn read_u64(b: &Vec<u8>, pos: usize) -> (r: Option<(u64, usize)>)
    requires
        pos <= b@.len(),
    ensures
        match r {
            Some(vp) => dec_u64(b@, pos as int) == Some((vp.0, vp.1 as int)) && vp.1 <= b@.len(),
            None => dec_u64(b@, pos as int) is None,
        },
{
    if b.len() - pos >= 8 {
        let v: u64 = (b[pos] as u64) | ((b[pos + 1] as u64) << 8u64) | ((b[pos + 2] as u64)
            << 16u64) | ((b[pos + 3] as u64) << 24u64) | ((b[pos + 4] as u64) << 32u64) | ((b[pos
            + 5] as u64) << 40u64) | ((b[pos + 6] as u64) << 48u64) | ((b[pos + 7] as u64)
            << 56u64);
        Some((v, pos + 8))
    } else {
        None
    }
}

/// Relies on `String::from_utf8`: it succeeds exactly on valid UTF-8
/// input, and then returns the string those bytes encode.
#[verifier::external_body]
fn string_from_utf8(bytes: Vec<u8>) -> (r: Option<String>)
    ensures
        r is Some <==> valid_utf8(bytes@),
        r is Some ==> r->0@ == decode_utf8(bytes@),
{
    String::from_utf8(bytes).ok()
}

/// Reads one string; fails on a truncated length or body and on bytes
/// that are not valid UTF-8.
fn read_str(b: &Vec<u8>, pos: usize) -> (r: Option<(String, usize)>)
    requires
        pos <= b@.len(),
    ensures
        match r {
            Some(vp) => dec_str(b@, pos as int) matches Some(sp) && sp.0 == vp.0@ && sp.1 == vp.1
                && vp.1 <= b@.len(),
            None => dec_str(b@, pos as int) is None,
        },
{
    match read_u64(b, pos) {
        Some((n, p)) => {
            if (b.len() - p) as u64 >= n {
                let n_us = n as usize;
                let blen = b.len();
                let mut bytes: Vec<u8> = Vec::new();
                let mut i: usize = 0;
                while i < n_us
                    invariant
                        i <= n_us,
                        p + n_us <= blen,
                        blen == b@.len(),
                        bytes@ == b@.subrange(p as int, p as int + i as int),
                    decreases n_us - i,
                {
                    bytes.push(b[p + i]);
                    assert(bytes@ =~= b@.subrange(p as int, p as int + (i + 1)));
                    i = i + 1;
                }
                match string_from_utf8(bytes) {
                    Some(s) => Some((s, p + n_us)),
                    None => None,
                }
            } else {
                None
            }
        },
        None => None,
    }
}

/// A run of bytes that is two encodings in a row splits into the two.
pub proof fn lemma_subrange_split(b: Seq<u8>, pos: int, x: Seq<u8>, y: Seq<u8>)
    requires
        0 <= pos,
        pos + x.len() + y.len() <= b.len(),
        b.subrange(pos, pos + x.len() + y.len()) == x + y,
    ensures
        b.subrange(pos, pos + x.len()) == x,
        b.subrange(pos + x.len(), pos + x.len() + y.len()) == y,
{
    let whole = b.subrange(pos, pos + x.len() + y.len());
    assert forall|q: int| 0 <= q < x.len() implies b.subrange(pos, pos + x.len())[q] == x[q] by {
        assert(whole[q] == (x + y)[q]);
    }
    assert(b.subrange(pos, pos + x.len()) =~= x);
    assert forall|q: int| 0 <= q < y.len() implies b.subrange(
        pos + x.len(),
        pos + x.len() + y.len(),
    )[q] == y[q] by {
        assert(whole[x.len() + q] == (x + y)[x.len() + q]);
    }
    assert(b.subrange(pos + x.len(), pos + x.len() + y.len()) =~= y);
}

/// One tag: its key, then its value.
pub open spec fn enc_pair(t: (Seq<char>, Seq<char>)) -> Seq<u8> {
    enc_str(t.0) + enc_str(t.1)
}

/// Both strings of the tag are short enough to encode.
pub open spec fn pair_fits(t: (Seq<char>, Seq<char>)) -> bool {
    str_fits(t.0) && str_fits(t.1)
}

/// Reads one tag: a key, then a value.
pub open spec fn dec_pair(b: Seq<u8>, pos: int) -> Option<((Seq<char>, Seq<char>), int)> {
    match dec_str(b, pos) {
        Some((k, p)) => match dec_str(b, p) {
            Some((v, p2)) => Some(((k, v), p2)),
            None => None,
        },
        None => None,
    }
}

/// Decoding at the start of an encoded tag yields the tag back.
pub proof fn lemma_dec_pair(t: (Seq<char>, Seq<char>), b: Seq<u8>, pos: int)
    requires
        pair_fits(t),
        0 <= pos,
        pos + enc_pair(t).len() <= b.len(),
        b.subrange(pos, pos + enc_pair(t).len()) == enc_pair(t),
    ensures
        dec_pair(b, pos) == Some((t, pos + enc_pair(t).len())),
{
    lemma_subrange_split(b, pos, enc_str(t.0), enc_str(t.1));
    lemma_dec_str(t.0, b, pos);
    lemma_dec_str(t.1, b, pos + enc_str(t.0).len());
}

/// A run of tags, in order.
pub open spec fn enc_pairs(ts: Seq<(Seq<char>, Seq<char>)>) -> Seq<u8>
    decreases ts.len(),
{
    if ts.len() == 0 {
        Seq::empty()
    } else {
        enc_pair(ts.first()) + enc_pairs(ts.drop_first())
    }
}

/// Every tag of the list is short enough to encode, and so is the count.
pub open spec fn tags_fit(ts: Seq<(Seq<char>, Seq<char>)>) -> bool {
    ts.len() <= u64::MAX && forall|k: int| 0 <= k < ts.len() ==> pair_fits(#[trigger] ts[k])
}

/// Reads `count` tags in a row.
pub open spec fn dec_pairs(b: Seq<u8>, pos: int, count: nat) -> Option<
    (Seq<(Seq<char>, Seq<char>)>, int),
>
    decreases count,
{
    if count == 0 {
        Some((Seq::empty(), pos))
    } else {
        match dec_pair(b, pos) {
            Some((t, p)) => match dec_pairs(b, p, (count - 1) as nat) {
                Some((rest, p2)) => Some((seq![t] + rest, p2)),
                None => None,
            },
            None => None,
        }
    }
}

/// A run of tags grows at its end: encoding all of `ts` is encoding all
/// but the last, then the last.
pub proof fn lemma_enc_pairs_last(ts: Seq<(Seq<char>, Seq<char>)>)
    requires
        ts.len() > 0,
    ensures
        enc_pairs(ts) == enc_pairs(ts.drop_last()) + enc_pair(ts.last()),
    decreases ts.len(),
{
    if ts.len() == 1 {
        assert(ts.drop_first().len() == 0);
        assert(ts.drop_last().len() == 0);
        assert(enc_pairs(ts) =~= enc_pair(ts.first()) + enc_pairs(ts.drop_first()));
        assert(enc_pair(ts.first()) + Seq::<u8>::empty() =~= enc_pair(ts.first()));
        assert(Seq::<u8>::empty() + enc_pair(ts.last()) =~= enc_pair(ts.last()));
        assert(ts.first() == ts.last());
    } else {
        lemma_enc_pairs_last(ts.drop_first());
        assert(ts.drop_first().drop_last() =~= ts.drop_last().drop_first());
        assert(ts.drop_first().last() == ts.last());
        assert(ts.drop_last().first() == ts.first());
        assert(enc_pairs(ts) == enc_pair(ts.first()) + (enc_pairs(ts.drop_last().drop_first())
            + enc_pair(ts.last())));
        assert(enc_pair(ts.first()) + (enc_pairs(ts.drop_last().drop_first()) + enc_pair(ts.last()))
            =~= (enc_pair(ts.first()) + enc_pairs(ts.drop_last().drop_first())) + enc_pair(
            ts.last(),
        ));
    }
}

/// Decoding at the start of an encoded run of tags yields them all back.
pub proof fn lemma_dec_pairs(ts: Seq<(Seq<char>, Seq<char>)>, b: Seq<u8>, pos: int)
    requires
        forall|k: int| 0 <= k < ts.len() ==> pair_fits(#[trigger] ts[k]),
        0 <= pos,
        pos + enc_pairs(ts).len() <= b.len(),
        b.subrange(pos, pos + enc_pairs(ts).len()) == enc_pairs(ts),
    ensures
        dec_pairs(b, pos, ts.len()) == Some((ts, pos + enc_pairs(ts).len())),
    decreases ts.len(),
{
    if ts.len() == 0 {
        assert(dec_pairs(b, pos, 0) == Some((Seq::<(Seq<char>, Seq<char>)>::empty(), pos)));
        assert(ts =~= Seq::<(Seq<char>, Seq<char>)>::empty());
    } else {
        let head = ts.first();
        let tail = ts.drop_first();
        lemma_subrange_split(b, pos, enc_pair(head), enc_pairs(tail));
        lemma_dec_pair(head, b, pos);
        let p = pos + enc_pair(head).len();
        assert(forall|k: int| 0 <= k < tail.len() ==> pair_fits(#[trigger] tail[k]));
        lemma_dec_pairs(tail, b, p);
        assert(seq![head] + tail =~= ts);
    }
}

/// A tag list: its length as one word, then the tags in order.
pub open spec fn enc_tags(ts: Seq<(Seq<char>, Seq<char>)>) -> Seq<u8> {
    u64_le_bytes(ts.len() as u64) + enc_pairs(ts)
}

/// Reads a tag list: a count, then that many tags.
pub open spec fn dec_tags(b: Seq<u8>, pos: int) -> Option<(Seq<(Seq<char>, Seq<char>)>, int)> {
    match dec_u64(b, pos) {
        Some((n, p)) => dec_pairs(b, p, n as nat),
        None => None,
    }
}

/// Decoding at the start of an encoded tag list yields the list back.
pub proof fn lemma_dec_tags(ts: Seq<(Seq<char>, Seq<char>)>, b: Seq<u8>, pos: int)
    requires
        tags_fit(ts),
        0 <= pos,
        pos + enc_tags(ts).len() <= b.len(),
        b.subrange(pos, pos + enc_tags(ts).len()) == enc_tags(ts),
    ensures
        dec_tags(b, pos) == Some((ts, pos + enc_tags(ts).len())),
{
    lemma_subrange_split(b, pos, u64_le_bytes(ts.len() as u64), enc_pairs(ts));
    lemma_dec_u64(ts.len() as u64, b, pos);
    lemma_dec_pairs(ts, b, pos + 8);
}

/// Appends one encoded tag: key, then value.
fn push_pair(out: &mut Vec<u8>, t: &(String, String))
    ensures
        final(out)@ == old(out)@ + enc_pair(t.deep_view()),
        pair_fits(t.deep_view()),
{
    push_str(out, t.0.as_str());
    push_str(out, t.1.as_str());
    assert(out@ =~= old(out)@ + enc_pair(t.deep_view()));
}

/// Appends an encoded tag list: count, then the tags in order.
fn push_tags(out: &mut Vec<u8>, tags: &Vec<(String, String)>)
    ensures
        final(out)@ == old(out)@ + enc_tags(tags.deep_view()),
        tags_fit(tags.deep_view()),
{
    let n = tags.len();
    push_u64(out, n as u64);
    let mut i: usize = 0;
    proof {
        assert(tags.deep_view().take(0) =~= Seq::<(Seq<char>, Seq<char>)>::empty());
        assert(out@ =~= old(out)@ + u64_le_bytes(n as u64) + enc_pairs(tags.deep_view().take(0)));
    }
    while i < n
        invariant
            i <= n,
            n == tags@.len(),
            out@ == old(out)@ + u64_le_bytes(n as u64) + enc_pairs(tags.deep_view().take(i as int)),
            forall|k: int| 0 <= k < i ==> pair_fits(#[trigger] tags.deep_view()[k]),
        decreases n - i,
    {
        let t = &tags[i];
        proof {
            lemma_deep_view_index(tags);
        }
        push_pair(out, t);
        proof {
            lemma_enc_pairs_last(tags.deep_view().take(i + 1));
            assert(tags.deep_view().take(i + 1).drop_last() =~= tags.deep_view().take(i as int));
            assert(tags.deep_view().take(i + 1).last() == t.deep_view());
            assert(out@ =~= old(out)@ + u64_le_bytes(n as u64) + enc_pairs(
                tags.deep_view().take(i + 1),
            ));
        }
        i = i + 1;
    }
    proof {
        assert(tags.deep_view().take(n as int) =~= tags.deep_view());
        assert(out@ =~= old(out)@ + enc_tags(tags.deep_view()));
    }
}

/// Reads one tag; fails where either string fails.
fn read_pair(b: &Vec<u8>, pos: usize) -> (r: Option<((String, String), usize)>)
    requires
        pos <= b@.len(),
    ensures
        match r {
            Some(vp) => dec_pair(b@, pos as int) matches Some(sp) && sp.0 == vp.0.deep_view()
                && sp.1 == vp.1 && vp.1 <= b@.len(),
            None => dec_pair(b@, pos as int) is None,
        },
{
    match read_str(b, pos) {
        Some((k, p)) => match read_str(b, p) {
            Some((v, p2)) => Some(((k, v), p2)),
            None => None,
        },
        None => None,
    }
}

/// Reads `count` tags in a row; fails where any tag fails.
fn read_pairs(b: &Vec<u8>, pos: usize, count: u64) -> (r: Option<(Vec<(String, String)>, usize)>)
    requires
        pos <= b@.len(),
    ensures
        match r {
            Some(vp) => dec_pairs(b@, pos as int, count as nat) matches Some(sp) && sp.0
                == vp.0.deep_view() && sp.1 == vp.1 && vp.1 <= b@.len(),
            None => dec_pairs(b@, pos as int, count as nat) is None,
        },
    decreases count,
{
    if count == 0 {
        let empty: Vec<(String, String)> = Vec::new();
        proof {
            assert(empty.deep_view() =~= Seq::<(Seq<char>, Seq<char>)>::empty());
        }
        Some((empty, pos))
    } else {
        match read_pair(b, pos) {
            Some((t, p)) => match read_pairs(b, p, count - 1) {
                Some((mut rest, p2)) => {
                    let ghost rest_dv = rest.deep_view();
                    let ghost t_dv = t.deep_view();
                    rest.insert(0, t);
                    proof {
                        lemma_deep_view_index(&rest);
                        assert(rest.deep_view() =~= seq![t_dv] + rest_dv);
                    }
                    Some((rest, p2))
                },
                None => None,
            },
            None => None,
        }
    }
}

/// One node: identity, the two coordinates, then its tags.
pub open spec fn enc_node(n: NodeView) -> Seq<u8> {
    u64_le_bytes(n.id as u64) + u64_le_bytes(n.x as u64) + u64_le_bytes(n.y as u64) + enc_tags(
        n.tags,
    )
}

/// The node's tags are short enough to encode.
pub open spec fn node_fits(n: NodeView) -> bool {
    tags_fit(n.tags)
}

/// Reads one node: identity, coordinates, tags.
pub open spec fn dec_node(b: Seq<u8>, pos: int) -> Option<(NodeView, int)> {
    match dec_u64(b, pos) {
        Some((id, p1)) => match dec_u64(b, p1) {
            Some((x, p2)) => match dec_u64(b, p2) {
                Some((y, p3)) => match dec_tags(b, p3) {
                    Some((ts, p4)) => Some(
                        (NodeView { id: id as i64, tags: ts, x: x as i64, y: y as i64 }, p4),
                    ),
                    None => None,
                },
                None => None,
            },
            None => None,
        },
        None => None,
    }
}

/// Decoding at the start of an encoded node yields the node back.
pub proof fn lemma_dec_node(n: NodeView, b: Seq<u8>, pos: int)
    requires
        node_fits(n),
        0 <= pos,
        pos + enc_node(n).len() <= b.len(),
        b.subrange(pos, pos + enc_node(n).len()) == enc_node(n),
    ensures
        dec_node(b, pos) == Some((n, pos + enc_node(n).len())),
{
    let e1 = u64_le_bytes(n.id as u64);
    let e2 = u64_le_bytes(n.x as u64);
    let e3 = u64_le_bytes(n.y as u64);
    let e4 = enc_tags(n.tags);
    assert(enc_node(n) =~= e1 + (e2 + (e3 + e4)));
    lemma_subrange_split(b, pos, e1, e2 + (e3 + e4));
    lemma_dec_u64(n.id as u64, b, pos);
    lemma_subrange_split(b, pos + 8, e2, e3 + e4);
    lemma_dec_u64(n.x as u64, b, pos + 8);
    lemma_subrange_split(b, pos + 16, e3, e4);
    lemma_dec_u64(n.y as u64, b, pos + 16);
    lemma_dec_tags(n.tags, b, pos + 24);
    lemma_i64_cast_round_trip(n.id);
    lemma_i64_cast_round_trip(n.x);
    lemma_i64_cast_round_trip(n.y);
}

/// A run of nodes, in path order.
pub open spec fn enc_nodes(ns: Seq<NodeView>) -> Seq<u8>
    decreases ns.len(),
{
    if ns.len() == 0 {
        Seq::empty()
    } else {
        enc_node(ns.first()) + enc_nodes(ns.drop_first())
    }
}

/// Reads `count` nodes in a row.
pub open spec fn dec_nodes(b: Seq<u8>, pos: int, count: nat) -> Option<(Seq<NodeView>, int)>
    decreases count,
{
    if count == 0 {
        Some((Seq::empty(), pos))
    } else {
        match dec_node(b, pos) {
            Some((n, p)) => match dec_nodes(b, p, (count - 1) as nat) {
                Some((rest, p2)) => Some((seq![n] + rest, p2)),
                None => None,
            },
            None => None,
        }
    }
}

/// A run of nodes grows at its end.
pub proof fn lemma_enc_nodes_last(ns: Seq<NodeView>)
    requires
        ns.len() > 0,
    ensures
        enc_nodes(ns) == enc_nodes(ns.drop_last()) + enc_node(ns.last()),
    decreases ns.len(),
{
    if ns.len() == 1 {
        assert(enc_nodes(ns) =~= enc_node(ns.first()) + enc_nodes(ns.drop_first()));
        assert(enc_node(ns.first()) + Seq::<u8>::empty() =~= enc_node(ns.first()));
        assert(Seq::<u8>::empty() + enc_node(ns.last()) =~= enc_node(ns.last()));
        assert(ns.first() == ns.last());
    } else {
        lemma_enc_nodes_last(ns.drop_first());
        assert(ns.drop_first().drop_last() =~= ns.drop_last().drop_first());
        assert(ns.drop_first().last() == ns.last());
        assert(ns.drop_last().first() == ns.first());
        assert(enc_nodes(ns) == enc_node(ns.first()) + (enc_nodes(ns.drop_last().drop_first())
            + enc_node(ns.last())));
        assert(enc_node(ns.first()) + (enc_nodes(ns.drop_last().drop_first()) + enc_node(
            ns.last(),
        )) =~= (enc_node(ns.first()) + enc_nodes(ns.drop_last().drop_first())) + enc_node(
            ns.last(),
        ));
    }
}

/// Decoding at the start of an encoded run of nodes yields them all back.
pub proof fn lemma_dec_nodes(ns: Seq<NodeView>, b: Seq<u8>, pos: int)
    requires
        forall|k: int| 0 <= k < ns.len() ==> node_fits(#[trigger] ns[k]),
        0 <= pos,
        pos + enc_nodes(ns).len() <= b.len(),
        b.subrange(pos, pos + enc_nodes(ns).len()) == enc_nodes(ns),
    ensures
        dec_nodes(b, pos, ns.len()) == Some((ns, pos + enc_nodes(ns).len())),
    decreases ns.len(),
{
    if ns.len() == 0 {
        assert(ns =~= Seq::<NodeView>::empty());
    } else {
        let head = ns.first();
        let tail = ns.drop_first();
        lemma_subrange_split(b, pos, enc_node(head), enc_nodes(tail));
        lemma_dec_node(head, b, pos);
        let p = pos + enc_node(head).len();
        lemma_dec_nodes(tail, b, p);
        assert(seq![head] + tail =~= ns);
    }
}

/// One road: identity, tags, then its node count and nodes in path order.
pub open spec fn enc_road(r: RoadView) -> Seq<u8> {
    u64_le_bytes(r.id as u64) + enc_tags(r.tags) + u64_le_bytes(r.nodes.len() as u64) + enc_nodes(
        r.nodes,
    )
}

/// The road's tags, node count and nodes are short enough to encode.
pub open spec fn road_fits(r: RoadView) -> bool {
    &&& tags_fit(r.tags)
    &&& r.nodes.len() <= u64::MAX
    &&& forall|k: int| 0 <= k < r.nodes.len() ==> node_fits(#[trigger] r.nodes[k])
}

/// Reads one road: identity, tags, node count, nodes.
pub open spec fn dec_road(b: Seq<u8>, pos: int) -> Option<(RoadView, int)> {
    match dec_u64(b, pos) {
        Some((id, p1)) => match dec_tags(b, p1) {
            Some((ts, p2)) => match dec_u64(b, p2) {
                Some((n, p3)) => match dec_nodes(b, p3, n as nat) {
                    Some((ns, p4)) => Some(
                        (RoadView { id: id as i64, tags: ts, nodes: ns }, p4),
                    ),
                    None => None,
                },
                None => None,
            },
            None => None,
        },
        None => None,
    }
}

/// Decoding at the start of an encoded road yields the road back.
pub proof fn lemma_dec_road(r: RoadView, b: Seq<u8>, pos: int)
    requires
        road_fits(r),
        0 <= pos,
        pos + enc_road(r).len() <= b.len(),
        b.subrange(pos, pos + enc_road(r).len()) == enc_road(r),
    ensures
        dec_road(b, pos) == Some((r, pos + enc_road(r).len())),
{
    let e1 = u64_le_bytes(r.id as u64);
    let e2 = enc_tags(r.tags);
    let e3 = u64_le_bytes(r.nodes.len() as u64);
    let e4 = enc_nodes(r.nodes);
    assert(enc_road(r) =~= e1 + (e2 + (e3 + e4)));
    lemma_subrange_split(b, pos, e1, e2 + (e3 + e4));
    lemma_dec_u64(r.id as u64, b, pos);
    lemma_subrange_split(b, pos + 8, e2, e3 + e4);
    lemma_dec_tags(r.tags, b, pos + 8);
    let p2 = pos + 8 + e2.len();
    lemma_subrange_split(b, p2, e3, e4);
    lemma_dec_u64(r.nodes.len() as u64, b, p2);
    lemma_dec_nodes(r.nodes, b, p2 + 8);
    lemma_i64_cast_round_trip(r.id);
}

/// A run of roads, in store order.
pub open spec fn enc_roads(rs: Seq<RoadView>) -> Seq<u8>
    decreases rs.len(),
{
    if rs.len() == 0 {
        Seq::empty()
    } else {
        enc_road(rs.first()) + enc_roads(rs.drop_first())
    }
}

/// Reads `count` roads in a row.
pub open spec fn dec_roads(b: Seq<u8>, pos: int, count: nat) -> Option<(Seq<RoadView>, int)>
    decreases count,
{
    if count == 0 {
        Some((Seq::empty(), pos))
    } else {
        match dec_road(b, pos) {
            Some((r, p)) => match dec_roads(b, p, (count - 1) as nat) {
                Some((rest, p2)) => Some((seq![r] + rest, p2)),
                None => None,
            },
            None => None,
        }
    }
}

/// A run of roads grows at its end.
pub proof fn lemma_enc_roads_last(rs: Seq<RoadView>)
    requires
        rs.len() > 0,
    ensures
        enc_roads(rs) == enc_roads(rs.drop_last()) + enc_road(rs.last()),
    decreases rs.len(),
{
    if rs.len() == 1 {
        assert(enc_roads(rs) =~= enc_road(rs.first()) + enc_roads(rs.drop_first()));
        assert(enc_road(rs.first()) + Seq::<u8>::empty() =~= enc_road(rs.first()));
        assert(Seq::<u8>::empty() + enc_road(rs.last()) =~= enc_road(rs.last()));
        assert(rs.first() == rs.last());
    } else {
        lemma_enc_roads_last(rs.drop_first());
        assert(rs.drop_first().drop_last() =~= rs.drop_last().drop_first());
        assert(rs.drop_first().last() == rs.last());
        assert(rs.drop_last().first() == rs.first());
        assert(enc_roads(rs) == enc_road(rs.first()) + (enc_roads(rs.drop_last().drop_first())
            + enc_road(rs.last())));
        assert(enc_road(rs.first()) + (enc_roads(rs.drop_last().drop_first()) + enc_road(
            rs.last(),
        )) =~= (enc_road(rs.first()) + enc_roads(rs.drop_last().drop_first())) + enc_road(
            rs.last(),
        ));
    }
}

/// Decoding at the start of an encoded run of roads yields them all back.
pub proof fn lemma_dec_roads(rs: Seq<RoadView>, b: Seq<u8>, pos: int)
    requires
        forall|k: int| 0 <= k < rs.len() ==> road_fits(#[trigger] rs[k]),
        0 <= pos,
        pos + enc_roads(rs).len() <= b.len(),
        b.subrange(pos, pos + enc_roads(rs).len()) == enc_roads(rs),
    ensures
        dec_roads(b, pos, rs.len()) == Some((rs, pos + enc_roads(rs).len())),
    decreases rs.len(),
{
    if rs.len() == 0 {
        assert(rs =~= Seq::<RoadView>::empty());
    } else {
        let head = rs.first();
        let tail = rs.drop_first();
        lemma_subrange_split(b, pos, enc_road(head), enc_roads(tail));
        lemma_dec_road(head, b, pos);
        let p = pos + enc_road(head).len();
        lemma_dec_roads(tail, b, p);
        assert(seq![head] + tail =~= rs);
    }
}

/// The whole artifact: the format tag, the road count, then the roads.
pub open spec fn enc_store(roads: Seq<RoadView>) -> Seq<u8> {
    u64_le_bytes(CACHE_MAGIC) + u64_le_bytes(roads.len() as u64) + enc_roads(roads)
}

/// The store's counts and strings are short enough to encode. Every
/// store a program can hold satisfies this.
pub open spec fn store_fits(roads: Seq<RoadView>) -> bool {
    roads.len() <= u64::MAX && forall|k: int| 0 <= k < roads.len() ==> road_fits(
        #[trigger] roads[k],
    )
}

/// Reads a whole artifact: the format tag must match, the roads must
/// decode, and nothing may trail them.
pub open spec fn dec_store(b: Seq<u8>) -> Option<Seq<RoadView>> {
    match dec_u64(b, 0) {
        Some((m, p)) => {
            if m == CACHE_MAGIC {
                match dec_u64(b, p) {
                    Some((n, p2)) => match dec_roads(b, p2, n as nat) {
                        Some((roads, p3)) => if p3 == b.len() {
                            Some(roads)
                        } else {
                            None
                        },
                        None => None,
                    },
                    None => None,
                }
            } else {
                None
            }
        },
        None => None,
    }
}

/// Idempotence of the cache: decoding an encoded store yields that very
/// store — the same roads, with the same identities, nodes and tags, in
/// the same order — so a store loaded from a cache artifact written after
/// a fresh parse is that parse.
#[verifier::rlimit(50)]
pub proof fn lemma_store_round_trip(roads: Seq<RoadView>)
    requires
        store_fits(roads),
    ensures
        dec_store(enc_store(roads)) == Some(roads),
{
    let b = enc_store(roads);
    let e1 = u64_le_bytes(CACHE_MAGIC);
    let e2 = u64_le_bytes(roads.len() as u64);
    let e3 = enc_roads(roads);
    assert(b.subrange(0, b.len() as int) =~= b);
    assert(b.subrange(0, b.len() as int) =~= e1 + (e2 + e3));
    lemma_subrange_split(b, 0, e1, e2 + e3);
    lemma_dec_u64(CACHE_MAGIC, b, 0);
    assert(dec_u64(b, 0) == Some((CACHE_MAGIC, 8int)));
    lemma_subrange_split(b, 8, e2, e3);
    lemma_dec_u64(roads.len() as u64, b, 8);
    assert(dec_u64(b, 8) == Some((roads.len() as u64, 16int)));
    lemma_dec_roads(roads, b, 16);
    assert(roads.len() as u64 as nat == roads.len());
    assert(dec_roads(b, 16, roads.len()) == Some((roads, 16 + e3.len() as int)));
    assert(16 + e3.len() == b.len());
}

/// Appends one encoded node.
fn push_node(out: &mut Vec<u8>, n: &HighwayNode)
    ensures
        final(out)@ == old(out)@ + enc_node(n@),
        node_fits(n@),
{
    push_i64(out, n.id);
    push_i64(out, n.x);
    push_i64(out, n.y);
    push_tags(out, &n.tags);
    assert(out@ =~= old(out)@ + enc_node(n@));
}

/// Appends one encoded road: identity, tags, node count, nodes.
fn push_road(out: &mut Vec<u8>, r: &Highway)
    ensures
        final(out)@ == old(out)@ + enc_road(r@),
        road_fits(r@),
{
    push_i64(out, r.id);
    push_tags(out, &r.tags);
    let n = r.nodes.len();
    push_u64(out, n as u64);
    let ghost base = out@;
    let mut i: usize = 0;
    proof {
        assert(r@.nodes.take(0) =~= Seq::<NodeView>::empty());
        assert(out@ =~= base + enc_nodes(r@.nodes.take(0)));
    }
    while i < n
        invariant
            i <= n,
            n == r.nodes@.len(),
            out@ == base + enc_nodes(r@.nodes.take(i as int)),
            forall|k: int| 0 <= k < i ==> node_fits(#[trigger] r@.nodes[k]),
        decreases n - i,
    {
        let node = &r.nodes[i];
        proof {
            lemma_deep_view_index(&r.nodes);
        }
        push_node(out, node);
        proof {
            lemma_enc_nodes_last(r@.nodes.take(i + 1));
            assert(r@.nodes.take(i + 1).drop_last() =~= r@.nodes.take(i as int));
            assert(r@.nodes.take(i + 1).last() == node@);
            assert(out@ =~= base + enc_nodes(r@.nodes.take(i + 1)));
        }
        i = i + 1;
    }
    proof {
        assert(r@.nodes.take(n as int) =~= r@.nodes);
        assert(out@ =~= old(out)@ + enc_road(r@));
    }
}

/// Encodes the whole road network store into one cache artifact.
pub fn encode_store(roads: &Vec<Highway>) -> (out: Vec<u8>)
    ensures
        out@ == enc_store(roads.deep_view()),
        store_fits(roads.deep_view()),
{
    let mut out: Vec<u8> = Vec::new();
    push_u64(&mut out, CACHE_MAGIC);
    let n = roads.len();
    push_u64(&mut out, n as u64);
    let ghost base = out@;
    let mut i: usize = 0;
    proof {
        assert(roads.deep_view().take(0) =~= Seq::<RoadView>::empty());
        assert(out@ =~= base + enc_roads(roads.deep_view().take(0)));
    }
    while i < n
        invariant
            i <= n,
            n == roads@.len(),
            out@ == base + enc_roads(roads.deep_view().take(i as int)),
            base == u64_le_bytes(CACHE_MAGIC) + u64_le_bytes(n as u64),
            forall|k: int| 0 <= k < i ==> road_fits(#[trigger] roads.deep_view()[k]),
        decreases n - i,
    {
        let road = &roads[i];
        proof {
            lemma_deep_view_index(roads);
        }
        push_road(&mut out, road);
        proof {
            lemma_enc_roads_last(roads.deep_view().take(i + 1));
            assert(roads.deep_view().take(i + 1).drop_last() =~= roads.deep_view().take(i as int));
            assert(roads.deep_view().take(i + 1).last() == road@);
            assert(out@ =~= base + enc_roads(roads.deep_view().take(i + 1)));
        }
        i = i + 1;
    }
    proof {
        assert(roads.deep_view().take(n as int) =~= roads.deep_view());
        assert(out@ =~= enc_store(roads.deep_view()));
    }
    out
}

/// Reads one node; fails where any of its parts fails.
fn read_node(b: &Vec<u8>, pos: usize) -> (r: Option<(HighwayNode, usize)>)
    requires
        pos <= b@.len(),
    ensures
        match r {
            Some(vp) => dec_node(b@, pos as int) matches Some(sp) && sp.0 == vp.0@ && sp.1 == vp.1
                && vp.1 <= b@.len(),
            None => dec_node(b@, pos as int) is None,
        },
{
    match read_u64(b, pos) {
        Some((id, p1)) => match read_u64(b, p1) {
            Some((x, p2)) => match read_u64(b, p2) {
                Some((y, p3)) => match read_u64(b, p3) {
                    Some((cnt, p4)) => match read_pairs(b, p4, cnt) {
                        Some((tags, p5)) => Some(
                            (
                                HighwayNode {
                                    id: id as i64,
                                    tags,
                                    x: x as i64,
                                    y: y as i64,
                                },
                                p5,
                            ),
                        ),
                        None => None,
                    },
                    None => None,
                },
                None => None,
            },
            None => None,
        },
        None => None,
    }
}

/// Reads `count` nodes in a row; fails where any node fails.
fn read_nodes(b: &Vec<u8>, pos: usize, count: u64) -> (r: Option<(Vec<HighwayNode>, usize)>)
    requires
        pos <= b@.len(),
    ensures
        match r {
            Some(vp) => dec_nodes(b@, pos as int, count as nat) matches Some(sp) && sp.0
                == vp.0.deep_view() && sp.1 == vp.1 && vp.1 <= b@.len(),
            None => dec_nodes(b@, pos as int, count as nat) is None,
        },
    decreases count,
{
    if count == 0 {
        let empty: Vec<HighwayNode> = Vec::new();
        proof {
            assert(empty.deep_view() =~= Seq::<NodeView>::empty());
        }
        Some((empty, pos))
    } else {
        match read_node(b, pos) {
            Some((n, p)) => match read_nodes(b, p, count - 1) {
                Some((mut rest, p2)) => {
                    let ghost rest_dv = rest.deep_view();
                    let ghost n_dv = n@;
                    rest.insert(0, n);
                    proof {
                        lemma_deep_view_index(&rest);
                        assert(rest.deep_view() =~= seq![n_dv] + rest_dv);
                    }
                    Some((rest, p2))
                },
                None => None,
            },
            None => None,
        }
    }
}

/// Reads one road; fails where any of its parts fails.
fn read_road(b: &Vec<u8>, pos: usize) -> (r: Option<(Highway, usize)>)
    requires
        pos <= b@.len(),
    ensures
        match r {
            Some(vp) => dec_road(b@, pos as int) matches Some(sp) && sp.0 == vp.0@ && sp.1 == vp.1
                && vp.1 <= b@.len(),
            None => dec_road(b@, pos as int) is None,
        },
{
    match read_u64(b, pos) {
        Some((id, p1)) => match read_u64(b, p1) {
            Some((cnt, p2)) => match read_pairs(b, p2, cnt) {
                Some((tags, p3)) => match read_u64(b, p3) {
                    Some((ncnt, p4)) => match read_nodes(b, p4, ncnt) {
                        Some((nodes, p5)) => Some((Highway { id: id as i64, tags, nodes }, p5)),
                        None => None,
                    },
                    None => None,
                },
                None => None,
            },
            None => None,
        },
        None => None,
    }
}

/// Reads `count` roads in a row; fails where any road fails.
fn read_roads(b: &Vec<u8>, pos: usize, count: u64) -> (r: Option<(Vec<Highway>, usize)>)
    requires
        pos <= b@.len(),
    ensures
        match r {
            Some(vp) => dec_roads(b@, pos as int, count as nat) matches Some(sp) && sp.0
                == vp.0.deep_view() && sp.1 == vp.1 && vp.1 <= b@.len(),
            None => dec_roads(b@, pos as int, count as nat) is None,
        },
    decreases count,
{
    if count == 0 {
        let empty: Vec<Highway> = Vec::new();
        proof {
            assert(empty.deep_view() =~= Seq::<RoadView>::empty());
        }
        Some((empty, pos))
    } else {
        match read_road(b, pos) {
            Some((r0, p)) => match read_roads(b, p, count - 1) {
                Some((mut rest, p2)) => {
                    let ghost rest_dv = rest.deep_view();
                    let ghost r_dv = r0@;
                    rest.insert(0, r0);
                    proof {
                        lemma_deep_view_index(&rest);
                        assert(rest.deep_view() =~= seq![r_dv] + rest_dv);
                    }
                    Some((rest, p2))
                },
                None => None,
            },
            None => None,
        }
    }
}

/// Decodes a cache artifact back into the road network store. Anything
/// corrupt — a wrong format tag, a truncated or malformed body, trailing
/// bytes — decodes to nothing; there is no partial result.
pub fn decode_store(bytes: &Vec<u8>) -> (r: Option<Vec<Highway>>)
    ensures
        match r {
            Some(v) => dec_store(bytes@) matches Some(s) && s == v.deep_view(),
            None => dec_store(bytes@) is None,
        },
{
    match read_u64(bytes, 0) {
        Some((magic, p)) => {
            if magic == CACHE_MAGIC {
                match read_u64(bytes, p) {
                    Some((n, p2)) => match read_roads(bytes, p2, n) {
                        Some((roads, p3)) => {
                            if p3 == bytes.len() {
                                Some(roads)
                            } else {
                                None
                            }
                        },
                        None => None,
                    },
                    None => None,
                }
            } else {
                None
            }
        },
        None => None,
    }
}

} // verus!
