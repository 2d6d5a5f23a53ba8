//! The persisted form of a street network: a version word followed by
//! the edge list, the id/index mapping, and the node-to-ways table,
//! all flattened into 64-bit words and written as little-endian bytes.

use vstd::prelude::*;

use crate::elements::Way;
use crate::elements::WayView;
use crate::queries::views_of;

verus! {

/// The eight little-endian bytes of a 64-bit word.
pub open spec fn spec_enc_u64(v: u64) -> Seq<u8> {
    seq![
        (v & 0xFF) as u8,
        ((v >> 8) & 0xFF) as u8,
        ((v >> 16) & 0xFF) as u8,
        ((v >> 24) & 0xFF) as u8,
        ((v >> 32) & 0xFF) as u8,
        ((v >> 40) & 0xFF) as u8,
        ((v >> 48) & 0xFF) as u8,
        ((v >> 56) & 0xFF) as u8,
    ]
}

/// The 64-bit word eight little-endian bytes hold.
pub open spec fn spec_dec_u64(b: Seq<u8>) -> u64
    recommends
        b.len() == 8,
{
    (b[0] as u64) | ((b[1] as u64) << 8) | ((b[2] as u64) << 16) | ((b[3] as u64) << 24) | ((
    b[4] as u64) << 32) | ((b[5] as u64) << 40) | ((b[6] as u64) << 48) | ((b[7] as u64) << 56)
}

proof fn lemma_dec_enc_u64(v: u64)
    ensures
        spec_dec_u64(spec_enc_u64(v)) == v,
{
    assert((((v & 0xFF) as u8) as u64) | ((((v >> 8) & 0xFF) as u8) as u64) << 8 | ((((v >> 16)
        & 0xFF) as u8) as u64) << 16 | ((((v >> 24) & 0xFF) as u8) as u64) << 24 | ((((v >> 32)
        & 0xFF) as u8) as u64) << 32 | ((((v >> 40) & 0xFF) as u8) as u64) << 40 | ((((v >> 48)
        & 0xFF) as u8) as u64) << 48 | ((((v >> 56) & 0xFF) as u8) as u64) << 56 == v)
        by (bit_vector);
}

/// The words of a byte sequence, eight bytes to a word.
pub open spec fn words_of_bytes(b: Seq<u8>) -> Seq<u64>
    recommends
        b.len() % 8 == 0,
{
    Seq::new((b.len() / 8) as nat, |i: int| spec_dec_u64(b.subrange(8 * i, 8 * i + 8)))
}

/// The little-endian bytes of a word sequence.
pub open spec fn enc_words(ws: Seq<u64>) -> Seq<u8>
    decreases ws.len(),
{
    if ws.len() == 0 {
        Seq::empty()
    } else {
        spec_enc_u64(ws[0]) + enc_words(ws.drop_first())
    }
}

proof fn lemma_enc_words_len(ws: Seq<u64>)
    ensures
        enc_words(ws).len() == 8 * ws.len(),
    decreases ws.len(),
{
    if ws.len() > 0 {
        lemma_enc_words_len(ws.drop_first());
    }
}

proof fn lemma_enc_words_push(ws: Seq<u64>, w: u64)
    ensures
        enc_words(ws.push(w)) == enc_words(ws) + spec_enc_u64(w),
    decreases ws.len(),
{
    reveal_with_fuel(enc_words, 3);
    if ws.len() == 0 {
        assert(ws.push(w)[0] == w);
        assert(ws.push(w).drop_first() =~= Seq::<u64>::empty());
        assert(enc_words(ws.push(w)) =~= spec_enc_u64(w));
        assert(enc_words(ws) + spec_enc_u64(w) =~= spec_enc_u64(w));
    } else {
        assert(ws.push(w)[0] == ws[0]);
        assert(ws.push(w).drop_first() =~= ws.drop_first().push(w));
        lemma_enc_words_push(ws.drop_first(), w);
        assert(spec_enc_u64(ws[0]) + (enc_words(ws.drop_first()) + spec_enc_u64(w))
            =~= (spec_enc_u64(ws[0]) + enc_words(ws.drop_first())) + spec_enc_u64(w));
    }
}

/// Reading back the bytes of a word sequence yields the words.
proof fn lemma_words_of_enc(ws: Seq<u64>)
    ensures
        enc_words(ws).len() % 8 == 0,
        words_of_bytes(enc_words(ws)) == ws,
    decreases ws.len(),
{
    lemma_enc_words_len(ws);
    if ws.len() == 0 {
        assert(words_of_bytes(enc_words(ws)) =~= ws);
    } else {
        lemma_words_of_enc(ws.drop_first());
        lemma_enc_words_len(ws.drop_first());
        let b = enc_words(ws);
        let rest = enc_words(ws.drop_first());
        assert forall|i: int| 0 <= i < ws.len() implies words_of_bytes(b)[i] == ws[i] by {
            if i == 0 {
                assert(b.subrange(0, 8) =~= spec_enc_u64(ws[0]));
                lemma_dec_enc_u64(ws[0]);
            } else {
                assert(b.subrange(8 * i, 8 * i + 8) =~= rest.subrange(
                    8 * (i - 1),
                    8 * (i - 1) + 8,
                ));
                assert(words_of_bytes(rest)[i - 1] == ws.drop_first()[i - 1]);
            }
        }
        assert(words_of_bytes(b) =~= ws);
    }
}

/// Appends the eight little-endian bytes of `v`.
fn push_u64(out: &mut Vec<u8>, v: u64)
    ensures
        final(out)@ == old(out)@ + spec_enc_u64(v),
{
    let ghost pre = out@;
    out.push((v & 0xFF) as u8);
    out.push(((v >> 8) & 0xFF) as u8);
    out.push(((v >> 16) & 0xFF) as u8);
    out.push(((v >> 24) & 0xFF) as u8);
    out.push(((v >> 32) & 0xFF) as u8);
    out.push(((v >> 40) & 0xFF) as u8);
    out.push(((v >> 48) & 0xFF) as u8);
    out.push(((v >> 56) & 0xFF) as u8);
    proof {
        assert(out@ =~= pre + spec_enc_u64(v));
    }
}

/// Reads the word at byte offset `8 * i`.
fn read_u64(buf: &Vec<u8>, i: usize) -> (r: u64)
    requires
        8 * i + 8 <= buf@.len(),
    ensures
        r == spec_dec_u64(buf@.subrange(8 * i as int, 8 * i as int + 8)),
{
    let blen = buf.len();
    proof {
        assert(8 * i + 8 <= blen);
    }
    let base = 8 * i;
    let b0 = buf[base];
    let b1 = buf[base + 1];
    let b2 = buf[base + 2];
    let b3 = buf[base + 3];
    let b4 = buf[base + 4];
    let b5 = buf[base + 5];
    let b6 = buf[base + 6];
    let b7 = buf[base + 7];
    let r = (b0 as u64) | ((b1 as u64) << 8) | ((b2 as u64) << 16) | ((b3 as u64) << 24) | ((
    b4 as u64) << 32) | ((b5 as u64) << 40) | ((b6 as u64) << 48) | ((b7 as u64) << 56);
    proof {
        let sub = buf@.subrange(8 * i as int, 8 * i as int + 8);
        assert(sub[0] == b0 && sub[1] == b1 && sub[2] == b2 && sub[3] == b3 && sub[4] == b4
            && sub[5] == b5 && sub[6] == b6 && sub[7] == b7);
    }
    r
}

/// Turns a word list into its byte form.
pub(crate) fn words_to_bytes(ws: &Vec<u64>) -> (r: Vec<u8>)
    ensures
        r@ == enc_words(ws@),
{
    let mut out: Vec<u8> = Vec::new();
    proof {
        assert(enc_words(ws@.take(0)) =~= Seq::<u8>::empty());
        assert(out@ =~= enc_words(ws@.take(0)));
    }
    for i in 0..ws.len()
        invariant
            out@ == enc_words(ws@.take(i as int)),
    {
        push_u64(&mut out, ws[i]);
        proof {
            lemma_enc_words_push(ws@.take(i as int), ws@[i as int]);
            assert(ws@.take(i as int).push(ws@[i as int]) =~= ws@.take(i as int + 1));
        }
    }
    proof {
        assert(ws@.take(ws@.len() as int) =~= ws@);
    }
    out
}

/// Turns a byte buffer back into words; fails iff the length is not a
/// multiple of eight.
fn bytes_to_words(buf: &Vec<u8>) -> (r: Option<Vec<u64>>)
    ensures
        (match r {
            Some(ws) => buf@.len() % 8 == 0 && ws@ == words_of_bytes(buf@),
            None => buf@.len() % 8 != 0,
        }),
{
    if buf.len() % 8 != 0 {
        return None;
    }
    let n = buf.len() / 8;
    let mut ws: Vec<u64> = Vec::new();
    proof {
        assert(ws@ =~= words_of_bytes(buf@).take(0));
    }
    for i in 0..n
        invariant
            buf@.len() % 8 == 0,
            n == buf@.len() / 8,
            ws@ == words_of_bytes(buf@).take(i as int),
    {
        let w = read_u64(buf, i);
        ws.push(w);
        proof {
            assert(words_of_bytes(buf@)[i as int] == w);
            assert(words_of_bytes(buf@).take(i as int).push(w) =~= words_of_bytes(buf@).take(
                i as int + 1,
            ));
        }
    }
    proof {
        assert(words_of_bytes(buf@).take(words_of_bytes(buf@).len() as int) =~= words_of_bytes(
            buf@,
        ));
    }
    Some(ws)
}

/// A 64-bit word is a valid character code: a Unicode scalar value.
pub open spec fn valid_char_word(w: u64) -> bool {
    w < 0xD800 || (0xE000 <= w <= 0x10FFFF)
}

/// Every character of `s` is a valid Unicode scalar value. This holds
/// of every character a string can actually contain; it is stated
/// explicitly because the reasoning below sees only sequences.
pub open spec fn valid_chars(s: Seq<char>) -> bool {
    forall|i: int|
        0 <= i < s.len() ==> {
            let v = (#[trigger] s[i]) as int;
            0 <= v < 0xD800 || 0xE000 <= v <= 0x10FFFF
        }
}

/// A string short enough for its length to be written as one word.
pub open spec fn str_encodable(s: Seq<char>) -> bool {
    s.len() <= u64::MAX && valid_chars(s)
}

pub open spec fn tag_items_encodable(tags: Seq<(Seq<char>, Seq<char>)>) -> bool {
    forall|i: int|
        0 <= i < tags.len() ==> str_encodable((#[trigger] tags[i]).0) && str_encodable(
            tags[i].1,
        )
}

pub open spec fn tags_encodable(tags: Seq<(Seq<char>, Seq<char>)>) -> bool {
    tags.len() <= u64::MAX && tag_items_encodable(tags)
}

pub open spec fn way_encodable(w: WayView) -> bool {
    tags_encodable(w.tags) && w.nodes.len() <= u64::MAX
}

pub open spec fn way_items_encodable(ws: Seq<WayView>) -> bool {
    forall|i: int| 0 <= i < ws.len() ==> way_encodable(#[trigger] ws[i])
}

pub open spec fn ways_encodable(ws: Seq<WayView>) -> bool {
    ws.len() <= u64::MAX && way_items_encodable(ws)
}

pub open spec fn nw_items_encodable(nw: Seq<(i64, Seq<WayView>)>) -> bool {
    forall|i: int| 0 <= i < nw.len() ==> ways_encodable((#[trigger] nw[i]).1)
}

pub open spec fn nw_encodable(nw: Seq<(i64, Seq<WayView>)>) -> bool {
    nw.len() <= u64::MAX && nw_items_encodable(nw)
}

/// The whole model's lists are short enough to be written, and its
/// strings hold valid characters.
pub open spec fn model_encodable(
    edges: Seq<(usize, usize, usize)>,
    ids: Seq<i64>,
    nw: Seq<(i64, Seq<WayView>)>,
) -> bool {
    edges.len() <= u64::MAX && ids.len() <= u64::MAX && nw_encodable(nw)
}

/// Relies on `char::from_u32`: it returns the character of a valid
/// Unicode scalar value, and nothing otherwise.
#[verifier::external_body]
fn char_from_u64(w: u64) -> (r: Option<char>)
    ensures
        (match r {
            Some(c) => valid_char_word(w) && c as u64 == w && c == (w as char),
            None => !valid_char_word(w),
        }),
{
    if w > 0x10FFFF {
        None
    } else {
        char::from_u32(w as u32)
    }
}

// The words of each model component, in the order written.

pub open spec fn wo_char_items(s: Seq<char>) -> Seq<u64>
    decreases s.len(),
{
    if s.len() == 0 {
        Seq::empty()
    } else {
        seq![s[0] as u64] + wo_char_items(s.drop_first())
    }
}

pub open spec fn wo_str(s: Seq<char>) -> Seq<u64> {
    seq![s.len() as u64] + wo_char_items(s)
}

pub open spec fn wo_tag_items(tags: Seq<(Seq<char>, Seq<char>)>) -> Seq<u64>
    decreases tags.len(),
{
    if tags.len() == 0 {
        Seq::empty()
    } else {
        wo_str(tags[0].0) + wo_str(tags[0].1) + wo_tag_items(tags.drop_first())
    }
}

pub open spec fn wo_tags(tags: Seq<(Seq<char>, Seq<char>)>) -> Seq<u64> {
    seq![tags.len() as u64] + wo_tag_items(tags)
}

pub open spec fn wo_i64_items(ids: Seq<i64>) -> Seq<u64>
    decreases ids.len(),
{
    if ids.len() == 0 {
        Seq::empty()
    } else {
        seq![ids[0] as u64] + wo_i64_items(ids.drop_first())
    }
}

pub open spec fn wo_i64s(ids: Seq<i64>) -> Seq<u64> {
    seq![ids.len() as u64] + wo_i64_items(ids)
}

pub open spec fn wo_way(w: WayView) -> Seq<u64> {
    seq![w.id as u64] + wo_tags(w.tags) + wo_i64s(w.nodes)
}

pub open spec fn wo_way_items(ws: Seq<WayView>) -> Seq<u64>
    decreases ws.len(),
{
    if ws.len() == 0 {
        Seq::empty()
    } else {
        wo_way(ws[0]) + wo_way_items(ws.drop_first())
    }
}

pub open spec fn wo_ways(ws: Seq<WayView>) -> Seq<u64> {
    seq![ws.len() as u64] + wo_way_items(ws)
}

pub open spec fn wo_edge_items(edges: Seq<(usize, usize, usize)>) -> Seq<u64>
    decreases edges.len(),
{
    if edges.len() == 0 {
        Seq::empty()
    } else {
        seq![edges[0].0 as u64, edges[0].1 as u64, edges[0].2 as u64] + wo_edge_items(
            edges.drop_first(),
        )
    }
}

pub open spec fn wo_edges(edges: Seq<(usize, usize, usize)>) -> Seq<u64> {
    seq![edges.len() as u64] + wo_edge_items(edges)
}

pub open spec fn wo_nw_items(nw: Seq<(i64, Seq<WayView>)>) -> Seq<u64>
    decreases nw.len(),
{
    if nw.len() == 0 {
        Seq::empty()
    } else {
        seq![nw[0].0 as u64] + wo_ways(nw[0].1) + wo_nw_items(nw.drop_first())
    }
}

pub open spec fn wo_nodeways(nw: Seq<(i64, Seq<WayView>)>) -> Seq<u64> {
    seq![nw.len() as u64] + wo_nw_items(nw)
}

/// The format version this codec writes and reads.
pub open spec fn format_version() -> u64 {
    1
}

/// The words of the whole persisted model.
pub open spec fn wo_model(
    edges: Seq<(usize, usize, usize)>,
    ids: Seq<i64>,
    nw: Seq<(i64, Seq<WayView>)>,
) -> Seq<u64> {
    seq![format_version()] + wo_edges(edges) + wo_i64s(ids) + wo_nodeways(nw)
}

/// The bytes of the whole persisted model.
pub open spec fn spec_blob(
    edges: Seq<(usize, usize, usize)>,
    ids: Seq<i64>,
    nw: Seq<(i64, Seq<WayView>)>,
) -> Seq<u8> {
    enc_words(wo_model(edges, ids, nw))
}

// The parsers, one per component: each takes the word sequence and a
// position and yields the parsed value with the next position, or
// nothing where the words cannot be read as one.

pub open spec fn p_word(ws: Seq<u64>, pos: int) -> Option<(u64, int)> {
    if 0 <= pos < ws.len() {
        Some((ws[pos], pos + 1))
    } else {
        None
    }
}

pub open spec fn p_char_items(ws: Seq<u64>, pos: int, count: nat) -> Option<(Seq<char>, int)>
    decreases count,
{
    if count == 0 {
        Some((Seq::empty(), pos))
    } else {
        match p_word(ws, pos) {
            Some((w, p1)) => if valid_char_word(w) {
                match p_char_items(ws, p1, (count - 1) as nat) {
                    Some((rest, p2)) => Some((seq![w as char] + rest, p2)),
                    None => None,
                }
            } else {
                None
            },
            None => None,
        }
    }
}

pub open spec fn p_str(ws: Seq<u64>, pos: int) -> Option<(Seq<char>, int)> {
    match p_word(ws, pos) {
        Some((n, p1)) => p_char_items(ws, p1, n as nat),
        None => None,
    }
}

pub open spec fn p_tag_items(ws: Seq<u64>, pos: int, count: nat) -> Option<
    (Seq<(Seq<char>, Seq<char>)>, int),
>
    decreases count,
{
    if count == 0 {
        Some((Seq::empty(), pos))
    } else {
        match p_str(ws, pos) {
            Some((k, p1)) => match p_str(ws, p1) {
                Some((v, p2)) => match p_tag_items(ws, p2, (count - 1) as nat) {
                    Some((rest, p3)) => Some((seq![(k, v)] + rest, p3)),
                    None => None,
                },
                None => None,
            },
            None => None,
        }
    }
}

pub open spec fn p_tags(ws: Seq<u64>, pos: int) -> Option<(Seq<(Seq<char>, Seq<char>)>, int)> {
    match p_word(ws, pos) {
        Some((n, p1)) => p_tag_items(ws, p1, n as nat),
        None => None,
    }
}

pub open spec fn p_i64_items(ws: Seq<u64>, pos: int, count: nat) -> Option<(Seq<i64>, int)>
    decreases count,
{
    if count == 0 {
        Some((Seq::empty(), pos))
    } else {
        match p_word(ws, pos) {
            Some((w, p1)) => match p_i64_items(ws, p1, (count - 1) as nat) {
                Some((rest, p2)) => Some((seq![w as i64] + rest, p2)),
                None => None,
            },
            None => None,
        }
    }
}

pub open spec fn p_i64s(ws: Seq<u64>, pos: int) -> Option<(Seq<i64>, int)> {
    match p_word(ws, pos) {
        Some((n, p1)) => p_i64_items(ws, p1, n as nat),
        None => None,
    }
}

pub open spec fn p_way(ws: Seq<u64>, pos: int) -> Option<(WayView, int)> {
    match p_word(ws, pos) {
        Some((idw, p1)) => match p_tags(ws, p1) {
            Some((tags, p2)) => match p_i64s(ws, p2) {
                Some((nodes, p3)) => Some((WayView { id: idw as i64, tags, nodes }, p3)),
                None => None,
            },
            None => None,
        },
        None => None,
    }
}

pub open spec fn p_way_items(ws: Seq<u64>, pos: int, count: nat) -> Option<(Seq<WayView>, int)>
    decreases count,
{
    if count == 0 {
        Some((Seq::empty(), pos))
    } else {
        match p_way(ws, pos) {
            Some((w, p1)) => match p_way_items(ws, p1, (count - 1) as nat) {
                Some((rest, p2)) => Some((seq![w] + rest, p2)),
                None => None,
            },
            None => None,
        }
    }
}

pub open spec fn p_ways(ws: Seq<u64>, pos: int) -> Option<(Seq<WayView>, int)> {
    match p_word(ws, pos) {
        Some((n, p1)) => p_way_items(ws, p1, n as nat),
        None => None,
    }
}

pub open spec fn p_edge_items(ws: Seq<u64>, pos: int, count: nat) -> Option<
    (Seq<(usize, usize, usize)>, int),
>
    decreases count,
{
    if count == 0 {
        Some((Seq::empty(), pos))
    } else {
        match p_word(ws, pos) {
            Some((a, p1)) => match p_word(ws, p1) {
                Some((b, p2)) => match p_word(ws, p2) {
                    Some((c, p3)) => if a <= usize::MAX as u64 && b <= usize::MAX as u64 && c
                        <= usize::MAX as u64 {
                        match p_edge_items(ws, p3, (count - 1) as nat) {
                            Some((rest, p4)) => Some(
                                (seq![(a as usize, b as usize, c as usize)] + rest, p4),
                            ),
                            None => None,
                        }
                    } else {
                        None
                    },
                    None => None,
                },
                None => None,
            },
            None => None,
        }
    }
}

pub open spec fn p_edges(ws: Seq<u64>, pos: int) -> Option<(Seq<(usize, usize, usize)>, int)> {
    match p_word(ws, pos) {
        Some((n, p1)) => p_edge_items(ws, p1, n as nat),
        None => None,
    }
}

pub open spec fn p_nw_items(ws: Seq<u64>, pos: int, count: nat) -> Option<
    (Seq<(i64, Seq<WayView>)>, int),
>
    decreases count,
{
    if count == 0 {
        Some((Seq::empty(), pos))
    } else {
        match p_word(ws, pos) {
            Some((idw, p1)) => match p_ways(ws, p1) {
                Some((wys, p2)) => match p_nw_items(ws, p2, (count - 1) as nat) {
                    Some((rest, p3)) => Some((seq![(idw as i64, wys)] + rest, p3)),
                    None => None,
                },
                None => None,
            },
            None => None,
        }
    }
}

pub open spec fn p_nodeways(ws: Seq<u64>, pos: int) -> Option<(Seq<(i64, Seq<WayView>)>, int)> {
    match p_word(ws, pos) {
        Some((n, p1)) => p_nw_items(ws, p1, n as nat),
        None => None,
    }
}

/// Parses the structure of a whole persisted model: the version must
/// match and the words must be fully consumed.
pub open spec fn p_model(ws: Seq<u64>) -> Option<
    (Seq<(usize, usize, usize)>, Seq<i64>, Seq<(i64, Seq<WayView>)>),
> {
    match p_word(ws, 0) {
        Some((ver, p0)) => if ver == format_version() {
            match p_edges(ws, p0) {
                Some((edges, p1)) => match p_i64s(ws, p1) {
                    Some((ids, p2)) => match p_nodeways(ws, p2) {
                        Some((nw, p3)) => if p3 == ws.len() {
                            Some((edges, ids, nw))
                        } else {
                            None
                        },
                        None => None,
                    },
                    None => None,
                },
                None => None,
            }
        } else {
            None
        },
        None => None,
    }
}

/// A decoded model is admissible: the id list and the table keys are
/// free of repeats, and every edge joins two distinct indices below the
/// id count with a positive weight.
pub open spec fn model_admissible(
    edges: Seq<(usize, usize, usize)>,
    ids: Seq<i64>,
    nw: Seq<(i64, Seq<WayView>)>,
) -> bool {
    &&& crate::structure::distinct_ids(ids)
    &&& crate::structure::distinct_ids(nw.map_values(|p: (i64, Seq<WayView>)| p.0))
    &&& crate::network::edges_ok(edges, ids.len() as int)
}

/// What a persisted byte blob holds, if it is well formed and
/// admissible.
pub open spec fn spec_parse_network(b: Seq<u8>) -> Option<
    (Seq<(usize, usize, usize)>, Seq<i64>, Seq<(i64, Seq<WayView>)>),
> {
    if b.len() % 8 == 0 {
        match p_model(words_of_bytes(b)) {
            Some((edges, ids, nw)) => if model_admissible(edges, ids, nw) {
                Some((edges, ids, nw))
            } else {
                None
            },
            None => None,
        }
    } else {
        None
    }
}

proof fn lemma_i64_roundtrip(x: i64)
    ensures
        ((x as u64) as i64) == x,
{
    assert(((x as u64) as i64) == x) by (bit_vector);
}

proof fn lemma_p_char_items(ws: Seq<u64>, pos: int, items: Seq<char>)
    requires
        valid_chars(items),
        0 <= pos,
        pos + wo_char_items(items).len() <= ws.len(),
        ws.subrange(pos, pos + wo_char_items(items).len()) == wo_char_items(items),
    ensures
        p_char_items(ws, pos, items.len()) == Some((items, pos + wo_char_items(items).len())),
    decreases items.len(),
{
    let wo = wo_char_items(items);
    if items.len() == 0 {
        assert(p_char_items(ws, pos, 0) == Some((Seq::<char>::empty(), pos)));
        assert(Seq::<char>::empty() =~= items);
    } else {
        let rest = wo_char_items(items.drop_first());
        assert(wo == seq![items[0] as u64] + rest);
        assert(ws[pos] == wo[0]);
        assert(wo[0] == items[0] as u64);
        assert(valid_char_word(items[0] as u64));
        assert((items[0] as u64) as char == items[0]);
        assert forall|i: int| 0 <= i < items.drop_first().len() implies {
            let v = (#[trigger] items.drop_first()[i]) as int;
            0 <= v < 0xD800 || 0xE000 <= v <= 0x10FFFF
        } by {
            assert(items.drop_first()[i] == items[i + 1]);
        }
        assert(ws.subrange(pos + 1, pos + 1 + rest.len()) =~= wo.subrange(1, wo.len() as int));
        assert(wo.subrange(1, wo.len() as int) =~= rest);
        lemma_p_char_items(ws, pos + 1, items.drop_first());
        assert(seq![items[0]] + items.drop_first() =~= items);
    }
}

proof fn lemma_p_str(ws: Seq<u64>, pos: int, s: Seq<char>)
    requires
        str_encodable(s),
        0 <= pos,
        pos + wo_str(s).len() <= ws.len(),
        ws.subrange(pos, pos + wo_str(s).len()) == wo_str(s),
    ensures
        p_str(ws, pos) == Some((s, pos + wo_str(s).len())),
{
    let wo = wo_str(s);
    assert(ws[pos] == wo[0]);
    assert(wo[0] == s.len() as u64);
    assert(ws.subrange(pos + 1, pos + 1 + wo_char_items(s).len()) =~= wo.subrange(
        1,
        wo.len() as int,
    ));
    assert(wo.subrange(1, wo.len() as int) =~= wo_char_items(s));
    lemma_p_char_items(ws, pos + 1, s);
    assert((s.len() as u64) as nat == s.len());
}

proof fn lemma_p_tag_items(ws: Seq<u64>, pos: int, items: Seq<(Seq<char>, Seq<char>)>)
    requires
        tag_items_encodable(items),
        0 <= pos,
        pos + wo_tag_items(items).len() <= ws.len(),
        ws.subrange(pos, pos + wo_tag_items(items).len()) == wo_tag_items(items),
    ensures
        p_tag_items(ws, pos, items.len()) == Some((items, pos + wo_tag_items(items).len())),
    decreases items.len(),
{
    let wo = wo_tag_items(items);
    if items.len() == 0 {
        assert(Seq::<(Seq<char>, Seq<char>)>::empty() =~= items);
    } else {
        let k = items[0].0;
        let v = items[0].1;
        let rest = wo_tag_items(items.drop_first());
        assert(wo == wo_str(k) + wo_str(v) + rest);
        let l1 = wo_str(k).len();
        let l2 = wo_str(v).len();
        assert(ws.subrange(pos, pos + l1) =~= wo.subrange(0, l1 as int));
        assert(wo.subrange(0, l1 as int) =~= wo_str(k));
        lemma_p_str(ws, pos, k);
        assert(ws.subrange(pos + l1, pos + l1 + l2) =~= wo.subrange(l1 as int, (l1 + l2) as int));
        assert(wo.subrange(l1 as int, (l1 + l2) as int) =~= wo_str(v));
        lemma_p_str(ws, pos + l1, v);
        assert forall|i: int| 0 <= i < items.drop_first().len() implies str_encodable(
            (#[trigger] items.drop_first()[i]).0,
        ) && str_encodable(items.drop_first()[i].1) by {
            assert(items.drop_first()[i] == items[i + 1]);
        }
        assert(ws.subrange(pos + l1 + l2, pos + wo.len()) =~= wo.subrange(
            (l1 + l2) as int,
            wo.len() as int,
        ));
        assert(wo.subrange((l1 + l2) as int, wo.len() as int) =~= rest);
        lemma_p_tag_items(ws, pos + l1 + l2, items.drop_first());
        assert(seq![(k, v)] + items.drop_first() =~= items);
    }
}

proof fn lemma_p_tags(ws: Seq<u64>, pos: int, tags: Seq<(Seq<char>, Seq<char>)>)
    requires
        tags_encodable(tags),
        0 <= pos,
        pos + wo_tags(tags).len() <= ws.len(),
        ws.subrange(pos, pos + wo_tags(tags).len()) == wo_tags(tags),
    ensures
        p_tags(ws, pos) == Some((tags, pos + wo_tags(tags).len())),
{
    let wo = wo_tags(tags);
    assert(ws[pos] == wo[0]);
    assert(wo[0] == tags.len() as u64);
    assert(ws.subrange(pos + 1, pos + 1 + wo_tag_items(tags).len()) =~= wo.subrange(
        1,
        wo.len() as int,
    ));
    assert(wo.subrange(1, wo.len() as int) =~= wo_tag_items(tags));
    lemma_p_tag_items(ws, pos + 1, tags);
    assert((tags.len() as u64) as nat == tags.len());
}

proof fn lemma_p_i64_items(ws: Seq<u64>, pos: int, items: Seq<i64>)
    requires
        0 <= pos,
        pos + wo_i64_items(items).len() <= ws.len(),
        ws.subrange(pos, pos + wo_i64_items(items).len()) == wo_i64_items(items),
    ensures
        p_i64_items(ws, pos, items.len()) == Some((items, pos + wo_i64_items(items).len())),
    decreases items.len(),
{
    let wo = wo_i64_items(items);
    if items.len() == 0 {
        assert(Seq::<i64>::empty() =~= items);
    } else {
        let rest = wo_i64_items(items.drop_first());
        assert(wo == seq![items[0] as u64] + rest);
        assert(ws[pos] == wo[0]);
        assert(wo[0] == items[0] as u64);
        lemma_i64_roundtrip(items[0]);
        assert(ws.subrange(pos + 1, pos + 1 + rest.len()) =~= wo.subrange(1, wo.len() as int));
        assert(wo.subrange(1, wo.len() as int) =~= rest);
        lemma_p_i64_items(ws, pos + 1, items.drop_first());
        assert(seq![items[0]] + items.drop_first() =~= items);
    }
}

proof fn lemma_p_i64s(ws: Seq<u64>, pos: int, ids: Seq<i64>)
    requires
        ids.len() <= u64::MAX,
        0 <= pos,
        pos + wo_i64s(ids).len() <= ws.len(),
        ws.subrange(pos, pos + wo_i64s(ids).len()) == wo_i64s(ids),
    ensures
        p_i64s(ws, pos) == Some((ids, pos + wo_i64s(ids).len())),
{
    let wo = wo_i64s(ids);
    assert(ws[pos] == wo[0]);
    assert(wo[0] == ids.len() as u64);
    assert(ws.subrange(pos + 1, pos + 1 + wo_i64_items(ids).len()) =~= wo.subrange(
        1,
        wo.len() as int,
    ));
    assert(wo.subrange(1, wo.len() as int) =~= wo_i64_items(ids));
    lemma_p_i64_items(ws, pos + 1, ids);
    assert((ids.len() as u64) as nat == ids.len());
}

proof fn lemma_p_way(ws: Seq<u64>, pos: int, w: WayView)
    requires
        way_encodable(w),
        0 <= pos,
        pos + wo_way(w).len() <= ws.len(),
        ws.subrange(pos, pos + wo_way(w).len()) == wo_way(w),
    ensures
        p_way(ws, pos) == Some((w, pos + wo_way(w).len())),
{
    let wo = wo_way(w);
    assert(ws[pos] == wo[0]);
    assert(wo[0] == w.id as u64);
    lemma_i64_roundtrip(w.id);
    let l1 = wo_tags(w.tags).len();
    let l2 = wo_i64s(w.nodes).len();
    assert(ws.subrange(pos + 1, pos + 1 + l1) =~= wo.subrange(1, (1 + l1) as int));
    assert(wo.subrange(1, (1 + l1) as int) =~= wo_tags(w.tags));
    lemma_p_tags(ws, pos + 1, w.tags);
    assert(ws.subrange(pos + 1 + l1, pos + 1 + l1 + l2) =~= wo.subrange(
        (1 + l1) as int,
        (1 + l1 + l2) as int,
    ));
    assert(wo.subrange((1 + l1) as int, (1 + l1 + l2) as int) =~= wo_i64s(w.nodes));
    lemma_p_i64s(ws, pos + 1 + l1, w.nodes);
    assert(WayView { id: (w.id as u64) as i64, tags: w.tags, nodes: w.nodes } == w);
}

proof fn lemma_p_way_items(ws: Seq<u64>, pos: int, items: Seq<WayView>)
    requires
        way_items_encodable(items),
        0 <= pos,
        pos + wo_way_items(items).len() <= ws.len(),
        ws.subrange(pos, pos + wo_way_items(items).len()) == wo_way_items(items),
    ensures
        p_way_items(ws, pos, items.len()) == Some((items, pos + wo_way_items(items).len())),
    decreases items.len(),
{
    let wo = wo_way_items(items);
    if items.len() == 0 {
        assert(Seq::<WayView>::empty() =~= items);
    } else {
        let rest = wo_way_items(items.drop_first());
        assert(wo == wo_way(items[0]) + rest);
        let l1 = wo_way(items[0]).len();
        assert(ws.subrange(pos, pos + l1) =~= wo.subrange(0, l1 as int));
        assert(wo.subrange(0, l1 as int) =~= wo_way(items[0]));
        lemma_p_way(ws, pos, items[0]);
        assert forall|i: int| 0 <= i < items.drop_first().len() implies way_encodable(
            #[trigger] items.drop_first()[i],
        ) by {
            assert(items.drop_first()[i] == items[i + 1]);
        }
        assert(ws.subrange(pos + l1, pos + wo.len()) =~= wo.subrange(l1 as int, wo.len() as int));
        assert(wo.subrange(l1 as int, wo.len() as int) =~= rest);
        lemma_p_way_items(ws, pos + l1, items.drop_first());
        assert(seq![items[0]] + items.drop_first() =~= items);
    }
}

proof fn lemma_p_ways(ws: Seq<u64>, pos: int, items: Seq<WayView>)
    requires
        ways_encodable(items),
        0 <= pos,
        pos + wo_ways(items).len() <= ws.len(),
        ws.subrange(pos, pos + wo_ways(items).len()) == wo_ways(items),
    ensures
        p_ways(ws, pos) == Some((items, pos + wo_ways(items).len())),
{
    let wo = wo_ways(items);
    assert(ws[pos] == wo[0]);
    assert(wo[0] == items.len() as u64);
    assert(ws.subrange(pos + 1, pos + 1 + wo_way_items(items).len()) =~= wo.subrange(
        1,
        wo.len() as int,
    ));
    assert(wo.subrange(1, wo.len() as int) =~= wo_way_items(items));
    lemma_p_way_items(ws, pos + 1, items);
    assert((items.len() as u64) as nat == items.len());
}

proof fn lemma_p_edge_items(ws: Seq<u64>, pos: int, items: Seq<(usize, usize, usize)>)
    requires
        0 <= pos,
        pos + wo_edge_items(items).len() <= ws.len(),
        ws.subrange(pos, pos + wo_edge_items(items).len()) == wo_edge_items(items),
    ensures
        p_edge_items(ws, pos, items.len()) == Some((items, pos + wo_edge_items(items).len())),
    decreases items.len(),
{
    let wo = wo_edge_items(items);
    if items.len() == 0 {
        assert(Seq::<(usize, usize, usize)>::empty() =~= items);
    } else {
        let rest = wo_edge_items(items.drop_first());
        let e = items[0];
        assert(wo == seq![e.0 as u64, e.1 as u64, e.2 as u64] + rest);
        assert(ws[pos] == wo[0] && ws[pos + 1] == wo[1] && ws[pos + 2] == wo[2]);
        assert(ws.subrange(pos + 3, pos + 3 + rest.len()) =~= wo.subrange(3, wo.len() as int));
        assert(wo.subrange(3, wo.len() as int) =~= rest);
        lemma_p_edge_items(ws, pos + 3, items.drop_first());
        assert(seq![(((e.0 as u64) as usize), ((e.1 as u64) as usize), ((e.2 as u64) as usize))]
            + items.drop_first() =~= items);
    }
}

proof fn lemma_p_edges(ws: Seq<u64>, pos: int, items: Seq<(usize, usize, usize)>)
    requires
        items.len() <= u64::MAX,
        0 <= pos,
        pos + wo_edges(items).len() <= ws.len(),
        ws.subrange(pos, pos + wo_edges(items).len()) == wo_edges(items),
    ensures
        p_edges(ws, pos) == Some((items, pos + wo_edges(items).len())),
{
    let wo = wo_edges(items);
    assert(ws[pos] == wo[0]);
    assert(wo[0] == items.len() as u64);
    assert(ws.subrange(pos + 1, pos + 1 + wo_edge_items(items).len()) =~= wo.subrange(
        1,
        wo.len() as int,
    ));
    assert(wo.subrange(1, wo.len() as int) =~= wo_edge_items(items));
    lemma_p_edge_items(ws, pos + 1, items);
    assert((items.len() as u64) as nat == items.len());
}

proof fn lemma_p_nw_items(ws: Seq<u64>, pos: int, items: Seq<(i64, Seq<WayView>)>)
    requires
        nw_items_encodable(items),
        0 <= pos,
        pos + wo_nw_items(items).len() <= ws.len(),
        ws.subrange(pos, pos + wo_nw_items(items).len()) == wo_nw_items(items),
    ensures
        p_nw_items(ws, pos, items.len()) == Some((items, pos + wo_nw_items(items).len())),
    decreases items.len(),
{
    let wo = wo_nw_items(items);
    if items.len() == 0 {
        assert(Seq::<(i64, Seq<WayView>)>::empty() =~= items);
    } else {
        let rest = wo_nw_items(items.drop_first());
        let e = items[0];
        assert(wo == seq![e.0 as u64] + wo_ways(e.1) + rest);
        assert(ws[pos] == wo[0]);
        assert(wo[0] == e.0 as u64);
        lemma_i64_roundtrip(e.0);
        let l1 = wo_ways(e.1).len();
        assert(ws.subrange(pos + 1, pos + 1 + l1) =~= wo.subrange(1, (1 + l1) as int));
        assert(wo.subrange(1, (1 + l1) as int) =~= wo_ways(e.1));
        lemma_p_ways(ws, pos + 1, e.1);
        assert forall|i: int| 0 <= i < items.drop_first().len() implies ways_encodable(
            (#[trigger] items.drop_first()[i]).1,
        ) by {
            assert(items.drop_first()[i] == items[i + 1]);
        }
        assert(ws.subrange(pos + 1 + l1, pos + wo.len()) =~= wo.subrange(
            (1 + l1) as int,
            wo.len() as int,
        ));
        assert(wo.subrange((1 + l1) as int, wo.len() as int) =~= rest);
        lemma_p_nw_items(ws, pos + 1 + l1, items.drop_first());
        assert(seq![(((e.0 as u64) as i64), e.1)] + items.drop_first() =~= items);
    }
}

proof fn lemma_p_nodeways(ws: Seq<u64>, pos: int, items: Seq<(i64, Seq<WayView>)>)
    requires
        nw_encodable(items),
        0 <= pos,
        pos + wo_nodeways(items).len() <= ws.len(),
        ws.subrange(pos, pos + wo_nodeways(items).len()) == wo_nodeways(items),
    ensures
        p_nodeways(ws, pos) == Some((items, pos + wo_nodeways(items).len())),
{
    let wo = wo_nodeways(items);
    assert(ws[pos] == wo[0]);
    assert(wo[0] == items.len() as u64);
    assert(ws.subrange(pos + 1, pos + 1 + wo_nw_items(items).len()) =~= wo.subrange(
        1,
        wo.len() as int,
    ));
    assert(wo.subrange(1, wo.len() as int) =~= wo_nw_items(items));
    lemma_p_nw_items(ws, pos + 1, items);
    assert((items.len() as u64) as nat == items.len());
}

/// Reading back a persisted model yields it exactly: the round-trip
/// law of the persistence format, for every model the builder can
/// produce.
pub proof fn lemma_parse_blob(
    edges: Seq<(usize, usize, usize)>,
    ids: Seq<i64>,
    nw: Seq<(i64, Seq<WayView>)>,
)
    requires
        model_encodable(edges, ids, nw),
        crate::structure::distinct_ids(ids),
        crate::structure::distinct_ids(nw.map_values(|p: (i64, Seq<WayView>)| p.0)),
        crate::network::edges_ok(edges, ids.len() as int),
    ensures
        spec_parse_network(spec_blob(edges, ids, nw)) == Some((edges, ids, nw)),
{
    let ws = wo_model(edges, ids, nw);
    lemma_words_of_enc(ws);
    assert(ws[0] == format_version());
    let l1 = wo_edges(edges).len() as int;
    let l2 = wo_i64s(ids).len() as int;
    let l3 = wo_nodeways(nw).len() as int;
    assert(ws.len() == 1 + l1 + l2 + l3);
    assert(ws.subrange(1, 1 + l1) =~= wo_edges(edges));
    lemma_p_edges(ws, 1, edges);
    assert(ws.subrange(1 + l1, 1 + l1 + l2) =~= wo_i64s(ids));
    lemma_p_i64s(ws, 1 + l1, ids);
    assert(ws.subrange(1 + l1 + l2, 1 + l1 + l2 + l3) =~= wo_nodeways(nw));
    lemma_p_nodeways(ws, 1 + l1 + l2, nw);
}

// Push lemmas: appending one item to a list appends its words.

proof fn lemma_wo_char_push(s: Seq<char>, c: char)
    ensures
        wo_char_items(s.push(c)) == wo_char_items(s) + seq![c as u64],
    decreases s.len(),
{
    reveal_with_fuel(wo_char_items, 3);
    if s.len() == 0 {
        assert(s.push(c).drop_first() =~= Seq::<char>::empty());
        assert(wo_char_items(s.push(c)) =~= seq![c as u64]);
        assert(wo_char_items(s) + seq![c as u64] =~= seq![c as u64]);
    } else {
        assert(s.push(c).drop_first() =~= s.drop_first().push(c));
        assert(s.push(c)[0] == s[0]);
        lemma_wo_char_push(s.drop_first(), c);
        assert(seq![s[0] as u64] + (wo_char_items(s.drop_first()) + seq![c as u64]) =~= (seq![
            s[0] as u64,
        ] + wo_char_items(s.drop_first())) + seq![c as u64]);
    }
}

proof fn lemma_wo_tag_push(tags: Seq<(Seq<char>, Seq<char>)>, t: (Seq<char>, Seq<char>))
    ensures
        wo_tag_items(tags.push(t)) == wo_tag_items(tags) + wo_str(t.0) + wo_str(t.1),
    decreases tags.len(),
{
    reveal_with_fuel(wo_tag_items, 3);
    if tags.len() == 0 {
        assert(tags.push(t).drop_first() =~= Seq::<(Seq<char>, Seq<char>)>::empty());
        assert(tags.push(t)[0] == t);
        assert(wo_tag_items(tags.push(t)) =~= wo_str(t.0) + wo_str(t.1));
        assert(wo_tag_items(tags) + wo_str(t.0) + wo_str(t.1) =~= wo_str(t.0) + wo_str(t.1));
    } else {
        assert(tags.push(t).drop_first() =~= tags.drop_first().push(t));
        assert(tags.push(t)[0] == tags[0]);
        lemma_wo_tag_push(tags.drop_first(), t);
        assert(wo_str(tags[0].0) + wo_str(tags[0].1) + (wo_tag_items(tags.drop_first()) + wo_str(
            t.0,
        ) + wo_str(t.1)) =~= (wo_str(tags[0].0) + wo_str(tags[0].1) + wo_tag_items(
            tags.drop_first(),
        )) + wo_str(t.0) + wo_str(t.1));
    }
}

proof fn lemma_wo_i64_push(ids: Seq<i64>, x: i64)
    ensures
        wo_i64_items(ids.push(x)) == wo_i64_items(ids) + seq![x as u64],
    decreases ids.len(),
{
    reveal_with_fuel(wo_i64_items, 3);
    if ids.len() == 0 {
        assert(ids.push(x).drop_first() =~= Seq::<i64>::empty());
        assert(wo_i64_items(ids.push(x)) =~= seq![x as u64]);
        assert(wo_i64_items(ids) + seq![x as u64] =~= seq![x as u64]);
    } else {
        assert(ids.push(x).drop_first() =~= ids.drop_first().push(x));
        assert(ids.push(x)[0] == ids[0]);
        lemma_wo_i64_push(ids.drop_first(), x);
        assert(seq![ids[0] as u64] + (wo_i64_items(ids.drop_first()) + seq![x as u64]) =~= (seq![
            ids[0] as u64,
        ] + wo_i64_items(ids.drop_first())) + seq![x as u64]);
    }
}

proof fn lemma_wo_edge_push(edges: Seq<(usize, usize, usize)>, e: (usize, usize, usize))
    ensures
        wo_edge_items(edges.push(e)) == wo_edge_items(edges) + seq![
            e.0 as u64,
            e.1 as u64,
            e.2 as u64,
        ],
    decreases edges.len(),
{
    reveal_with_fuel(wo_edge_items, 3);
    let tail = seq![e.0 as u64, e.1 as u64, e.2 as u64];
    if edges.len() == 0 {
        assert(edges.push(e).drop_first() =~= Seq::<(usize, usize, usize)>::empty());
        assert(edges.push(e)[0] == e);
        assert(wo_edge_items(edges.push(e)) =~= tail);
        assert(wo_edge_items(edges) + tail =~= tail);
    } else {
        assert(edges.push(e).drop_first() =~= edges.drop_first().push(e));
        assert(edges.push(e)[0] == edges[0]);
        lemma_wo_edge_push(edges.drop_first(), e);
        let head = seq![edges[0].0 as u64, edges[0].1 as u64, edges[0].2 as u64];
        assert(head + (wo_edge_items(edges.drop_first()) + tail) =~= (head + wo_edge_items(
            edges.drop_first(),
        )) + tail);
    }
}

proof fn lemma_wo_way_push(ws: Seq<WayView>, w: WayView)
    ensures
        wo_way_items(ws.push(w)) == wo_way_items(ws) + wo_way(w),
    decreases ws.len(),
{
    reveal_with_fuel(wo_way_items, 3);
    if ws.len() == 0 {
        assert(ws.push(w).drop_first() =~= Seq::<WayView>::empty());
        assert(ws.push(w)[0] == w);
        assert(wo_way_items(ws.push(w)) =~= wo_way(w));
        assert(wo_way_items(ws) + wo_way(w) =~= wo_way(w));
    } else {
        assert(ws.push(w).drop_first() =~= ws.drop_first().push(w));
        assert(ws.push(w)[0] == ws[0]);
        lemma_wo_way_push(ws.drop_first(), w);
        assert(wo_way(ws[0]) + (wo_way_items(ws.drop_first()) + wo_way(w)) =~= (wo_way(ws[0])
            + wo_way_items(ws.drop_first())) + wo_way(w));
    }
}

proof fn lemma_wo_nw_push(nw: Seq<(i64, Seq<WayView>)>, e: (i64, Seq<WayView>))
    ensures
        wo_nw_items(nw.push(e)) == wo_nw_items(nw) + seq![e.0 as u64] + wo_ways(e.1),
    decreases nw.len(),
{
    reveal_with_fuel(wo_nw_items, 3);
    if nw.len() == 0 {
        assert(nw.push(e).drop_first() =~= Seq::<(i64, Seq<WayView>)>::empty());
        assert(nw.push(e)[0] == e);
        assert(wo_nw_items(nw.push(e)) =~= seq![e.0 as u64] + wo_ways(e.1));
        assert(wo_nw_items(nw) + seq![e.0 as u64] + wo_ways(e.1) =~= seq![e.0 as u64] + wo_ways(
            e.1,
        ));
    } else {
        assert(nw.push(e).drop_first() =~= nw.drop_first().push(e));
        assert(nw.push(e)[0] == nw[0]);
        lemma_wo_nw_push(nw.drop_first(), e);
        assert(seq![nw[0].0 as u64] + wo_ways(nw[0].1) + (wo_nw_items(nw.drop_first()) + seq![
            e.0 as u64,
        ] + wo_ways(e.1)) =~= (seq![nw[0].0 as u64] + wo_ways(nw[0].1) + wo_nw_items(
            nw.drop_first(),
        )) + seq![e.0 as u64] + wo_ways(e.1));
    }
}

// The encoders: each appends the words of one component.

/// Appends the words of a string: its character count, then one word
/// per character.
pub(crate) fn e_str(out: &mut Vec<u64>, s: &str)
    ensures
        final(out)@ == old(out)@ + wo_str(s@),
{
    let n = s.unicode_len();
    out.push(n as u64);
    let ghost base = out@;
    proof {
        assert(wo_char_items(s@.take(0)) =~= Seq::<u64>::empty());
        assert(out@ =~= base + wo_char_items(s@.take(0)));
    }
    for i in 0..n
        invariant
            n == s@.len(),
            out@ == base + wo_char_items(s@.take(i as int)),
    {
        let c = s.get_char(i);
        out.push(c as u64);
        proof {
            lemma_wo_char_push(s@.take(i as int), c);
            assert(s@.take(i as int).push(s@[i as int]) =~= s@.take(i as int + 1));
        }
    }
    proof {
        assert(s@.take(s@.len() as int) =~= s@);
        assert(base + wo_char_items(s@) =~= old(out)@ + wo_str(s@));
    }
}

/// Appends the words of a tag list.
pub(crate) fn e_tags(out: &mut Vec<u64>, tags: &Vec<(String, String)>)
    ensures
        final(out)@ == old(out)@ + wo_tags(
            tags@.map_values(|p: (String, String)| (p.0@, p.1@)),
        ),
{
    let ghost tv = tags@.map_values(|p: (String, String)| (p.0@, p.1@));
    out.push(tags.len() as u64);
    let ghost base = out@;
    proof {
        assert(wo_tag_items(tv.take(0)) =~= Seq::<u64>::empty());
        assert(out@ =~= base + wo_tag_items(tv.take(0)));
    }
    for i in 0..tags.len()
        invariant
            tv == tags@.map_values(|p: (String, String)| (p.0@, p.1@)),
            tv.len() == tags@.len(),
            out@ == base + wo_tag_items(tv.take(i as int)),
    {
        e_str(out, tags[i].0.as_str());
        e_str(out, tags[i].1.as_str());
        proof {
            lemma_wo_tag_push(tv.take(i as int), tv[i as int]);
            assert(tv.take(i as int).push(tv[i as int]) =~= tv.take(i as int + 1));
            assert(base + wo_tag_items(tv.take(i as int)) + wo_str(tv[i as int].0) + wo_str(
                tv[i as int].1,
            ) =~= base + (wo_tag_items(tv.take(i as int)) + wo_str(tv[i as int].0) + wo_str(
                tv[i as int].1,
            )));
        }
    }
    proof {
        assert(tv.take(tv.len() as int) =~= tv);
        assert(base + wo_tag_items(tv) =~= old(out)@ + wo_tags(tv));
    }
}

/// Appends the words of an id list.
pub(crate) fn e_i64s(out: &mut Vec<u64>, ids: &Vec<i64>)
    ensures
        final(out)@ == old(out)@ + wo_i64s(ids@),
{
    out.push(ids.len() as u64);
    let ghost base = out@;
    proof {
        assert(wo_i64_items(ids@.take(0)) =~= Seq::<u64>::empty());
        assert(out@ =~= base + wo_i64_items(ids@.take(0)));
    }
    for i in 0..ids.len()
        invariant
            out@ == base + wo_i64_items(ids@.take(i as int)),
    {
        out.push(ids[i] as u64);
        proof {
            lemma_wo_i64_push(ids@.take(i as int), ids@[i as int]);
            assert(ids@.take(i as int).push(ids@[i as int]) =~= ids@.take(i as int + 1));
            assert(base + wo_i64_items(ids@.take(i as int)) + seq![ids@[i as int] as u64] =~= base
                + (wo_i64_items(ids@.take(i as int)) + seq![ids@[i as int] as u64]));
        }
    }
    proof {
        assert(ids@.take(ids@.len() as int) =~= ids@);
        assert(base + wo_i64_items(ids@) =~= old(out)@ + wo_i64s(ids@));
    }
}

/// Appends the words of an edge list.
pub(crate) fn e_edges(out: &mut Vec<u64>, edges: &Vec<(usize, usize, usize)>)
    ensures
        final(out)@ == old(out)@ + wo_edges(edges@),
{
    out.push(edges.len() as u64);
    let ghost base = out@;
    proof {
        assert(wo_edge_items(edges@.take(0)) =~= Seq::<u64>::empty());
        assert(out@ =~= base + wo_edge_items(edges@.take(0)));
    }
    for i in 0..edges.len()
        invariant
            out@ == base + wo_edge_items(edges@.take(i as int)),
    {
        let (a, b, c) = edges[i];
        out.push(a as u64);
        out.push(b as u64);
        out.push(c as u64);
        proof {
            lemma_wo_edge_push(edges@.take(i as int), edges@[i as int]);
            assert(edges@.take(i as int).push(edges@[i as int]) =~= edges@.take(i as int + 1));
            assert(out@ =~= base + (wo_edge_items(edges@.take(i as int)) + seq![
                a as u64,
                b as u64,
                c as u64,
            ]));
        }
    }
    proof {
        assert(edges@.take(edges@.len() as int) =~= edges@);
        assert(base + wo_edge_items(edges@) =~= old(out)@ + wo_edges(edges@));
    }
}

/// Appends the words of one way.
pub(crate) fn e_way(out: &mut Vec<u64>, w: &Way)
    ensures
        final(out)@ == old(out)@ + wo_way(w@),
{
    out.push(w.id as u64);
    e_tags(out, &w.tags);
    e_i64s(out, &w.nodes);
    proof {
        assert(old(out)@ + seq![w.id as u64] + wo_tags(w@.tags) + wo_i64s(w@.nodes) =~= old(out)@
            + wo_way(w@));
    }
}

/// Appends the words of a way list.
pub(crate) fn e_ways(out: &mut Vec<u64>, ws: &Vec<Way>)
    ensures
        final(out)@ == old(out)@ + wo_ways(views_of(ws@)),
{
    let ghost wv = views_of(ws@);
    out.push(ws.len() as u64);
    let ghost base = out@;
    proof {
        assert(wo_way_items(wv.take(0)) =~= Seq::<u64>::empty());
        assert(out@ =~= base + wo_way_items(wv.take(0)));
    }
    for i in 0..ws.len()
        invariant
            wv == views_of(ws@),
            wv.len() == ws@.len(),
            out@ == base + wo_way_items(wv.take(i as int)),
    {
        e_way(out, &ws[i]);
        proof {
            lemma_wo_way_push(wv.take(i as int), wv[i as int]);
            assert(wv.take(i as int).push(wv[i as int]) =~= wv.take(i as int + 1));
            assert(out@ =~= base + (wo_way_items(wv.take(i as int)) + wo_way(wv[i as int])));
        }
    }
    proof {
        assert(wv.take(wv.len() as int) =~= wv);
        assert(base + wo_way_items(wv) =~= old(out)@ + wo_ways(wv));
    }
}

/// Appends the words of the node-to-ways table.
pub(crate) fn e_nodeways(out: &mut Vec<u64>, entries: &Vec<(i64, Vec<Way>)>)
    ensures
        final(out)@ == old(out)@ + wo_nodeways(
            entries@.map_values(|p: (i64, Vec<Way>)| (p.0, views_of(p.1@))),
        ),
{
    let ghost nv = entries@.map_values(|p: (i64, Vec<Way>)| (p.0, views_of(p.1@)));
    out.push(entries.len() as u64);
    let ghost base = out@;
    proof {
        assert(wo_nw_items(nv.take(0)) =~= Seq::<u64>::empty());
        assert(out@ =~= base + wo_nw_items(nv.take(0)));
    }
    for i in 0..entries.len()
        invariant
            nv == entries@.map_values(|p: (i64, Vec<Way>)| (p.0, views_of(p.1@))),
            nv.len() == entries@.len(),
            out@ == base + wo_nw_items(nv.take(i as int)),
    {
        out.push(entries[i].0 as u64);
        e_ways(out, &entries[i].1);
        proof {
            lemma_wo_nw_push(nv.take(i as int), nv[i as int]);
            assert(nv.take(i as int).push(nv[i as int]) =~= nv.take(i as int + 1));
            assert(out@ =~= base + (wo_nw_items(nv.take(i as int)) + seq![nv[i as int].0 as u64]
                + wo_ways(nv[i as int].1)));
        }
    }
    proof {
        assert(nv.take(nv.len() as int) =~= nv);
        assert(base + wo_nw_items(nv) =~= old(out)@ + wo_nodeways(nv));
    }
}

// The decoders: each reads one component at a word position, exactly
// as the corresponding parser describes.

fn d_word(ws: &Vec<u64>, pos: usize) -> (r: Option<(u64, usize)>)
    ensures
        (match r {
            Some(p) => p_word(ws@, pos as int) == Some((p.0, p.1 as int)) && p.1 <= ws@.len(),
            None => p_word(ws@, pos as int) is None,
        }),
{
    if pos < ws.len() {
        Some((ws[pos], pos + 1))
    } else {
        None
    }
}

/// Appends one decoded character onto a string being rebuilt.
/// Relies on `String::push`: it appends exactly the given character.
#[verifier::external_body]
fn push_char(s: &mut String, c: char)
    ensures
        final(s)@ == old(s)@.push(c),
{
    s.push(c);
}

fn d_str(ws: &Vec<u64>, pos: usize) -> (r: Option<(String, usize)>)
    ensures
        (match r {
            Some(p) => p_str(ws@, pos as int) == Some((p.0@, p.1 as int)) && p.1 <= ws@.len(),
            None => p_str(ws@, pos as int) is None,
        }),
{
    let (n, p1) = match d_word(ws, pos) {
        Some(p) => p,
        None => {
            return None;
        },
    };
    let mut acc = String::new();
    let mut cur = p1;
    let mut k: u64 = 0;
    proof {
        assert(acc@ + p_char_items(ws@, cur as int, (n - k) as nat)->Some_0.0 =~= p_char_items(
            ws@,
            cur as int,
            (n - k) as nat,
        )->Some_0.0);
    }
    while k < n
        invariant
            p_word(ws@, pos as int) == Some((n, p1 as int)),
            k <= n,
            cur <= ws@.len(),
            (match p_char_items(ws@, p1 as int, n as nat) {
                Some(q) => p_char_items(ws@, cur as int, (n - k) as nat) matches Some(t) && q.0
                    == acc@ + t.0 && q.1 == t.1,
                None => p_char_items(ws@, cur as int, (n - k) as nat) is None,
            }),
        decreases n - k,
    {
        let w = match d_word(ws, cur) {
            Some(p) => p,
            None => {
                return None;
            },
        };
        let c = match char_from_u64(w.0) {
            Some(c) => c,
            None => {
                return None;
            },
        };
        let ghost accpre = acc@;
        push_char(&mut acc, c);
        proof {
            assert(c == (w.0 as char));
            if p_char_items(ws@, cur as int, (n - k) as nat) is Some {
                let t = p_char_items(ws@, cur as int, (n - k) as nat)->Some_0;
                assert(accpre + t.0 =~= acc@ + p_char_items(
                    ws@,
                    w.1 as int,
                    (n - k - 1) as nat,
                )->Some_0.0);
            }
        }
        cur = w.1;
        k = k + 1;
    }
    proof {
        assert(p_char_items(ws@, cur as int, 0) == Some((Seq::<char>::empty(), cur as int)));
        if p_char_items(ws@, p1 as int, n as nat) is Some {
            assert(acc@ + Seq::<char>::empty() =~= acc@);
        }
    }
    Some((acc, cur))
}

fn d_tags(ws: &Vec<u64>, pos: usize) -> (r: Option<(Vec<(String, String)>, usize)>)
    ensures
        (match r {
            Some(p) => p_tags(ws@, pos as int) == Some(
                (p.0@.map_values(|q: (String, String)| (q.0@, q.1@)), p.1 as int),
            ) && p.1 <= ws@.len(),
            None => p_tags(ws@, pos as int) is None,
        }),
{
    let (n, p1) = match d_word(ws, pos) {
        Some(p) => p,
        None => {
            return None;
        },
    };
    let mut acc: Vec<(String, String)> = Vec::new();
    let mut cur = p1;
    let mut k: u64 = 0;
    proof {
        let ghost av = acc@.map_values(|q: (String, String)| (q.0@, q.1@));
        assert(av =~= Seq::<(Seq<char>, Seq<char>)>::empty());
        if p_tag_items(ws@, cur as int, (n - k) as nat) is Some {
            assert(av + p_tag_items(ws@, cur as int, (n - k) as nat)->Some_0.0 =~= p_tag_items(
                ws@,
                cur as int,
                (n - k) as nat,
            )->Some_0.0);
        }
    }
    while k < n
        invariant
            p_word(ws@, pos as int) == Some((n, p1 as int)),
            k <= n,
            cur <= ws@.len(),
            (match p_tag_items(ws@, p1 as int, n as nat) {
                Some(q) => p_tag_items(ws@, cur as int, (n - k) as nat) matches Some(t) && q.0
                    == acc@.map_values(|q2: (String, String)| (q2.0@, q2.1@)) + t.0 && q.1 == t.1,
                None => p_tag_items(ws@, cur as int, (n - k) as nat) is None,
            }),
        decreases n - k,
    {
        let kv = match d_str(ws, cur) {
            Some(p) => p,
            None => {
                return None;
            },
        };
        let vv = match d_str(ws, kv.1) {
            Some(p) => p,
            None => {
                return None;
            },
        };
        let ghost accpre = acc@.map_values(|q2: (String, String)| (q2.0@, q2.1@));
        let ghost kvc = kv.0;
        let ghost vvc = vv.0;
        acc.push((kv.0, vv.0));
        proof {
            assert(acc@.map_values(|q2: (String, String)| (q2.0@, q2.1@)) =~= accpre.push(
                (kvc@, vvc@),
            ));
            if p_tag_items(ws@, cur as int, (n - k) as nat) is Some {
                let t = p_tag_items(ws@, cur as int, (n - k) as nat)->Some_0;
                assert(accpre + t.0 =~= accpre.push((kvc@, vvc@)) + p_tag_items(
                    ws@,
                    vv.1 as int,
                    (n - k - 1) as nat,
                )->Some_0.0);
            }
        }
        cur = vv.1;
        k = k + 1;
    }
    proof {
        assert(p_tag_items(ws@, cur as int, 0) == Some(
            (Seq::<(Seq<char>, Seq<char>)>::empty(), cur as int),
        ));
        if p_tag_items(ws@, p1 as int, n as nat) is Some {
            assert(acc@.map_values(|q2: (String, String)| (q2.0@, q2.1@)) + Seq::<
                (Seq<char>, Seq<char>),
            >::empty() =~= acc@.map_values(|q2: (String, String)| (q2.0@, q2.1@)));
        }
    }
    Some((acc, cur))
}

fn d_i64s(ws: &Vec<u64>, pos: usize) -> (r: Option<(Vec<i64>, usize)>)
    ensures
        (match r {
            Some(p) => p_i64s(ws@, pos as int) == Some((p.0@, p.1 as int)) && p.1 <= ws@.len(),
            None => p_i64s(ws@, pos as int) is None,
        }),
{
    let (n, p1) = match d_word(ws, pos) {
        Some(p) => p,
        None => {
            return None;
        },
    };
    let mut acc: Vec<i64> = Vec::new();
    let mut cur = p1;
    let mut k: u64 = 0;
    proof {
        if p_i64_items(ws@, cur as int, (n - k) as nat) is Some {
            assert(acc@ + p_i64_items(ws@, cur as int, (n - k) as nat)->Some_0.0 =~= p_i64_items(
                ws@,
                cur as int,
                (n - k) as nat,
            )->Some_0.0);
        }
    }
    while k < n
        invariant
            p_word(ws@, pos as int) == Some((n, p1 as int)),
            k <= n,
            cur <= ws@.len(),
            (match p_i64_items(ws@, p1 as int, n as nat) {
                Some(q) => p_i64_items(ws@, cur as int, (n - k) as nat) matches Some(t) && q.0
                    == acc@ + t.0 && q.1 == t.1,
                None => p_i64_items(ws@, cur as int, (n - k) as nat) is None,
            }),
        decreases n - k,
    {
        let w = match d_word(ws, cur) {
            Some(p) => p,
            None => {
                return None;
            },
        };
        let ghost accpre = acc@;
        acc.push(w.0 as i64);
        proof {
            if p_i64_items(ws@, cur as int, (n - k) as nat) is Some {
                let t = p_i64_items(ws@, cur as int, (n - k) as nat)->Some_0;
                assert(accpre + t.0 =~= accpre.push(w.0 as i64) + p_i64_items(
                    ws@,
                    w.1 as int,
                    (n - k - 1) as nat,
                )->Some_0.0);
            }
        }
        cur = w.1;
        k = k + 1;
    }
    proof {
        assert(p_i64_items(ws@, cur as int, 0) == Some((Seq::<i64>::empty(), cur as int)));
        if p_i64_items(ws@, p1 as int, n as nat) is Some {
            assert(acc@ + Seq::<i64>::empty() =~= acc@);
        }
    }
    Some((acc, cur))
}

fn d_edges(ws: &Vec<u64>, pos: usize) -> (r: Option<(Vec<(usize, usize, usize)>, usize)>)
    ensures
        (match r {
            Some(p) => p_edges(ws@, pos as int) == Some((p.0@, p.1 as int)) && p.1 <= ws@.len(),
            None => p_edges(ws@, pos as int) is None,
        }),
{
    let (n, p1) = match d_word(ws, pos) {
        Some(p) => p,
        None => {
            return None;
        },
    };
    let mut acc: Vec<(usize, usize, usize)> = Vec::new();
    let mut cur = p1;
    let mut k: u64 = 0;
    proof {
        if p_edge_items(ws@, cur as int, (n - k) as nat) is Some {
            assert(acc@ + p_edge_items(ws@, cur as int, (n - k) as nat)->Some_0.0
                =~= p_edge_items(ws@, cur as int, (n - k) as nat)->Some_0.0);
        }
    }
    while k < n
        invariant
            p_word(ws@, pos as int) == Some((n, p1 as int)),
            k <= n,
            cur <= ws@.len(),
            (match p_edge_items(ws@, p1 as int, n as nat) {
                Some(q) => p_edge_items(ws@, cur as int, (n - k) as nat) matches Some(t) && q.0
                    == acc@ + t.0 && q.1 == t.1,
                None => p_edge_items(ws@, cur as int, (n - k) as nat) is None,
            }),
        decreases n - k,
    {
        let wa = match d_word(ws, cur) {
            Some(p) => p,
            None => {
                return None;
            },
        };
        let wb = match d_word(ws, wa.1) {
            Some(p) => p,
            None => {
                return None;
            },
        };
        let wc = match d_word(ws, wb.1) {
            Some(p) => p,
            None => {
                return None;
            },
        };
        if !(wa.0 <= usize::MAX as u64 && wb.0 <= usize::MAX as u64 && wc.0 <= usize::MAX
            as u64) {
            return None;
        }
        let ghost accpre = acc@;
        acc.push((wa.0 as usize, wb.0 as usize, wc.0 as usize));
        proof {
            if p_edge_items(ws@, cur as int, (n - k) as nat) is Some {
                let t = p_edge_items(ws@, cur as int, (n - k) as nat)->Some_0;
                assert(accpre + t.0 =~= accpre.push(
                    (wa.0 as usize, wb.0 as usize, wc.0 as usize),
                ) + p_edge_items(ws@, wc.1 as int, (n - k - 1) as nat)->Some_0.0);
            }
        }
        cur = wc.1;
        k = k + 1;
    }
    proof {
        assert(p_edge_items(ws@, cur as int, 0) == Some(
            (Seq::<(usize, usize, usize)>::empty(), cur as int),
        ));
        if p_edge_items(ws@, p1 as int, n as nat) is Some {
            assert(acc@ + Seq::<(usize, usize, usize)>::empty() =~= acc@);
        }
    }
    Some((acc, cur))
}

fn d_way(ws: &Vec<u64>, pos: usize) -> (r: Option<(Way, usize)>)
    ensures
        (match r {
            Some(p) => p_way(ws@, pos as int) == Some((p.0@, p.1 as int)) && p.1 <= ws@.len(),
            None => p_way(ws@, pos as int) is None,
        }),
{
    let idw = match d_word(ws, pos) {
        Some(p) => p,
        None => {
            return None;
        },
    };
    let tags = match d_tags(ws, idw.1) {
        Some(p) => p,
        None => {
            return None;
        },
    };
    let nodes = match d_i64s(ws, tags.1) {
        Some(p) => p,
        None => {
            return None;
        },
    };
    let w = Way { id: idw.0 as i64, tags: tags.0, nodes: nodes.0 };
    Some((w, nodes.1))
}

fn d_ways(ws: &Vec<u64>, pos: usize) -> (r: Option<(Vec<Way>, usize)>)
    ensures
        (match r {
            Some(p) => p_ways(ws@, pos as int) == Some((views_of(p.0@), p.1 as int)) && p.1
                <= ws@.len(),
            None => p_ways(ws@, pos as int) is None,
        }),
{
    let (n, p1) = match d_word(ws, pos) {
        Some(p) => p,
        None => {
            return None;
        },
    };
    let mut acc: Vec<Way> = Vec::new();
    let mut cur = p1;
    let mut k: u64 = 0;
    proof {
        assert(views_of(acc@) =~= Seq::<WayView>::empty());
        if p_way_items(ws@, cur as int, (n - k) as nat) is Some {
            assert(views_of(acc@) + p_way_items(ws@, cur as int, (n - k) as nat)->Some_0.0
                =~= p_way_items(ws@, cur as int, (n - k) as nat)->Some_0.0);
        }
    }
    while k < n
        invariant
            p_word(ws@, pos as int) == Some((n, p1 as int)),
            k <= n,
            cur <= ws@.len(),
            (match p_way_items(ws@, p1 as int, n as nat) {
                Some(q) => p_way_items(ws@, cur as int, (n - k) as nat) matches Some(t) && q.0
                    == views_of(acc@) + t.0 && q.1 == t.1,
                None => p_way_items(ws@, cur as int, (n - k) as nat) is None,
            }),
        decreases n - k,
    {
        let wp = match d_way(ws, cur) {
            Some(p) => p,
            None => {
                return None;
            },
        };
        let ghost accpre = views_of(acc@);
        let ghost wv = wp.0@;
        acc.push(wp.0);
        proof {
            assert(views_of(acc@) =~= accpre.push(wv));
            if p_way_items(ws@, cur as int, (n - k) as nat) is Some {
                let t = p_way_items(ws@, cur as int, (n - k) as nat)->Some_0;
                assert(accpre + t.0 =~= accpre.push(wv) + p_way_items(
                    ws@,
                    wp.1 as int,
                    (n - k - 1) as nat,
                )->Some_0.0);
            }
        }
        cur = wp.1;
        k = k + 1;
    }
    proof {
        assert(p_way_items(ws@, cur as int, 0) == Some((Seq::<WayView>::empty(), cur as int)));
        if p_way_items(ws@, p1 as int, n as nat) is Some {
            assert(views_of(acc@) + Seq::<WayView>::empty() =~= views_of(acc@));
        }
    }
    Some((acc, cur))
}

fn d_nodeways(ws: &Vec<u64>, pos: usize) -> (r: Option<(Vec<(i64, Vec<Way>)>, usize)>)
    ensures
        (match r {
            Some(p) => p_nodeways(ws@, pos as int) == Some(
                (p.0@.map_values(|q: (i64, Vec<Way>)| (q.0, views_of(q.1@))), p.1 as int),
            ) && p.1 <= ws@.len(),
            None => p_nodeways(ws@, pos as int) is None,
        }),
{
    let (n, p1) = match d_word(ws, pos) {
        Some(p) => p,
        None => {
            return None;
        },
    };
    let mut acc: Vec<(i64, Vec<Way>)> = Vec::new();
    let mut cur = p1;
    let mut k: u64 = 0;
    proof {
        let av = acc@.map_values(|q: (i64, Vec<Way>)| (q.0, views_of(q.1@)));
        assert(av =~= Seq::<(i64, Seq<WayView>)>::empty());
        if p_nw_items(ws@, cur as int, (n - k) as nat) is Some {
            assert(av + p_nw_items(ws@, cur as int, (n - k) as nat)->Some_0.0 =~= p_nw_items(
                ws@,
                cur as int,
                (n - k) as nat,
            )->Some_0.0);
        }
    }
    while k < n
        invariant
            p_word(ws@, pos as int) == Some((n, p1 as int)),
            k <= n,
            cur <= ws@.len(),
            (match p_nw_items(ws@, p1 as int, n as nat) {
                Some(q) => p_nw_items(ws@, cur as int, (n - k) as nat) matches Some(t) && q.0
                    == acc@.map_values(|q2: (i64, Vec<Way>)| (q2.0, views_of(q2.1@))) + t.0 && q.1
                    == t.1,
                None => p_nw_items(ws@, cur as int, (n - k) as nat) is None,
            }),
        decreases n - k,
    {
        let idw = match d_word(ws, cur) {
            Some(p) => p,
            None => {
                return None;
            },
        };
        let wys = match d_ways(ws, idw.1) {
            Some(p) => p,
            None => {
                return None;
            },
        };
        let ghost accpre = acc@.map_values(|q2: (i64, Vec<Way>)| (q2.0, views_of(q2.1@)));
        let ghost wysv = views_of(wys.0@);
        acc.push((idw.0 as i64, wys.0));
        proof {
            assert(acc@.map_values(|q2: (i64, Vec<Way>)| (q2.0, views_of(q2.1@))) =~= accpre.push(
                ((idw.0 as i64), wysv),
            ));
            if p_nw_items(ws@, cur as int, (n - k) as nat) is Some {
                let t = p_nw_items(ws@, cur as int, (n - k) as nat)->Some_0;
                assert(accpre + t.0 =~= accpre.push(((idw.0 as i64), wysv)) + p_nw_items(
                    ws@,
                    wys.1 as int,
                    (n - k - 1) as nat,
                )->Some_0.0);
            }
        }
        cur = wys.1;
        k = k + 1;
    }
    proof {
        assert(p_nw_items(ws@, cur as int, 0) == Some(
            (Seq::<(i64, Seq<WayView>)>::empty(), cur as int),
        ));
        if p_nw_items(ws@, p1 as int, n as nat) is Some {
            assert(acc@.map_values(|q2: (i64, Vec<Way>)| (q2.0, views_of(q2.1@))) + Seq::<
                (i64, Seq<WayView>),
            >::empty() =~= acc@.map_values(|q2: (i64, Vec<Way>)| (q2.0, views_of(q2.1@))));
        }
    }
    Some((acc, cur))
}

/// Decodes a whole persisted model from its byte form, checking the
/// version, full consumption, and the decoded components' validity.
pub(crate) fn decode_network(buf: &Vec<u8>) -> (r: Option<
    (Vec<(usize, usize, usize)>, Vec<i64>, Vec<(i64, Vec<Way>)>),
>)
    ensures
        (match r {
            Some(t) => buf@.len() % 8 == 0 && p_model(words_of_bytes(buf@)) == Some(
                (
                    t.0@,
                    t.1@,
                    t.2@.map_values(|q: (i64, Vec<Way>)| (q.0, views_of(q.1@))),
                ),
            ),
            None => spec_parse_network(buf@) is None,
        }),
{
    let ws = match bytes_to_words(buf) {
        Some(ws) => ws,
        None => {
            return None;
        },
    };
    let ver = match d_word(&ws, 0) {
        Some(p) => p,
        None => {
            return None;
        },
    };
    if ver.0 != 1 {
        return None;
    }
    let edges = match d_edges(&ws, ver.1) {
        Some(p) => p,
        None => {
            return None;
        },
    };
    let ids = match d_i64s(&ws, edges.1) {
        Some(p) => p,
        None => {
            return None;
        },
    };
    let nw = match d_nodeways(&ws, ids.1) {
        Some(p) => p,
        None => {
            return None;
        },
    };
    if nw.1 != ws.len() {
        return None;
    }
    Some((edges.0, ids.0, nw.0))
}

} // verus!
