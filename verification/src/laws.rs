//! The protocol's laws: encoding and parsing invert each other, a map's
//! encoding is determined by its contents alone, the id/direction packing is
//! lossless, and a truncated body never decodes.

use crate::model::cell_id;
use crate::model::cell_is_request;
use crate::model::cell_number;
use crate::model::dict_as_map;
use crate::model::dict_extend;
use crate::model::dict_insert;
use crate::model::enc;
use crate::model::enc_entries;
use crate::model::enc_list;
use crate::model::entries_sorted;
use crate::model::entries_wf;
use crate::model::key_bytes;
use crate::model::list_wf;
use crate::model::number_cell;
use crate::model::pack_cell;
use crate::model::packet_body;
use crate::model::packet_frame;
use crate::model::packet_wf;
use crate::model::parse_entries;
use crate::model::parse_list;
use crate::model::parse_packet;
use crate::model::parse_value;
use crate::model::val_wf;
use crate::model::word_at;
use crate::model::DecodeError;
use crate::model::PacketModel;
use crate::model::Val;
use crate::wire::lex_less;
use vstd::bytes::lemma_auto_spec_u32_to_from_le_bytes;
use vstd::bytes::spec_u32_from_le_bytes;
use vstd::bytes::spec_u32_to_le_bytes;
use vstd::prelude::*;

verus! {

/// Packing an id and a direction into one cell loses nothing: unpacking
/// recovers both exactly, so the packing is injective over the 31-bit id
/// space.
pub proof fn lemma_pack_unpack(id: u32, is_request: bool)
    requires
        id < 0x8000_0000,
    ensures
        cell_id(pack_cell(id, is_request)) == id,
        cell_is_request(pack_cell(id, is_request)) == is_request,
{
    assert(id < 0x8000_0000 ==> ((id << 1) | 0u32) >> 1 == id && ((id << 1) | 1u32) >> 1 == id)
        by (bit_vector);
    assert(((id << 1) | 0u32) & 1 == 0 && ((id << 1) | 1u32) & 1 == 1) by (bit_vector);
}

/// The packing is injective: equal cells can only come from the same id and
/// the same direction.
pub proof fn lemma_pack_injective(id1: u32, d1: bool, id2: u32, d2: bool)
    requires
        id1 < 0x8000_0000,
        id2 < 0x8000_0000,
        pack_cell(id1, d1) == pack_cell(id2, d2),
    ensures
        id1 == id2,
        d1 == d2,
{
    lemma_pack_unpack(id1, d1);
    lemma_pack_unpack(id2, d2);
}

/// The wire cell of a number carries it exactly.
pub proof fn lemma_number_cell_roundtrip(n: i32)
    ensures
        cell_number(number_cell(n)) == n,
{
}

/// The 4-byte prefix of an encoded frame is exactly the byte length of
/// everything that follows it.
pub proof fn lemma_frame_length(p: PacketModel)
    requires
        packet_body(p).len() <= u32::MAX,
    ensures
        packet_frame(p).len() == 4 + packet_body(p).len(),
        packet_frame(p).subrange(0, 4) == spec_u32_to_le_bytes(packet_body(p).len() as u32),
        spec_u32_from_le_bytes(packet_frame(p).subrange(0, 4)) == packet_body(p).len(),
        packet_frame(p).subrange(4, packet_frame(p).len() as int) == packet_body(p),
{
    lemma_auto_spec_u32_to_from_le_bytes();
    assert(packet_frame(p).subrange(0, 4) =~= spec_u32_to_le_bytes(packet_body(p).len() as u32));
    assert(packet_frame(p).subrange(4, packet_frame(p).len() as int) =~= packet_body(p));
}

/// A match of `x` against a window of `bytes` restricts to a match of any
/// sub-window.
pub proof fn lemma_subrange_of_matching(bytes: Seq<u8>, pos: int, x: Seq<u8>, a: int, b: int)
    requires
        0 <= pos,
        pos + x.len() <= bytes.len(),
        bytes.subrange(pos, pos + x.len() as int) == x,
        0 <= a <= b <= x.len(),
    ensures
        bytes.subrange(pos + a, pos + b) == x.subrange(a, b),
{
    assert forall|i: int| 0 <= i < b - a implies bytes.subrange(pos + a, pos + b)[i] == x.subrange(
        a,
        b,
    )[i] by {
        assert(bytes[pos + a + i] == bytes.subrange(pos, pos + x.len() as int)[a + i]);
    }
    assert(bytes.subrange(pos + a, pos + b) =~= x.subrange(a, b));
}

/// Every encoding starts with its tag byte, so none is empty.
pub proof fn lemma_enc_len_pos(v: Val)
    ensures
        enc(v).len() >= 1,
{
    match v {
        Val::Null => {},
        Val::Boolean(_) => {},
        Val::Number(_) => {},
        Val::Text(_) => {},
        Val::Bytes(_) => {},
        Val::List(_) => {},
        Val::Dict(_) => {},
    }
}

/// Ascending adjacent keys order every pair of positions.
pub proof fn lemma_sorted_pairwise(es: Seq<(Seq<char>, Val)>)
    requires
        entries_sorted(es),
    ensures
        forall|i: int, j: int|
            0 <= i < j < es.len() ==> lex_less(
                key_bytes(#[trigger] es[i].0),
                key_bytes(#[trigger] es[j].0),
            ),
    decreases es.len(),
{
    if es.len() > 0 {
        let tail = es.drop_first();
        lemma_sorted_drop_first(es);
        lemma_sorted_pairwise(tail);
        assert forall|i: int, j: int| 0 <= i < j < es.len() implies lex_less(
            key_bytes(#[trigger] es[i].0),
            key_bytes(#[trigger] es[j].0),
        ) by {
            if i == 0 {
                if j > 1 {
                    assert(tail[0] == es[1]);
                    assert(tail[j - 1] == es[j]);
                    assert(lex_less(key_bytes(tail[0].0), key_bytes(tail[j - 1].0)));
                    crate::wire::lemma_lex_transitive(
                        key_bytes(es[0].0),
                        key_bytes(es[1].0),
                        key_bytes(es[j].0),
                    );
                }
            } else {
                assert(tail[i - 1] == es[i]);
                assert(tail[j - 1] == es[j]);
            }
        }
    }
}

/// Dropping the first entry keeps the rest sorted.
pub proof fn lemma_sorted_drop_first(es: Seq<(Seq<char>, Val)>)
    requires
        entries_sorted(es),
        es.len() > 0,
    ensures
        entries_sorted(es.drop_first()),
{
    let tail = es.drop_first();
    assert forall|i: int| 0 <= i && i + 1 < tail.len() implies lex_less(
        key_bytes(#[trigger] tail[i].0),
        key_bytes(tail[i + 1].0),
    ) by {
        assert(tail[i] == es[i + 1]);
        assert(tail[i + 1] == es[i + 2]);
    }
}

/// Folding sorted entries whose keys all exceed a sorted accumulator's keys
/// appends them unchanged.
proof fn lemma_dict_extend_sorted(acc: Seq<(Seq<char>, Val)>, es: Seq<(Seq<char>, Val)>)
    requires
        entries_sorted(es),
        forall|i: int, j: int|
            0 <= i < acc.len() && 0 <= j < es.len() ==> lex_less(
                key_bytes(#[trigger] acc[i].0),
                key_bytes(#[trigger] es[j].0),
            ),
    ensures
        dict_extend(acc, es) == acc + es,
    decreases es.len(),
{
    if es.len() == 0 {
        assert(acc + es =~= acc);
    } else {
        let e0 = es[0];
        assert(e0 == (e0.0, e0.1));
        crate::model::lemma_dict_insert_skip(acc, acc.len() as int, e0.0, e0.1);
        assert(acc.skip(acc.len() as int) =~= Seq::<(Seq<char>, Val)>::empty());
        assert(acc.take(acc.len() as int) =~= acc);
        let acc2 = acc + seq![e0];
        assert(dict_insert(Seq::<(Seq<char>, Val)>::empty(), e0.0, e0.1) =~= seq![e0]);
        assert(dict_insert(acc, e0.0, e0.1) =~= acc2);
        let tail = es.drop_first();
        lemma_sorted_drop_first(es);
        lemma_sorted_pairwise(es);
        assert forall|i: int, j: int| 0 <= i < acc2.len() && 0 <= j < tail.len() implies lex_less(
            key_bytes(#[trigger] acc2[i].0),
            key_bytes(#[trigger] tail[j].0),
        ) by {
            assert(tail[j] == es[j + 1]);
            if i < acc.len() {
                assert(acc2[i] == acc[i]);
            } else {
                assert(acc2[i] == e0);
            }
        }
        lemma_dict_extend_sorted(acc2, tail);
        assert(acc2 + tail =~= acc + es);
    }
}

/// A dictionary that is already in ascending key order re-assembles to
/// itself.
pub proof fn lemma_dict_from_sorted(es: Seq<(Seq<char>, Val)>)
    requires
        entries_sorted(es),
    ensures
        crate::model::dict_from_entries(es) == es,
{
    lemma_dict_extend_sorted(Seq::<(Seq<char>, Val)>::empty(), es);
    assert(Seq::<(Seq<char>, Val)>::empty() + es =~= es);
}

/// Parsing a buffer window that carries an encoded value yields exactly that
/// value and stops exactly past its encoding.
#[verifier::rlimit(60)]
pub proof fn lemma_parse_value_enc(v: Val, bytes: Seq<u8>, pos: int)
    requires
        val_wf(v),
        0 <= pos,
        pos + enc(v).len() <= bytes.len(),
        bytes.subrange(pos, pos + enc(v).len() as int) == enc(v),
    ensures
        parse_value(bytes, pos) == Ok::<(Val, int), DecodeError>((v, pos + enc(v).len())),
    decreases v, 0int,
{
    lemma_auto_spec_u32_to_from_le_bytes();
    let e = enc(v);
    assert(bytes[pos] == e[0]) by {
        assert(bytes.subrange(pos, pos + e.len() as int)[0] == bytes[pos]);
    }
    match v {
        Val::Null => {},
        Val::Boolean(b) => {
            assert(bytes[pos + 1] == e[1]) by {
                assert(bytes.subrange(pos, pos + e.len() as int)[1] == bytes[pos + 1]);
            }
        },
        Val::Number(n) => {
            lemma_subrange_of_matching(bytes, pos, e, 1, 5);
            assert(e.subrange(1, 5) =~= spec_u32_to_le_bytes(number_cell(n)));
            lemma_number_cell_roundtrip(n);
        },
        Val::Text(s) => {
            let raw = vstd::utf8::encode_utf8(s);
            let len = raw.len() as int;
            lemma_subrange_of_matching(bytes, pos, e, 1, 5);
            assert(e.subrange(1, 5) =~= spec_u32_to_le_bytes(len as u32));
            assert(word_at(bytes, pos + 1) == len as u32);
            lemma_subrange_of_matching(bytes, pos, e, 5, 5 + len);
            assert(e.subrange(5, 5 + len) =~= raw);
            vstd::utf8::encode_utf8_valid_utf8(s);
            vstd::utf8::encode_utf8_decode_utf8(s);
        },
        Val::Bytes(b) => {
            let len = b.len() as int;
            lemma_subrange_of_matching(bytes, pos, e, 1, 5);
            assert(e.subrange(1, 5) =~= spec_u32_to_le_bytes(len as u32));
            assert(word_at(bytes, pos + 1) == len as u32);
            lemma_subrange_of_matching(bytes, pos, e, 5, 5 + len);
            assert(e.subrange(5, 5 + len) =~= b);
        },
        Val::List(items) => {
            lemma_subrange_of_matching(bytes, pos, e, 1, 5);
            assert(e.subrange(1, 5) =~= spec_u32_to_le_bytes(items.len() as u32));
            assert(word_at(bytes, pos + 1) == items.len() as u32);
            lemma_subrange_of_matching(bytes, pos, e, 5, 5 + enc_list(items).len() as int);
            assert(e.subrange(5, 5 + enc_list(items).len() as int) =~= enc_list(items));
            lemma_parse_list_enc(items, bytes, pos + 5);
        },
        Val::Dict(es) => {
            lemma_subrange_of_matching(bytes, pos, e, 1, 5);
            assert(e.subrange(1, 5) =~= spec_u32_to_le_bytes(es.len() as u32));
            assert(word_at(bytes, pos + 1) == es.len() as u32);
            lemma_subrange_of_matching(bytes, pos, e, 5, 5 + enc_entries(es).len() as int);
            assert(e.subrange(5, 5 + enc_entries(es).len() as int) =~= enc_entries(es));
            lemma_parse_entries_enc(es, bytes, pos + 5);
            lemma_dict_from_sorted(es);
        },
    }
}

/// Parsing the concatenated encodings of a list's elements yields the
/// elements in order.
pub proof fn lemma_parse_list_enc(items: Seq<Val>, bytes: Seq<u8>, pos: int)
    requires
        list_wf(items),
        0 <= pos,
        pos + enc_list(items).len() <= bytes.len(),
        bytes.subrange(pos, pos + enc_list(items).len() as int) == enc_list(items),
    ensures
        parse_list(bytes, pos, items.len() as int) == Ok::<(Seq<Val>, int), DecodeError>(
            (items, pos + enc_list(items).len()),
        ),
    decreases items, 1int,
{
    if items.len() == 0 {
        assert(items =~= Seq::<Val>::empty());
    } else {
        let head = items[0];
        let tail = items.drop_first();
        let el = enc_list(items);
        lemma_subrange_of_matching(bytes, pos, el, 0, enc(head).len() as int);
        assert(el.subrange(0, enc(head).len() as int) =~= enc(head));
        lemma_parse_value_enc(head, bytes, pos);
        lemma_enc_len_pos(head);
        let mid = pos + enc(head).len();
        lemma_subrange_of_matching(bytes, pos, el, enc(head).len() as int, el.len() as int);
        assert(el.subrange(enc(head).len() as int, el.len() as int) =~= enc_list(tail));
        lemma_parse_list_enc(tail, bytes, mid);
        assert(seq![head] + tail =~= items);
    }
}

/// Parsing the concatenated encodings of a dictionary's entries yields the
/// entries in order.
pub proof fn lemma_parse_entries_enc(es: Seq<(Seq<char>, Val)>, bytes: Seq<u8>, pos: int)
    requires
        entries_wf(es),
        0 <= pos,
        pos + enc_entries(es).len() <= bytes.len(),
        bytes.subrange(pos, pos + enc_entries(es).len() as int) == enc_entries(es),
    ensures
        parse_entries(bytes, pos, es.len() as int) == Ok::<(Seq<(Seq<char>, Val)>, int), DecodeError>(
            (es, pos + enc_entries(es).len()),
        ),
    decreases es, 1int,
{
    lemma_auto_spec_u32_to_from_le_bytes();
    if es.len() == 0 {
        assert(es =~= Seq::<(Seq<char>, Val)>::empty());
    } else {
        let k = es[0].0;
        let v0 = es[0].1;
        let kb = key_bytes(k);
        let klen = kb.len() as int;
        let ee = enc_entries(es);
        lemma_subrange_of_matching(bytes, pos, ee, 0, 4);
        assert(ee.subrange(0, 4) =~= spec_u32_to_le_bytes(klen as u32));
        assert(word_at(bytes, pos) == klen as u32);
        lemma_subrange_of_matching(bytes, pos, ee, 4, 4 + klen);
        assert(ee.subrange(4, 4 + klen) =~= kb);
        vstd::utf8::encode_utf8_valid_utf8(k);
        vstd::utf8::encode_utf8_decode_utf8(k);
        let vstart = pos + 4 + klen;
        lemma_subrange_of_matching(bytes, pos, ee, 4 + klen, 4 + klen + enc(v0).len() as int);
        assert(ee.subrange(4 + klen, 4 + klen + enc(v0).len() as int) =~= enc(v0));
        lemma_parse_value_enc(v0, bytes, vstart);
        lemma_enc_len_pos(v0);
        let tail = es.drop_first();
        lemma_subrange_of_matching(
            bytes,
            pos,
            ee,
            4 + klen + enc(v0).len() as int,
            ee.len() as int,
        );
        assert(ee.subrange(4 + klen + enc(v0).len() as int, ee.len() as int) =~= enc_entries(tail));
        lemma_parse_entries_enc(tail, bytes, vstart + enc(v0).len());
        assert(es[0] == (k, v0));
        assert(seq![(k, v0)] + tail =~= es);
    }
}

/// A key stands in a dictionary's association exactly when some entry
/// carries it.
pub proof fn lemma_dict_as_map_keys(es: Seq<(Seq<char>, Val)>)
    ensures
        forall|k: Seq<char>|
            #[trigger] dict_as_map(es).dom().contains(k) <==> exists|i: int|
                0 <= i < es.len() && (#[trigger] es[i]).0 == k,
    decreases es.len(),
{
    if es.len() > 0 {
        let tail = es.drop_first();
        lemma_dict_as_map_keys(tail);
        assert forall|k: Seq<char>| #[trigger] dict_as_map(es).dom().contains(k) implies exists|
            i: int,
        | 0 <= i < es.len() && (#[trigger] es[i]).0 == k by {
            if k == es[0].0 {
                assert(0 <= 0 < es.len() && es[0].0 == k);
            } else {
                assert(dict_as_map(tail).dom().contains(k));
                let j = choose|j: int| 0 <= j < tail.len() && (#[trigger] tail[j]).0 == k;
                assert(es[j + 1] == tail[j]);
                assert(0 <= j + 1 < es.len() && es[j + 1].0 == k);
            }
        }
        assert forall|k: Seq<char>|
            exists|i: int| 0 <= i < es.len() && (#[trigger] es[i]).0 == k implies #[trigger] dict_as_map(
            es,
        ).dom().contains(k) by {
            let i = choose|i: int| 0 <= i < es.len() && (#[trigger] es[i]).0 == k;
            if i > 0 {
                assert(tail[i - 1] == es[i]);
                assert(0 <= i - 1 < tail.len() && tail[i - 1].0 == k);
                assert(dict_as_map(tail).dom().contains(k));
            }
        }
    }
}

/// In a sorted dictionary the first key occurs nowhere else.
proof fn lemma_sorted_head_key_not_in_tail(es: Seq<(Seq<char>, Val)>)
    requires
        entries_sorted(es),
        es.len() > 0,
    ensures
        !dict_as_map(es.drop_first()).dom().contains(es[0].0),
{
    let tail = es.drop_first();
    lemma_dict_as_map_keys(tail);
    lemma_sorted_pairwise(es);
    if dict_as_map(tail).dom().contains(es[0].0) {
        let a = choose|a: int| 0 <= a < tail.len() && (#[trigger] tail[a]).0 == es[0].0;
        assert(tail[a] == es[a + 1]);
        assert(lex_less(key_bytes(es[0].0), key_bytes(es[a + 1].0)));
        crate::wire::lemma_lex_trichotomy(key_bytes(es[0].0), key_bytes(es[0].0));
    }
}

/// Two sorted dictionaries carrying the same association are the same entry
/// sequence — so their encodings are byte-identical. Since any insertion
/// order yields a sorted dictionary with the association that was inserted,
/// insertion order never shows on the wire.
pub proof fn lemma_sorted_same_map(e1: Seq<(Seq<char>, Val)>, e2: Seq<(Seq<char>, Val)>)
    requires
        entries_sorted(e1),
        entries_sorted(e2),
        dict_as_map(e1) == dict_as_map(e2),
    ensures
        e1 == e2,
        enc(Val::Dict(e1)) == enc(Val::Dict(e2)),
    decreases e1.len(),
{
    lemma_dict_as_map_keys(e1);
    lemma_dict_as_map_keys(e2);
    if e1.len() == 0 {
        if e2.len() > 0 {
            assert(0 <= 0 < e2.len() && e2[0].0 == e2[0].0);
            assert(dict_as_map(e2).dom().contains(e2[0].0));
            assert(false);
        }
        assert(e1 =~= e2);
    } else if e2.len() == 0 {
        assert(0 <= 0 < e1.len() && e1[0].0 == e1[0].0);
        assert(dict_as_map(e1).dom().contains(e1[0].0));
        assert(false);
    } else {
        let k1 = e1[0].0;
        let k2 = e2[0].0;
        lemma_sorted_pairwise(e1);
        lemma_sorted_pairwise(e2);
        assert(0 <= 0 < e1.len() && e1[0].0 == k1);
        assert(dict_as_map(e1).dom().contains(k1));
        assert(0 <= 0 < e2.len() && e2[0].0 == k2);
        assert(dict_as_map(e2).dom().contains(k2));
        crate::wire::lemma_lex_trichotomy(key_bytes(k1), key_bytes(k2));
        if lex_less(key_bytes(k1), key_bytes(k2)) {
            let j = choose|j: int| 0 <= j < e2.len() && (#[trigger] e2[j]).0 == k1;
            if j == 0 {
                assert(false);
            } else {
                assert(lex_less(key_bytes(e2[0].0), key_bytes(e2[j].0)));
                crate::wire::lemma_lex_transitive(key_bytes(k1), key_bytes(k2), key_bytes(k1));
                crate::wire::lemma_lex_trichotomy(key_bytes(k1), key_bytes(k1));
                assert(false);
            }
        } else if lex_less(key_bytes(k2), key_bytes(k1)) {
            let i = choose|i: int| 0 <= i < e1.len() && (#[trigger] e1[i]).0 == k2;
            if i == 0 {
                assert(false);
            } else {
                assert(lex_less(key_bytes(e1[0].0), key_bytes(e1[i].0)));
                crate::wire::lemma_lex_transitive(key_bytes(k2), key_bytes(k1), key_bytes(k2));
                crate::wire::lemma_lex_trichotomy(key_bytes(k2), key_bytes(k2));
                assert(false);
            }
        }
        vstd::utf8::encode_utf8_decode_utf8(k1);
        vstd::utf8::encode_utf8_decode_utf8(k2);
        assert(k1 == k2);
        assert(dict_as_map(e1)[k1] == e1[0].1);
        assert(dict_as_map(e2)[k2] == e2[0].1);
        let t1 = e1.drop_first();
        let t2 = e2.drop_first();
        lemma_sorted_drop_first(e1);
        lemma_sorted_drop_first(e2);
        lemma_sorted_head_key_not_in_tail(e1);
        lemma_sorted_head_key_not_in_tail(e2);
        assert(dict_as_map(t1) =~= dict_as_map(e1).remove(k1));
        assert(dict_as_map(t2) =~= dict_as_map(e2).remove(k2));
        lemma_sorted_same_map(t1, t2);
        assert(e1[0] == (e1[0].0, e1[0].1));
        assert(e2[0] == (e2[0].0, e2[0].1));
        assert(e1 =~= e2) by {
            assert forall|i: int| 0 <= i < e1.len() implies e1[i] == e2[i] by {
                if i > 0 {
                    assert(e1[i] == t1[i - 1]);
                    assert(e2[i] == t2[i - 1]);
                }
            }
        }
    }
}

/// The first entry of an insertion result is the new pair or the old head.
proof fn lemma_dict_insert_first(es: Seq<(Seq<char>, Val)>, k: Seq<char>, v: Val)
    ensures
        dict_insert(es, k, v).len() >= 1,
        dict_insert(es, k, v)[0] == (k, v) || (es.len() > 0 && dict_insert(es, k, v)[0] == es[0]),
{
    if es.len() == 0 {
    } else if lex_less(key_bytes(k), key_bytes(es[0].0)) {
    } else if key_bytes(k) == key_bytes(es[0].0) {
    } else {
    }
}

/// Inserting into a sorted dictionary keeps it sorted and updates the
/// association at exactly that key.
pub proof fn lemma_dict_insert_sorted(es: Seq<(Seq<char>, Val)>, k: Seq<char>, v: Val)
    requires
        entries_sorted(es),
    ensures
        entries_sorted(dict_insert(es, k, v)),
        dict_as_map(dict_insert(es, k, v)) == dict_as_map(es).insert(k, v),
    decreases es.len(),
{
    let r = dict_insert(es, k, v);
    if es.len() == 0 {
        assert(r =~= seq![(k, v)]);
        assert(r.drop_first() =~= Seq::<(Seq<char>, Val)>::empty());
        assert(entries_sorted(r));
        assert(r[0] == (k, v));
        assert(dict_as_map(Seq::<(Seq<char>, Val)>::empty()) == Map::<Seq<char>, Val>::empty());
        assert(dict_as_map(r) == dict_as_map(r.drop_first()).insert(k, v));
        assert(dict_as_map(es) == Map::<Seq<char>, Val>::empty());
        assert(dict_as_map(r) =~= dict_as_map(es).insert(k, v));
    } else if lex_less(key_bytes(k), key_bytes(es[0].0)) {
        assert(r == seq![(k, v)] + es);
        assert(entries_sorted(r)) by {
            assert forall|i: int| 0 <= i && i + 1 < r.len() implies lex_less(
                key_bytes(#[trigger] r[i].0),
                key_bytes(r[i + 1].0),
            ) by {
                if i == 0 {
                    assert(r[0] == (k, v));
                    assert(r[1] == es[0]);
                } else {
                    assert(r[i] == es[i - 1]);
                    assert(r[i + 1] == es[i]);
                }
            }
        }
        assert(r.drop_first() =~= es);
        assert(r[0] == (k, v));
        assert(dict_as_map(r) =~= dict_as_map(es).insert(k, v));
    } else if key_bytes(k) == key_bytes(es[0].0) {
        vstd::utf8::encode_utf8_decode_utf8(k);
        vstd::utf8::encode_utf8_decode_utf8(es[0].0);
        assert(k == es[0].0);
        assert(r == seq![(k, v)] + es.drop_first());
        lemma_sorted_drop_first(es);
        assert(entries_sorted(r)) by {
            assert forall|i: int| 0 <= i && i + 1 < r.len() implies lex_less(
                key_bytes(#[trigger] r[i].0),
                key_bytes(r[i + 1].0),
            ) by {
                if i == 0 {
                    assert(r[0] == (k, v));
                    assert(r[1] == es.drop_first()[0]);
                    assert(es.drop_first()[0] == es[1]);
                } else {
                    assert(r[i] == es.drop_first()[i - 1]);
                    assert(r[i + 1] == es.drop_first()[i]);
                    assert(es.drop_first()[i - 1] == es[i]);
                    assert(es.drop_first()[i] == es[i + 1]);
                }
            }
        }
        assert(r.drop_first() =~= es.drop_first());
        assert(r[0] == (k, v));
        assert(dict_as_map(r) =~= dict_as_map(es).insert(k, v));
    } else {
        crate::wire::lemma_lex_trichotomy(key_bytes(k), key_bytes(es[0].0));
        assert(lex_less(key_bytes(es[0].0), key_bytes(k)));
        let tail = es.drop_first();
        lemma_sorted_drop_first(es);
        lemma_dict_insert_sorted(tail, k, v);
        let ins = dict_insert(tail, k, v);
        assert(r == seq![es[0]] + ins);
        lemma_dict_insert_first(tail, k, v);
        assert(entries_sorted(r)) by {
            assert forall|i: int| 0 <= i && i + 1 < r.len() implies lex_less(
                key_bytes(#[trigger] r[i].0),
                key_bytes(r[i + 1].0),
            ) by {
                if i == 0 {
                    assert(r[0] == es[0]);
                    assert(r[1] == ins[0]);
                    if ins[0] == (k, v) {
                    } else {
                        assert(ins[0] == tail[0]);
                        assert(tail[0] == es[1]);
                    }
                } else {
                    assert(r[i] == ins[i - 1]);
                    assert(r[i + 1] == ins[i]);
                }
            }
        }
        assert(r.drop_first() =~= ins);
        assert(r[0] == es[0]);
        assert(dict_as_map(r) == dict_as_map(ins).insert(es[0].0, es[0].1));
        assert(k != es[0].0);
        assert(dict_as_map(es) == dict_as_map(tail).insert(es[0].0, es[0].1));
        assert(dict_as_map(ins) == dict_as_map(tail).insert(k, v));
        let lhs = dict_as_map(r);
        let rhs = dict_as_map(es).insert(k, v);
        assert(lhs.dom() =~= rhs.dom());
        assert forall|x: Seq<char>| rhs.dom().contains(x) implies lhs[x] == rhs[x] by {
            if x == k {
            } else if x == es[0].0 {
            }
        }
        assert(lhs =~= rhs);
    }
}

/// Cutting a buffer short never changes what a successful parse returned
/// while it still fits; once the cut falls inside the value, the parse fails
/// as truncated.
pub proof fn lemma_parse_value_prefix(bytes: Seq<u8>, cut: Seq<u8>, pos: int)
    requires
        cut.len() <= bytes.len(),
        cut == bytes.subrange(0, cut.len() as int),
    ensures
        (match parse_value(bytes, pos) {
            Ok((v, end)) => if end <= cut.len() {
                parse_value(cut, pos) == Ok::<(Val, int), DecodeError>((v, end))
            } else {
                parse_value(cut, pos) == Err::<(Val, int), DecodeError>(DecodeError::TruncatedInput)
            },
            Err(e) => true,
        }),
    decreases bytes.len() - pos, 0int, 0int,
{
    crate::model::lemma_parse_value_advances(bytes, pos);
    if let Ok((v, end)) = parse_value(bytes, pos) {
        let tag = bytes[pos];
        if pos >= cut.len() {
            // even the tag byte is cut off, and the value ends past the cut
        } else {
            assert(cut[pos] == bytes[pos]);
            assert forall|q: int| 0 <= q && q + 4 <= cut.len() implies word_at(cut, q) == word_at(
                bytes,
                q,
            ) by {
                assert(cut.subrange(q, q + 4) =~= bytes.subrange(q, q + 4));
            }
            assert forall|a: int, b: int| 0 <= a <= b <= cut.len() implies cut.subrange(a, b)
                == bytes.subrange(a, b) by {
                assert(cut.subrange(a, b) =~= bytes.subrange(a, b));
            }
            if tag == 1 {
                if pos + 2 <= cut.len() {
                    assert(cut[pos + 1] == bytes[pos + 1]);
                }
            } else if tag == 5 {
                let count = word_at(bytes, pos + 1) as int;
                crate::model::lemma_parse_list_advances(bytes, pos + 5, count);
                if pos + 5 <= cut.len() {
                    lemma_parse_list_prefix(bytes, cut, pos + 5, count);
                }
            } else if tag == 6 {
                let count = word_at(bytes, pos + 1) as int;
                crate::model::lemma_parse_entries_advances(bytes, pos + 5, count);
                if pos + 5 <= cut.len() {
                    lemma_parse_entries_prefix(bytes, cut, pos + 5, count);
                }
            }
        }
    }
}

/// The cut-buffer property of `lemma_parse_value_prefix`, for a run of
/// consecutive values.
pub proof fn lemma_parse_list_prefix(bytes: Seq<u8>, cut: Seq<u8>, pos: int, count: int)
    requires
        cut.len() <= bytes.len(),
        cut == bytes.subrange(0, cut.len() as int),
        0 <= pos <= cut.len(),
    ensures
        (match parse_list(bytes, pos, count) {
            Ok((vs, end)) => if end <= cut.len() {
                parse_list(cut, pos, count) == Ok::<(Seq<Val>, int), DecodeError>((vs, end))
            } else {
                parse_list(cut, pos, count) == Err::<(Seq<Val>, int), DecodeError>(
                    DecodeError::TruncatedInput,
                )
            },
            Err(e) => true,
        }),
    decreases bytes.len() - pos, 1int, count,
{
    if count > 0 {
        if let Ok((vs, end)) = parse_list(bytes, pos, count) {
            crate::model::lemma_parse_value_advances(bytes, pos);
            lemma_parse_value_prefix(bytes, cut, pos);
            let (v, next) = parse_value(bytes, pos)->Ok_0;
            crate::model::lemma_parse_list_advances(bytes, next, count - 1);
            if next <= cut.len() {
                crate::model::lemma_parse_value_advances(cut, pos);
                lemma_parse_list_prefix(bytes, cut, next, count - 1);
            }
        }
    }
}

/// The cut-buffer property of `lemma_parse_value_prefix`, for a run of
/// consecutive dictionary entries.
pub proof fn lemma_parse_entries_prefix(bytes: Seq<u8>, cut: Seq<u8>, pos: int, count: int)
    requires
        cut.len() <= bytes.len(),
        cut == bytes.subrange(0, cut.len() as int),
        0 <= pos <= cut.len(),
    ensures
        (match parse_entries(bytes, pos, count) {
            Ok((vs, end)) => if end <= cut.len() {
                parse_entries(cut, pos, count) == Ok::<(Seq<(Seq<char>, Val)>, int), DecodeError>(
                    (vs, end),
                )
            } else {
                parse_entries(cut, pos, count) == Err::<(Seq<(Seq<char>, Val)>, int), DecodeError>(
                    DecodeError::TruncatedInput,
                )
            },
            Err(e) => true,
        }),
    decreases bytes.len() - pos, 1int, count,
{
    if count > 0 {
        if let Ok((vs, end)) = parse_entries(bytes, pos, count) {
            let klen = word_at(bytes, pos) as int;
            if pos + 4 <= cut.len() {
                assert(word_at(cut, pos) == word_at(bytes, pos)) by {
                    assert(cut.subrange(pos, pos + 4) =~= bytes.subrange(pos, pos + 4));
                }
            }
            let kstart = pos + 4;
            let vstart = kstart + klen;
            if vstart <= cut.len() {
                assert(cut.subrange(kstart, vstart) =~= bytes.subrange(kstart, vstart));
            }
            crate::model::lemma_parse_value_advances(bytes, vstart);
            lemma_parse_value_prefix(bytes, cut, vstart);
            let (v, next) = parse_value(bytes, vstart)->Ok_0;
            crate::model::lemma_parse_entries_advances(bytes, next, count - 1);
            if next <= cut.len() {
                crate::model::lemma_parse_value_advances(cut, vstart);
                lemma_parse_entries_prefix(bytes, cut, next, count - 1);
            }
        }
    }
}

/// Truncation rejection: no proper non-empty prefix of a well-formed packet's
/// body decodes; it always fails as truncated input.
pub proof fn lemma_truncation_rejected(p: PacketModel, n: int)
    requires
        packet_wf(p),
        0 < n < packet_body(p).len(),
    ensures
        parse_packet(packet_body(p).subrange(0, n)) == Err::<PacketModel, DecodeError>(
            DecodeError::TruncatedInput,
        ),
{
    let body = packet_body(p);
    let cut = body.subrange(0, n);
    if n >= 4 {
        lemma_packet_round_trip(p);
        crate::model::lemma_parse_value_advances(body, 4);
        lemma_parse_value_prefix(body, cut, 4);
        assert(word_at(cut, 0) == word_at(body, 0)) by {
            assert(cut.subrange(0, 4) =~= body.subrange(0, 4));
        }
        let (v, end) = parse_value(body, 4)->Ok_0;
        assert(end == body.len());
    }
}

/// Inserting a well-formed entry into well-formed entries keeps them well
/// formed, and grows them by at most the one entry.
proof fn lemma_dict_insert_wf(es: Seq<(Seq<char>, Val)>, k: Seq<char>, v: Val)
    requires
        entries_wf(es),
        key_bytes(k).len() <= u32::MAX,
        val_wf(v),
    ensures
        entries_wf(dict_insert(es, k, v)),
        dict_insert(es, k, v).len() <= es.len() + 1,
    decreases es.len(),
{
    let r = dict_insert(es, k, v);
    if es.len() == 0 {
        assert(r[0] == (k, v));
        assert(r.drop_first() =~= Seq::<(Seq<char>, Val)>::empty());
        assert(entries_wf(Seq::<(Seq<char>, Val)>::empty()));
        assert(entries_wf(r));
    } else if lex_less(key_bytes(k), key_bytes(es[0].0)) {
        assert(r[0] == (k, v));
        assert(r.drop_first() =~= es);
        assert(entries_wf(r));
    } else if key_bytes(k) == key_bytes(es[0].0) {
        assert(r[0] == (k, v));
        assert(r.drop_first() =~= es.drop_first());
        assert(entries_wf(es.drop_first()));
        assert(entries_wf(r));
    } else {
        lemma_dict_insert_wf(es.drop_first(), k, v);
        assert(r[0] == es[0]);
        assert(r.drop_first() =~= dict_insert(es.drop_first(), k, v));
        assert(entries_wf(r));
    }
}

/// Folding well-formed entries into well-formed entries yields well-formed
/// entries, no more numerous than both together.
proof fn lemma_dict_extend_wf(acc: Seq<(Seq<char>, Val)>, es: Seq<(Seq<char>, Val)>)
    requires
        entries_wf(acc),
        entries_wf(es),
    ensures
        entries_wf(dict_extend(acc, es)),
        dict_extend(acc, es).len() <= acc.len() + es.len(),
    decreases es.len(),
{
    if es.len() > 0 {
        lemma_dict_insert_wf(acc, es[0].0, es[0].1);
        lemma_dict_extend_wf(dict_insert(acc, es[0].0, es[0].1), es.drop_first());
    }
}

/// Whatever a successful parse returns is a well-formed value: every length
/// fits its field and every dictionary is sorted.
pub proof fn lemma_parse_value_wf(bytes: Seq<u8>, pos: int)
    ensures
        parse_value(bytes, pos) matches Ok((v, end)) ==> val_wf(v),
    decreases bytes.len() - pos, 0int, 0int,
{
    if 0 <= pos < bytes.len() {
        let tag = bytes[pos];
        if tag == 3 {
            if pos + 5 <= bytes.len() && pos + 5 + word_at(bytes, pos + 1) <= bytes.len() {
                let raw = bytes.subrange(pos + 5, pos + 5 + word_at(bytes, pos + 1));
                if vstd::utf8::valid_utf8(raw) {
                    vstd::utf8::decode_utf8_encode_utf8(raw);
                }
            }
        } else if tag == 5 {
            if pos + 5 <= bytes.len() {
                lemma_parse_list_wf(bytes, pos + 5, word_at(bytes, pos + 1) as int);
            }
        } else if tag == 6 {
            if pos + 5 <= bytes.len() {
                let count = word_at(bytes, pos + 1) as int;
                lemma_parse_entries_wf(bytes, pos + 5, count);
                if let Ok((es, end)) = parse_entries(bytes, pos + 5, count) {
                    lemma_dict_extend_wf(Seq::<(Seq<char>, Val)>::empty(), es);
                    lemma_dict_extend_stays_sorted(Seq::<(Seq<char>, Val)>::empty(), es);
                }
            }
        }
    }
}

/// A successful list parse returns exactly `count` well-formed values.
pub proof fn lemma_parse_list_wf(bytes: Seq<u8>, pos: int, count: int)
    ensures
        parse_list(bytes, pos, count) matches Ok((items, end)) ==> list_wf(items) && items.len()
            == if count >= 0 {
            count
        } else {
            0
        },
    decreases bytes.len() - pos, 1int, count,
{
    if count > 0 {
        lemma_parse_value_wf(bytes, pos);
        if let Ok((v, next)) = parse_value(bytes, pos) {
            if pos < next <= bytes.len() {
                lemma_parse_list_wf(bytes, next, count - 1);
                if let Ok((rest, end)) = parse_list(bytes, next, count - 1) {
                    let items = seq![v] + rest;
                    assert(items[0] == v);
                    assert(items.drop_first() =~= rest);
                }
            }
        }
    }
}

/// A successful entry parse returns exactly `count` well-formed entries.
pub proof fn lemma_parse_entries_wf(bytes: Seq<u8>, pos: int, count: int)
    ensures
        parse_entries(bytes, pos, count) matches Ok((es, end)) ==> entries_wf(es) && es.len()
            == if count >= 0 {
            count
        } else {
            0
        },
    decreases bytes.len() - pos, 1int, count,
{
    if count > 0 && 0 <= pos && pos + 4 <= bytes.len() && pos + 4 + word_at(bytes, pos)
        <= bytes.len() {
        let kraw = bytes.subrange(pos + 4, pos + 4 + word_at(bytes, pos));
        if vstd::utf8::valid_utf8(kraw) {
            vstd::utf8::decode_utf8_encode_utf8(kraw);
            let after_key = pos + 4 + word_at(bytes, pos);
            lemma_parse_value_wf(bytes, after_key);
            if let Ok((v, next)) = parse_value(bytes, after_key) {
                if after_key < next <= bytes.len() {
                    lemma_parse_entries_wf(bytes, next, count - 1);
                    if let Ok((rest, end)) = parse_entries(bytes, next, count - 1) {
                        let es = seq![(vstd::utf8::decode_utf8(kraw), v)] + rest;
                        assert(es[0] == (vstd::utf8::decode_utf8(kraw), v));
                        assert(es.drop_first() =~= rest);
                    }
                }
            }
        }
    }
}

/// Whatever a successful body parse returns is a well-formed packet.
pub proof fn lemma_parse_packet_wf(bytes: Seq<u8>)
    ensures
        parse_packet(bytes) matches Ok(p) ==> packet_wf(p),
{
    if bytes.len() >= 4 {
        lemma_parse_value_wf(bytes, 4);
        let cell = word_at(bytes, 0);
        assert(cell >> 1 < 0x8000_0000u32) by (bit_vector);
    }
}

/// Building a dictionary by inserting entries in any order keeps it sorted.
pub proof fn lemma_dict_extend_stays_sorted(
    acc: Seq<(Seq<char>, Val)>,
    es: Seq<(Seq<char>, Val)>,
)
    requires
        entries_sorted(acc),
    ensures
        entries_sorted(dict_extend(acc, es)),
    decreases es.len(),
{
    if es.len() > 0 {
        lemma_dict_insert_sorted(acc, es[0].0, es[0].1);
        lemma_dict_extend_stays_sorted(dict_insert(acc, es[0].0, es[0].1), es.drop_first());
    }
}

/// Round trip: parsing the body that a well-formed packet encodes to yields
/// the packet back, unchanged.
pub proof fn lemma_packet_round_trip(p: PacketModel)
    requires
        packet_wf(p),
    ensures
        parse_packet(packet_body(p)) == Ok::<PacketModel, DecodeError>(p),
{
    lemma_auto_spec_u32_to_from_le_bytes();
    let body = packet_body(p);
    let cell = pack_cell(p.id, p.is_request);
    assert(body.subrange(0, 4) =~= spec_u32_to_le_bytes(cell));
    assert(word_at(body, 0) == cell);
    assert(body.subrange(4, 4 + enc(p.value).len() as int) =~= enc(p.value));
    lemma_parse_value_enc(p.value, body, 4);
    lemma_pack_unpack(p.id, p.is_request);
    let q = PacketModel { id: cell_id(cell), is_request: cell_is_request(cell), value: p.value };
    assert(q =~= p);
}

/// Round trip through the framing: stripping the length prefix off a
/// well-formed packet's frame and parsing what remains yields the packet.
pub proof fn lemma_frame_round_trip(p: PacketModel)
    requires
        packet_wf(p),
        packet_body(p).len() <= u32::MAX,
    ensures
        parse_packet(packet_frame(p).subrange(4, packet_frame(p).len() as int)) == Ok::<
            PacketModel,
            DecodeError,
        >(p),
{
    lemma_frame_length(p);
    lemma_packet_round_trip(p);
}

} // verus!
