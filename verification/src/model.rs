//! The mathematical model of the wire protocol: a ghost value tree, the
//! byte-level encoding function, and the byte-level parser that inverts it.

use crate::wire::lex_less;
use vstd::bytes::spec_u32_from_le_bytes;
use vstd::bytes::spec_u32_to_le_bytes;
use vstd::prelude::*;
use vstd::utf8::decode_utf8;
use vstd::utf8::encode_utf8;
use vstd::utf8::valid_utf8;

verus! {

/// Why a buffer failed to decode.
///
/// Every decode error is fatal to the connection: after any of these the
/// stream's byte alignment can no longer be trusted.
#[derive(Clone, Copy, Debug, PartialEq, Eq, Structural)]
pub enum DecodeError {
    /// Fewer bytes remain than a tag, a fixed-width field or a length field
    /// promises.
    TruncatedInput,
    /// A tag byte outside the seven known variants.
    InvalidTag,
    /// String or key bytes that are not valid UTF-8.
    InvalidUtf8,
    /// Trailing bytes remain after the top-level value is fully parsed.
    MalformedFrame,
}

/// The model of a payload value: what a `Value` tree means, with every
/// container replaced by its mathematical counterpart.
///
/// A dictionary is modelled as its entry sequence exactly as it appears on
/// the wire: keys ascending in the lexicographic order of their UTF-8 bytes.
#[verifier::ext_equal]
pub enum Val {
    Null,
    Boolean(bool),
    Number(i32),
    Text(Seq<char>),
    Bytes(Seq<u8>),
    List(Seq<Val>),
    Dict(Seq<(Seq<char>, Val)>),
}

/// The UTF-8 bytes of a key, the form in which keys are compared and emitted.
pub open spec fn key_bytes(k: Seq<char>) -> Seq<u8> {
    encode_utf8(k)
}

/// Adjacent entries are in strictly ascending key order; this implies that
/// all keys are distinct.
pub open spec fn entries_sorted(es: Seq<(Seq<char>, Val)>) -> bool {
    forall|i: int|
        0 <= i && i + 1 < es.len() ==> lex_less(
            key_bytes(#[trigger] es[i].0),
            key_bytes(es[i + 1].0),
        )
}

/// Every length that the encoding writes into a 4-byte field fits that field,
/// and every dictionary is sorted: the validity invariant of a value tree.
pub open spec fn val_wf(v: Val) -> bool
    decreases v,
{
    match v {
        Val::Null => true,
        Val::Boolean(_) => true,
        Val::Number(_) => true,
        Val::Text(s) => encode_utf8(s).len() <= u32::MAX,
        Val::Bytes(b) => b.len() <= u32::MAX,
        Val::List(items) => items.len() <= u32::MAX && list_wf(items),
        Val::Dict(es) => es.len() <= u32::MAX && entries_sorted(es) && entries_wf(es),
    }
}

/// Every element of a list is well formed.
pub open spec fn list_wf(items: Seq<Val>) -> bool
    decreases items,
{
    if items.len() == 0 {
        true
    } else {
        val_wf(items[0]) && list_wf(items.drop_first())
    }
}

/// Every key fits its length field and every value is well formed.
pub open spec fn entries_wf(es: Seq<(Seq<char>, Val)>) -> bool
    decreases es,
{
    if es.len() == 0 {
        true
    } else {
        key_bytes(es[0].0).len() <= u32::MAX && val_wf(es[0].1) && entries_wf(es.drop_first())
    }
}

/// The unsigned 32-bit cell that carries a number on the wire: the two's
/// complement reinterpretation of the signed value.
pub open spec fn number_cell(n: i32) -> u32 {
    if n >= 0 {
        n as u32
    } else {
        (n + 0x1_0000_0000) as u32
    }
}

/// The signed number a 32-bit cell carries: the inverse of `number_cell`.
pub open spec fn cell_number(c: u32) -> i32 {
    if c <= 0x7fff_ffff {
        c as i32
    } else {
        (c - 0x1_0000_0000) as i32
    }
}

/// The binary encoding of a value: one tag byte, then the variant's payload.
pub open spec fn enc(v: Val) -> Seq<u8>
    decreases v,
{
    match v {
        Val::Null => seq![0u8],
        Val::Boolean(b) => seq![1u8, (if b { 1u8 } else { 0u8 })],
        Val::Number(n) => seq![2u8] + spec_u32_to_le_bytes(number_cell(n)),
        Val::Text(s) => seq![3u8] + spec_u32_to_le_bytes(encode_utf8(s).len() as u32)
            + encode_utf8(s),
        Val::Bytes(b) => seq![4u8] + spec_u32_to_le_bytes(b.len() as u32) + b,
        Val::List(items) => seq![5u8] + spec_u32_to_le_bytes(items.len() as u32) + enc_list(items),
        Val::Dict(es) => seq![6u8] + spec_u32_to_le_bytes(es.len() as u32) + enc_entries(es),
    }
}

/// The concatenated encodings of a list's elements, in order.
pub open spec fn enc_list(items: Seq<Val>) -> Seq<u8>
    decreases items,
{
    if items.len() == 0 {
        Seq::empty()
    } else {
        enc(items[0]) + enc_list(items.drop_first())
    }
}

/// The concatenated encodings of a dictionary's entries, in order: each a
/// length-prefixed key followed by the value's encoding.
pub open spec fn enc_entries(es: Seq<(Seq<char>, Val)>) -> Seq<u8>
    decreases es,
{
    if es.len() == 0 {
        Seq::empty()
    } else {
        spec_u32_to_le_bytes(key_bytes(es[0].0).len() as u32) + key_bytes(es[0].0) + enc(es[0].1)
            + enc_entries(es.drop_first())
    }
}

/// The little-endian unsigned 32-bit integer at `pos`.
pub open spec fn word_at(bytes: Seq<u8>, pos: int) -> u32 {
    spec_u32_from_le_bytes(bytes.subrange(pos, pos + 4))
}

/// Place a key in a sorted entry sequence: before the first larger key,
/// replacing an equal key, after all smaller keys.
pub open spec fn dict_insert(es: Seq<(Seq<char>, Val)>, k: Seq<char>, v: Val) -> Seq<
    (Seq<char>, Val),
>
    decreases es.len(),
{
    if es.len() == 0 {
        seq![(k, v)]
    } else if lex_less(key_bytes(k), key_bytes(es[0].0)) {
        seq![(k, v)] + es
    } else if key_bytes(k) == key_bytes(es[0].0) {
        seq![(k, v)] + es.drop_first()
    } else {
        seq![es[0]] + dict_insert(es.drop_first(), k, v)
    }
}

/// Insert entries into `acc` from left to right; a later duplicate key
/// replaces an earlier one.
pub open spec fn dict_extend(acc: Seq<(Seq<char>, Val)>, es: Seq<(Seq<char>, Val)>) -> Seq<
    (Seq<char>, Val),
>
    decreases es.len(),
{
    if es.len() == 0 {
        acc
    } else {
        dict_extend(dict_insert(acc, es[0].0, es[0].1), es.drop_first())
    }
}

/// The sorted dictionary built from entries in the order the wire carries
/// them.
pub open spec fn dict_from_entries(es: Seq<(Seq<char>, Val)>) -> Seq<(Seq<char>, Val)> {
    dict_extend(Seq::empty(), es)
}

/// The key-to-value association that an entry sequence defines; an entry
/// nearer the front wins over a deeper one with the same key.
pub open spec fn dict_as_map(es: Seq<(Seq<char>, Val)>) -> Map<Seq<char>, Val>
    decreases es.len(),
{
    if es.len() == 0 {
        Map::empty()
    } else {
        dict_as_map(es.drop_first()).insert(es[0].0, es[0].1)
    }
}

/// Parse one value at `pos`: the tag byte dispatches, and the result carries
/// the position just past the value. Exactly the decode errors of the
/// protocol come out of here.
pub open spec fn parse_value(bytes: Seq<u8>, pos: int) -> Result<(Val, int), DecodeError>
    decreases bytes.len() - pos, 0int, 0int,
{
    if pos < 0 || pos >= bytes.len() {
        Err(DecodeError::TruncatedInput)
    } else {
        let tag = bytes[pos];
        if tag == 0 {
            Ok((Val::Null, pos + 1))
        } else if tag == 1 {
            if pos + 2 <= bytes.len() {
                Ok((Val::Boolean(bytes[pos + 1] != 0), pos + 2))
            } else {
                Err(DecodeError::TruncatedInput)
            }
        } else if tag == 2 {
            if pos + 5 <= bytes.len() {
                Ok((Val::Number(cell_number(word_at(bytes, pos + 1))), pos + 5))
            } else {
                Err(DecodeError::TruncatedInput)
            }
        } else if tag == 3 {
            if pos + 5 > bytes.len() {
                Err(DecodeError::TruncatedInput)
            } else if pos + 5 + word_at(bytes, pos + 1) > bytes.len() {
                Err(DecodeError::TruncatedInput)
            } else {
                let raw = bytes.subrange(pos + 5, pos + 5 + word_at(bytes, pos + 1));
                if valid_utf8(raw) {
                    Ok((Val::Text(decode_utf8(raw)), pos + 5 + word_at(bytes, pos + 1)))
                } else {
                    Err(DecodeError::InvalidUtf8)
                }
            }
        } else if tag == 4 {
            if pos + 5 > bytes.len() {
                Err(DecodeError::TruncatedInput)
            } else if pos + 5 + word_at(bytes, pos + 1) > bytes.len() {
                Err(DecodeError::TruncatedInput)
            } else {
                Ok(
                    (
                        Val::Bytes(bytes.subrange(pos + 5, pos + 5 + word_at(bytes, pos + 1))),
                        pos + 5 + word_at(bytes, pos + 1),
                    ),
                )
            }
        } else if tag == 5 {
            if pos + 5 > bytes.len() {
                Err(DecodeError::TruncatedInput)
            } else {
                match parse_list(bytes, pos + 5, word_at(bytes, pos + 1) as int) {
                    Ok((items, end)) => Ok((Val::List(items), end)),
                    Err(e) => Err(e),
                }
            }
        } else if tag == 6 {
            if pos + 5 > bytes.len() {
                Err(DecodeError::TruncatedInput)
            } else {
                match parse_entries(bytes, pos + 5, word_at(bytes, pos + 1) as int) {
                    Ok((es, end)) => Ok((Val::Dict(dict_from_entries(es)), end)),
                    Err(e) => Err(e),
                }
            }
        } else {
            Err(DecodeError::InvalidTag)
        }
    }
}

/// Parse `count` consecutive values starting at `pos`.
pub open spec fn parse_list(bytes: Seq<u8>, pos: int, count: int) -> Result<
    (Seq<Val>, int),
    DecodeError,
>
    decreases bytes.len() - pos, 1int, count,
{
    if count <= 0 {
        Ok((Seq::empty(), pos))
    } else {
        match parse_value(bytes, pos) {
            Err(e) => Err(e),
            Ok((v, next)) => if pos < next <= bytes.len() {
                match parse_list(bytes, next, count - 1) {
                    Err(e) => Err(e),
                    Ok((rest, end)) => Ok((seq![v] + rest, end)),
                }
            } else {
                Err(DecodeError::TruncatedInput)
            },
        }
    }
}

/// Parse `count` consecutive entries, each a length-prefixed key followed by
/// one value, starting at `pos`. The entries come out in wire order.
pub open spec fn parse_entries(bytes: Seq<u8>, pos: int, count: int) -> Result<
    (Seq<(Seq<char>, Val)>, int),
    DecodeError,
>
    decreases bytes.len() - pos, 1int, count,
{
    if count <= 0 {
        Ok((Seq::empty(), pos))
    } else if pos < 0 || pos + 4 > bytes.len() {
        Err(DecodeError::TruncatedInput)
    } else if pos + 4 + word_at(bytes, pos) > bytes.len() {
        Err(DecodeError::TruncatedInput)
    } else {
        let kraw = bytes.subrange(pos + 4, pos + 4 + word_at(bytes, pos));
        if !valid_utf8(kraw) {
            Err(DecodeError::InvalidUtf8)
        } else {
            match parse_value(bytes, pos + 4 + word_at(bytes, pos)) {
                Err(e) => Err(e),
                Ok((v, next)) => if pos + 4 + word_at(bytes, pos) < next <= bytes.len() {
                    match parse_entries(bytes, next, count - 1) {
                        Err(e) => Err(e),
                        Ok((rest, end)) => Ok((seq![(decode_utf8(kraw), v)] + rest, end)),
                    }
                } else {
                    Err(DecodeError::TruncatedInput)
                },
            }
        }
    }
}

/// A well-formed list is well formed at every index.
pub proof fn lemma_list_wf_index(items: Seq<Val>)
    requires
        list_wf(items),
    ensures
        forall|i: int| 0 <= i < items.len() ==> val_wf(#[trigger] items[i]),
    decreases items.len(),
{
    if items.len() > 0 {
        lemma_list_wf_index(items.drop_first());
        assert forall|i: int| 0 <= i < items.len() implies val_wf(#[trigger] items[i]) by {
            if i > 0 {
                assert(items[i] == items.drop_first()[i - 1]);
            }
        }
    }
}

/// Well-formed entries are well formed at every index.
pub proof fn lemma_entries_wf_index(es: Seq<(Seq<char>, Val)>)
    requires
        entries_wf(es),
    ensures
        forall|i: int|
            0 <= i < es.len() ==> key_bytes(#[trigger] es[i].0).len() <= u32::MAX && val_wf(
                es[i].1,
            ),
    decreases es.len(),
{
    if es.len() > 0 {
        lemma_entries_wf_index(es.drop_first());
        assert forall|i: int| 0 <= i < es.len() implies key_bytes(#[trigger] es[i].0).len()
            <= u32::MAX && val_wf(es[i].1) by {
            if i > 0 {
                assert(es[i] == es.drop_first()[i - 1]);
            }
        }
    }
}

/// A list's encoding splits at any concatenation point.
pub proof fn lemma_enc_list_concat(a: Seq<Val>, b: Seq<Val>)
    ensures
        enc_list(a + b) == enc_list(a) + enc_list(b),
    decreases a.len(),
{
    if a.len() == 0 {
        assert(a + b =~= b);
        assert(enc_list(a) + enc_list(b) =~= enc_list(b));
    } else {
        assert((a + b).drop_first() =~= a.drop_first() + b);
        lemma_enc_list_concat(a.drop_first(), b);
        assert(enc(a[0]) + (enc_list(a.drop_first()) + enc_list(b)) =~= (enc(a[0]) + enc_list(
            a.drop_first(),
        )) + enc_list(b));
    }
}

/// Extending the encoded prefix of a list by one element.
pub proof fn lemma_enc_list_snoc(items: Seq<Val>, i: int)
    requires
        0 <= i < items.len(),
    ensures
        enc_list(items.take(i + 1)) == enc_list(items.take(i)) + enc(items[i]),
{
    let single = seq![items[i]];
    assert(items.take(i + 1) =~= items.take(i) + single);
    lemma_enc_list_concat(items.take(i), single);
    assert(single.drop_first() =~= Seq::<Val>::empty());
    assert(single[0] == items[i]);
    assert(enc_list(Seq::<Val>::empty()) == Seq::<u8>::empty());
    assert(enc_list(single) == enc(items[i]) + enc_list(Seq::<Val>::empty()));
    assert(enc(items[i]) + Seq::<u8>::empty() =~= enc(items[i]));
}

/// A dictionary's encoding splits at any concatenation point.
pub proof fn lemma_enc_entries_concat(a: Seq<(Seq<char>, Val)>, b: Seq<(Seq<char>, Val)>)
    ensures
        enc_entries(a + b) == enc_entries(a) + enc_entries(b),
    decreases a.len(),
{
    if a.len() == 0 {
        assert(a + b =~= b);
        assert(enc_entries(a) + enc_entries(b) =~= enc_entries(b));
    } else {
        assert((a + b).drop_first() =~= a.drop_first() + b);
        lemma_enc_entries_concat(a.drop_first(), b);
        let head = spec_u32_to_le_bytes(key_bytes(a[0].0).len() as u32) + key_bytes(a[0].0) + enc(
            a[0].1,
        );
        assert(head + (enc_entries(a.drop_first()) + enc_entries(b)) =~= (head + enc_entries(
            a.drop_first(),
        )) + enc_entries(b));
    }
}

/// Extending the encoded prefix of a dictionary by one entry.
pub proof fn lemma_enc_entries_snoc(es: Seq<(Seq<char>, Val)>, i: int)
    requires
        0 <= i < es.len(),
    ensures
        enc_entries(es.take(i + 1)) == enc_entries(es.take(i)) + (spec_u32_to_le_bytes(
            key_bytes(es[i].0).len() as u32,
        ) + key_bytes(es[i].0) + enc(es[i].1)),
{
    let single = seq![es[i]];
    assert(es.take(i + 1) =~= es.take(i) + single);
    lemma_enc_entries_concat(es.take(i), single);
    assert(single.drop_first() =~= Seq::<(Seq<char>, Val)>::empty());
    assert(single[0] == es[i]);
    assert(enc_entries(Seq::<(Seq<char>, Val)>::empty()) == Seq::<u8>::empty());
    let head = spec_u32_to_le_bytes(key_bytes(es[i].0).len() as u32) + key_bytes(es[i].0) + enc(
        es[i].1,
    );
    assert(enc_entries(single) == head + enc_entries(Seq::<(Seq<char>, Val)>::empty()));
    assert(head + Seq::<u8>::empty() =~= head);
}

/// Extending a left-to-right insertion fold by one entry inserts that entry
/// into the fold's result.
pub proof fn lemma_dict_extend_snoc(
    acc: Seq<(Seq<char>, Val)>,
    es: Seq<(Seq<char>, Val)>,
    e: (Seq<char>, Val),
)
    ensures
        dict_extend(acc, es.push(e)) == dict_insert(dict_extend(acc, es), e.0, e.1),
    decreases es.len(),
{
    if es.len() == 0 {
        let single = es.push(e);
        assert(single[0] == e);
        assert(single.drop_first() =~= Seq::<(Seq<char>, Val)>::empty());
        assert(dict_extend(acc, single) == dict_extend(
            dict_insert(acc, e.0, e.1),
            single.drop_first(),
        ));
        assert(dict_extend(dict_insert(acc, e.0, e.1), Seq::<(Seq<char>, Val)>::empty())
            == dict_insert(acc, e.0, e.1));
        assert(dict_extend(acc, es) == acc);
    } else {
        assert(es.push(e)[0] == es[0]);
        assert(es.push(e).drop_first() =~= es.drop_first().push(e));
        assert(dict_extend(acc, es.push(e)) == dict_extend(
            dict_insert(acc, es[0].0, es[0].1),
            es.drop_first().push(e),
        ));
        lemma_dict_extend_snoc(dict_insert(acc, es[0].0, es[0].1), es.drop_first(), e);
        assert(dict_extend(acc, es) == dict_extend(
            dict_insert(acc, es[0].0, es[0].1),
            es.drop_first(),
        ));
    }
}

/// Inserting a key that is larger than the first `i` keys leaves those
/// entries in place.
pub proof fn lemma_dict_insert_skip(es: Seq<(Seq<char>, Val)>, i: int, k: Seq<char>, v: Val)
    requires
        0 <= i <= es.len(),
        forall|j: int| 0 <= j < i ==> lex_less(key_bytes(#[trigger] es[j].0), key_bytes(k)),
    ensures
        dict_insert(es, k, v) == es.take(i) + dict_insert(es.skip(i), k, v),
    decreases i,
{
    if i == 0 {
        assert(es.take(0) =~= Seq::<(Seq<char>, Val)>::empty());
        assert(es.skip(0) =~= es);
        assert(es.take(0) + dict_insert(es, k, v) =~= dict_insert(es, k, v));
    } else {
        crate::wire::lemma_lex_trichotomy(key_bytes(k), key_bytes(es[0].0));
        let tail = es.drop_first();
        assert forall|j: int| 0 <= j < i - 1 implies lex_less(
            key_bytes(#[trigger] tail[j].0),
            key_bytes(k),
        ) by {
            assert(tail[j] == es[j + 1]);
        }
        lemma_dict_insert_skip(tail, i - 1, k, v);
        assert(tail.skip(i - 1) =~= es.skip(i));
        assert(seq![es[0]] + tail.take(i - 1) =~= es.take(i));
        assert(seq![es[0]] + (tail.take(i - 1) + dict_insert(tail.skip(i - 1), k, v)) =~= (
        seq![es[0]] + tail.take(i - 1)) + dict_insert(tail.skip(i - 1), k, v));
    }
}

/// The model of a packet: a 31-bit correlation id, a direction, a payload.
#[verifier::ext_equal]
pub struct PacketModel {
    pub id: u32,
    pub is_request: bool,
    pub value: Val,
}

/// The id fits in 31 bits (the low bit of the wire cell carries the
/// direction) and the payload is well formed.
pub open spec fn packet_wf(p: PacketModel) -> bool {
    p.id < 0x8000_0000 && val_wf(p.value)
}

/// The 32-bit cell that carries both the id and the direction: the id shifted
/// up one bit, with the low bit clear for a request and set for a response.
pub open spec fn pack_cell(id: u32, is_request: bool) -> u32 {
    (id << 1) | (if is_request {
        0u32
    } else {
        1u32
    })
}

/// The id half of `pack_cell`: everything above the direction bit.
pub open spec fn cell_id(cell: u32) -> u32 {
    cell >> 1
}

/// The direction half of `pack_cell`: a clear low bit marks a request.
pub open spec fn cell_is_request(cell: u32) -> bool {
    cell & 1 == 0
}

/// A packet's body: the id/direction cell, then the payload's encoding. This
/// is what the outer length prefix counts.
pub open spec fn packet_body(p: PacketModel) -> Seq<u8> {
    spec_u32_to_le_bytes(pack_cell(p.id, p.is_request)) + enc(p.value)
}

/// A packet's complete frame: the body prefixed by its own byte length.
pub open spec fn packet_frame(p: PacketModel) -> Seq<u8> {
    spec_u32_to_le_bytes(packet_body(p).len() as u32) + packet_body(p)
}

/// Parse a whole body buffer (already stripped of the outer length prefix):
/// the id/direction cell, one value, and nothing after it.
pub open spec fn parse_packet(bytes: Seq<u8>) -> Result<PacketModel, DecodeError> {
    if bytes.len() < 4 {
        Err(DecodeError::TruncatedInput)
    } else {
        let cell = word_at(bytes, 0);
        match parse_value(bytes, 4) {
            Err(e) => Err(e),
            Ok((v, end)) => if end == bytes.len() {
                Ok(
                    PacketModel {
                        id: cell_id(cell),
                        is_request: cell_is_request(cell),
                        value: v,
                    },
                )
            } else {
                Err(DecodeError::MalformedFrame)
            },
        }
    }
}

/// A successful parse starts inside the buffer and consumes at least the tag
/// byte: the position strictly advances and stays in bounds.
pub proof fn lemma_parse_value_advances(bytes: Seq<u8>, pos: int)
    ensures
        parse_value(bytes, pos) matches Ok((v, end)) ==> pos < end <= bytes.len(),
    decreases bytes.len() - pos, 0int, 0int,
{
    if 0 <= pos < bytes.len() {
        let tag = bytes[pos];
        if tag == 5 && pos + 5 <= bytes.len() {
            lemma_parse_list_advances(bytes, pos + 5, word_at(bytes, pos + 1) as int);
        } else if tag == 6 && pos + 5 <= bytes.len() {
            lemma_parse_entries_advances(bytes, pos + 5, word_at(bytes, pos + 1) as int);
        }
    }
}

/// A successful list parse never retreats and stays in bounds.
pub proof fn lemma_parse_list_advances(bytes: Seq<u8>, pos: int, count: int)
    requires
        pos <= bytes.len(),
    ensures
        parse_list(bytes, pos, count) matches Ok((items, end)) ==> pos <= end <= bytes.len(),
    decreases bytes.len() - pos, 1int, count,
{
    if count > 0 {
        lemma_parse_value_advances(bytes, pos);
        if let Ok((v, next)) = parse_value(bytes, pos) {
            if pos < next <= bytes.len() {
                lemma_parse_list_advances(bytes, next, count - 1);
            }
        }
    }
}

/// A successful entry parse never retreats and stays in bounds.
pub proof fn lemma_parse_entries_advances(bytes: Seq<u8>, pos: int, count: int)
    requires
        pos <= bytes.len(),
    ensures
        parse_entries(bytes, pos, count) matches Ok((es, end)) ==> pos <= end <= bytes.len(),
    decreases bytes.len() - pos, 1int, count,
{
    if count > 0 && 0 <= pos && pos + 4 <= bytes.len() && pos + 4 + word_at(bytes, pos)
        <= bytes.len() {
        let after_key = pos + 4 + word_at(bytes, pos);
        lemma_parse_value_advances(bytes, after_key);
        if let Ok((v, next)) = parse_value(bytes, after_key) {
            if after_key < next <= bytes.len() {
                lemma_parse_entries_advances(bytes, next, count - 1);
            }
        }
    }
}

} // verus!
