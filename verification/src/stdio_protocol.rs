//! The packet codec: the executable value and packet types, the encoder that
//! produces a framed buffer, and the decoder that inverts it.

use crate::model::cell_number;
use crate::model::dict_insert;
use crate::model::enc;
use crate::model::enc_entries;
use crate::model::enc_list;
use crate::model::entries_wf;
use crate::model::key_bytes;
use crate::model::list_wf;
use crate::model::number_cell;
use crate::model::pack_cell;
use crate::model::packet_body;
use crate::model::packet_frame;
use crate::model::packet_wf;
use crate::model::parse_entries;
use crate::model::parse_list;
use crate::model::parse_packet;
use crate::model::parse_value;
use crate::model::val_wf;
use crate::model::word_at;
use crate::model::DecodeError;
use crate::model::PacketModel;
use crate::model::Val;
use crate::wire::lex_less;
use crate::wire::push_bytes;
use crate::wire::push_u32_le;
use vstd::prelude::*;
use vstd::utf8::decode_utf8;
use vstd::utf8::valid_utf8;

verus! {

broadcast use vstd::std_specs::vec::group_vec_axioms;

/// A dynamically typed payload value.
///
/// A map holds its entries with keys in strictly ascending lexicographic
/// order of their UTF-8 bytes; build one with [`map_insert`] to keep that
/// invariant. The wire emits map keys in exactly that order.
#[derive(Debug, PartialEq, Eq)]
pub enum Value {
    Null,
    Boolean(bool),
    Number(i32),
    String(String),
    Uint8Array(Vec<u8>),
    Array(Vec<Value>),
    Dict(Vec<(String, Value)>),
}

/// One logical unit on the wire: a correlation id, a direction flag, and a
/// payload value.
#[derive(Debug, PartialEq, Eq)]
pub struct Packet {
    pub id: u32,
    pub is_request: bool,
    pub value: Value,
}

impl Value {
    /// What this value means: its mathematical model.
    pub open spec fn deep(self) -> Val
        decreases self,
    {
        match self {
            Value::Null => Val::Null,
            Value::Boolean(b) => Val::Boolean(b),
            Value::Number(n) => Val::Number(n),
            Value::String(s) => Val::Text(s@),
            Value::Uint8Array(b) => Val::Bytes(b@),
            Value::Array(items) => Val::List(deep_list(items@)),
            Value::Dict(entries) => Val::Dict(deep_entries(entries@)),
        }
    }
}

/// The models of a list's elements, in order.
pub open spec fn deep_list(items: Seq<Value>) -> Seq<Val>
    decreases items,
{
    if items.len() == 0 {
        Seq::empty()
    } else {
        seq![items[0].deep()] + deep_list(items.drop_first())
    }
}

/// The models of a map's entries, in order.
pub open spec fn deep_entries(entries: Seq<(String, Value)>) -> Seq<(Seq<char>, Val)>
    decreases entries,
{
    if entries.len() == 0 {
        Seq::empty()
    } else {
        seq![(entries[0].0@, entries[0].1.deep())] + deep_entries(entries.drop_first())
    }
}

impl View for Value {
    type V = Val;

    open spec fn view(&self) -> Val {
        self.deep()
    }
}

impl View for Packet {
    type V = PacketModel;

    open spec fn view(&self) -> PacketModel {
        PacketModel { id: self.id, is_request: self.is_request, value: self.value.deep() }
    }
}

/// `deep_list` is the element-wise model of the sequence.
pub proof fn lemma_deep_list_index(items: Seq<Value>)
    ensures
        deep_list(items).len() == items.len(),
        forall|i: int| 0 <= i < items.len() ==> #[trigger] deep_list(items)[i] == items[i].deep(),
    decreases items.len(),
{
    if items.len() > 0 {
        lemma_deep_list_index(items.drop_first());
        assert forall|i: int| 0 <= i < items.len() implies #[trigger] deep_list(items)[i]
            == items[i].deep() by {
            if i > 0 {
                assert(items[i] == items.drop_first()[i - 1]);
                assert(deep_list(items)[i] == deep_list(items.drop_first())[i - 1]);
            }
        }
    }
}

/// `deep_entries` is the entry-wise model of the sequence.
pub proof fn lemma_deep_entries_index(entries: Seq<(String, Value)>)
    ensures
        deep_entries(entries).len() == entries.len(),
        forall|i: int|
            0 <= i < entries.len() ==> #[trigger] deep_entries(entries)[i] == (entries[i].0@,
            entries[i].1.deep()),
    decreases entries.len(),
{
    if entries.len() > 0 {
        lemma_deep_entries_index(entries.drop_first());
        assert forall|i: int| 0 <= i < entries.len() implies #[trigger] deep_entries(entries)[i]
            == (entries[i].0@, entries[i].1.deep()) by {
            if i > 0 {
                assert(entries[i] == entries.drop_first()[i - 1]);
                assert(deep_entries(entries)[i] == deep_entries(entries.drop_first())[i - 1]);
            }
        }
    }
}

/// Convert a number to the unsigned 32-bit cell that carries it on the wire.
fn number_to_cell(n: i32) -> (c: u32)
    ensures
        c == number_cell(n),
{
    if n >= 0 {
        n as u32
    } else {
        ((n as i64) + 0x1_0000_0000i64) as u32
    }
}

/// Recover a number from its unsigned 32-bit wire cell.
fn cell_to_number(c: u32) -> (n: i32)
    ensures
        n == cell_number(c),
{
    if c <= 0x7fff_ffff {
        c as i32
    } else {
        ((c as i64) - 0x1_0000_0000i64) as i32
    }
}

/// Append the encoding of one value to `out`.
#[verifier::loop_isolation(false)]
#[verifier::rlimit(60)]
fn encode_value_into(v: &Value, out: &mut Vec<u8>)
    requires
        val_wf(v.deep()),
    ensures
        final(out)@ == old(out)@ + enc(v.deep()),
    decreases v,
{
    match v {
        Value::Null => {
            out.push(0u8);
            assert(out@ =~= old(out)@ + enc(v.deep()));
        },
        Value::Boolean(b) => {
            out.push(1u8);
            out.push(if *b {
                1u8
            } else {
                0u8
            });
            assert(out@ =~= old(out)@ + enc(v.deep()));
        },
        Value::Number(n) => {
            out.push(2u8);
            push_u32_le(out, number_to_cell(*n));
            assert(out@ =~= old(out)@ + enc(v.deep()));
        },
        Value::String(s) => {
            out.push(3u8);
            let bytes = s.as_str().as_bytes();
            push_u32_le(out, bytes.len() as u32);
            push_bytes(out, bytes);
            assert(out@ =~= old(out)@ + enc(v.deep()));
        },
        Value::Uint8Array(b) => {
            out.push(4u8);
            push_u32_le(out, b.len() as u32);
            push_bytes(out, b.as_slice());
            assert(out@ =~= old(out)@ + enc(v.deep()));
        },
        Value::Array(items) => {
            out.push(5u8);
            push_u32_le(out, items.len() as u32);
            proof {
                assert(decreases_to!(*v => *items));
                lemma_deep_list_index(items@);
            }
            encode_list_into(items, out);
            assert(out@ =~= old(out)@ + enc(v.deep()));
        },
        Value::Dict(entries) => {
            out.push(6u8);
            push_u32_le(out, entries.len() as u32);
            proof {
                assert(decreases_to!(*v => *entries));
                lemma_deep_entries_index(entries@);
            }
            encode_entries_into(entries, out);
            assert(out@ =~= old(out)@ + enc(v.deep()));
        },
    }
}

/// Append the concatenated encodings of a list's elements to `out`.
#[verifier::loop_isolation(false)]
fn encode_list_into(items: &Vec<Value>, out: &mut Vec<u8>)
    requires
        list_wf(deep_list(items@)),
    ensures
        final(out)@ == old(out)@ + enc_list(deep_list(items@)),
    decreases *items,
{
    proof {
        lemma_deep_list_index(items@);
        crate::model::lemma_list_wf_index(deep_list(items@));
        assert(out@ =~= out@ + enc_list(deep_list(items@).take(0)));
    }
    let mut i: usize = 0;
    while i < items.len()
        invariant
            i <= items@.len(),
            out@ == old(out)@ + enc_list(deep_list(items@).take(i as int)),
        decreases items@.len() - i,
    {
        proof {
            assert(decreases_to!(*items => (*items)[i as int]));
            assert(deep_list(items@)[i as int] == items@[i as int].deep());
            assert(val_wf(items@[i as int].deep()));
        }
        encode_value_into(&items[i], out);
        proof {
            crate::model::lemma_enc_list_snoc(deep_list(items@), i as int);
            assert(out@ =~= old(out)@ + enc_list(deep_list(items@).take(i as int + 1)));
        }
        i = i + 1;
    }
    proof {
        assert(deep_list(items@).take(items@.len() as int) =~= deep_list(items@));
    }
}

/// Append the concatenated encodings of a map's entries to `out`, each a
/// length-prefixed key followed by its value.
#[verifier::loop_isolation(false)]
fn encode_entries_into(entries: &Vec<(String, Value)>, out: &mut Vec<u8>)
    requires
        entries_wf(deep_entries(entries@)),
    ensures
        final(out)@ == old(out)@ + enc_entries(deep_entries(entries@)),
    decreases *entries,
{
    proof {
        lemma_deep_entries_index(entries@);
        crate::model::lemma_entries_wf_index(deep_entries(entries@));
        assert(out@ =~= out@ + enc_entries(deep_entries(entries@).take(0)));
    }
    let mut i: usize = 0;
    while i < entries.len()
        invariant
            i <= entries@.len(),
            out@ == old(out)@ + enc_entries(deep_entries(entries@).take(i as int)),
        decreases entries@.len() - i,
    {
        let pair = &entries[i];
        proof {
            assert(decreases_to!(*entries => (*entries)[i as int]));
            assert(decreases_to!((*entries)[i as int] => (*entries)[i as int].1));
            assert(deep_entries(entries@)[i as int] == (entries@[i as int].0@, entries@[i
                as int].1.deep()));
            assert(deep_entries(entries@)[i as int].0 == entries@[i as int].0@);
            assert(deep_entries(entries@)[i as int].1 == entries@[i as int].1.deep());
            assert(val_wf(entries@[i as int].1.deep()));
            assert(key_bytes(entries@[i as int].0@).len() <= u32::MAX);
        }
        let kb = pair.0.as_str().as_bytes();
        push_u32_le(out, kb.len() as u32);
        push_bytes(out, kb);
        encode_value_into(&pair.1, out);
        proof {
            crate::model::lemma_enc_entries_snoc(deep_entries(entries@), i as int);
            assert(out@ =~= old(out)@ + enc_entries(deep_entries(entries@).take(i as int + 1)));
        }
        i = i + 1;
    }
    proof {
        assert(deep_entries(entries@).take(entries@.len() as int) =~= deep_entries(entries@));
    }
}

/// `deep_list` distributes over appending one element.
pub proof fn lemma_deep_list_push(items: Seq<Value>, v: Value)
    ensures
        deep_list(items.push(v)) == deep_list(items) + seq![v.deep()],
{
    lemma_deep_list_index(items);
    lemma_deep_list_index(items.push(v));
    assert(deep_list(items.push(v)) =~= deep_list(items) + seq![v.deep()]);
}

/// Relies on String::from_utf8: it succeeds exactly on valid UTF-8, and the
/// resulting string is the UTF-8 decoding of the bytes.
#[verifier::external_body]
fn string_from_utf8(bytes: Vec<u8>) -> (r: Option<String>)
    ensures
        r is Some <==> valid_utf8(bytes@),
        r matches Some(s) ==> s@ == decode_utf8(bytes@),
{
    String::from_utf8(bytes).ok()
}

/// Insert a key and its value into a map's entry vector, keeping keys in
/// ascending lexicographic order of their UTF-8 bytes: the pair lands before
/// the first larger key, and replaces an equal key.
#[verifier::loop_isolation(false)]
pub fn map_insert(entries: &mut Vec<(String, Value)>, key: String, value: Value)
    ensures
        deep_entries(final(entries)@) == dict_insert(
            deep_entries(old(entries)@),
            key@,
            value.deep(),
        ),
{
    let ghost es = deep_entries(old(entries)@);
    proof {
        lemma_deep_entries_index(old(entries)@);
    }
    let mut i: usize = 0;
    loop
        invariant
            entries@ == old(entries)@,
            i <= entries@.len(),
            forall|j: int| 0 <= j < i ==> lex_less(key_bytes(#[trigger] es[j].0), key_bytes(key@)),
        decreases entries@.len() - i,
    {
        if i == entries.len() {
            proof {
                crate::model::lemma_dict_insert_skip(es, i as int, key@, value.deep());
                assert(es.skip(i as int) =~= Seq::<(Seq<char>, Val)>::empty());
                assert(es.take(i as int) =~= es);
            }
            entries.push((key, value));
            proof {
                lemma_deep_entries_index(entries@);
                assert(deep_entries(entries@) =~= es + seq![(key@, value.deep())]);
                assert(es + dict_insert(Seq::<(Seq<char>, Val)>::empty(), key@, value.deep()) =~= es
                    + seq![(key@, value.deep())]);
            }
            return ;
        }
        let verdict = {
            let pair = &entries[i];
            crate::wire::lex_cmp(key.as_str().as_bytes(), pair.0.as_str().as_bytes())
        };
        proof {
            assert(es[i as int] == (entries@[i as int].0@, entries@[i as int].1.deep()));
        }
        match verdict {
            crate::wire::ByteOrder::Less => {
                proof {
                    crate::model::lemma_dict_insert_skip(es, i as int, key@, value.deep());
                    assert(es.skip(i as int)[0] == es[i as int]);
                    assert(dict_insert(es.skip(i as int), key@, value.deep()) == seq![
                        (key@, value.deep()),
                    ] + es.skip(i as int));
                }
                entries.insert(i, (key, value));
                proof {
                    lemma_deep_entries_index(entries@);
                    assert(deep_entries(entries@) =~= es.take(i as int) + (seq![
                        (key@, value.deep()),
                    ] + es.skip(i as int)));
                }
                return ;
            },
            crate::wire::ByteOrder::Equal => {
                proof {
                    crate::wire::lemma_lex_trichotomy(key_bytes(key@), key_bytes(es[i as int].0));
                    crate::model::lemma_dict_insert_skip(es, i as int, key@, value.deep());
                    assert(es.skip(i as int)[0] == es[i as int]);
                    assert(es.skip(i as int).drop_first() =~= es.skip(i as int + 1));
                    assert(dict_insert(es.skip(i as int), key@, value.deep()) == seq![
                        (key@, value.deep()),
                    ] + es.skip(i as int + 1));
                }
                let _ = entries.remove(i);
                entries.insert(i, (key, value));
                proof {
                    lemma_deep_entries_index(entries@);
                    assert(deep_entries(entries@) =~= es.take(i as int) + (seq![
                        (key@, value.deep()),
                    ] + es.skip(i as int + 1)));
                }
                return ;
            },
            crate::wire::ByteOrder::Greater => {
                i = i + 1;
            },
        }
    }
}

/// Parse one value at `pos`; on success the returned position sits just past
/// the value's encoding.
#[verifier::loop_isolation(false)]
#[verifier::rlimit(60)]
fn parse_value_at(bytes: &Vec<u8>, pos: usize) -> (r: Result<(Value, usize), DecodeError>)
    ensures
        (match r {
            Ok((v, end)) => parse_value(bytes@, pos as int) == Ok::<(Val, int), DecodeError>(
                (v.deep(), end as int),
            ) && pos < end <= bytes@.len(),
            Err(e) => parse_value(bytes@, pos as int) == Err::<(Val, int), DecodeError>(e),
        }),
    decreases bytes@.len() - pos, 0int, 0int,
{
    let n = bytes.len();
    if pos >= n {
        return Err(DecodeError::TruncatedInput);
    }
    let tag = bytes[pos];
    if tag == 0 {
        Ok((Value::Null, pos + 1))
    } else if tag == 1 {
        if n - pos < 2 {
            return Err(DecodeError::TruncatedInput);
        }
        let b = bytes[pos + 1];
        Ok((Value::Boolean(b != 0), pos + 2))
    } else if tag == 2 {
        if n - pos < 5 {
            return Err(DecodeError::TruncatedInput);
        }
        let cell = crate::wire::read_u32_at(bytes.as_slice(), pos + 1);
        Ok((Value::Number(cell_to_number(cell)), pos + 5))
    } else if tag == 3 {
        if n - pos < 5 {
            return Err(DecodeError::TruncatedInput);
        }
        let len = crate::wire::read_u32_at(bytes.as_slice(), pos + 1) as usize;
        if len > n - (pos + 5) {
            return Err(DecodeError::TruncatedInput);
        }
        let raw = crate::wire::copy_range(bytes.as_slice(), pos + 5, len);
        match string_from_utf8(raw) {
            Some(s) => Ok((Value::String(s), pos + 5 + len)),
            None => Err(DecodeError::InvalidUtf8),
        }
    } else if tag == 4 {
        if n - pos < 5 {
            return Err(DecodeError::TruncatedInput);
        }
        let len = crate::wire::read_u32_at(bytes.as_slice(), pos + 1) as usize;
        if len > n - (pos + 5) {
            return Err(DecodeError::TruncatedInput);
        }
        let raw = crate::wire::copy_range(bytes.as_slice(), pos + 5, len);
        Ok((Value::Uint8Array(raw), pos + 5 + len))
    } else if tag == 5 {
        if n - pos < 5 {
            return Err(DecodeError::TruncatedInput);
        }
        let count = crate::wire::read_u32_at(bytes.as_slice(), pos + 1);
        let mut items: Vec<Value> = Vec::new();
        let mut cur = pos + 5;
        let mut rem = count;
        loop
            invariant
                pos + 5 <= cur <= n,
                (match parse_list(bytes@, cur as int, rem as int) {
                    Ok((rest, end)) => parse_list(bytes@, pos + 5, count as int) == Ok::<
                        (Seq<Val>, int),
                        DecodeError,
                    >((deep_list(items@) + rest, end)),
                    Err(e) => parse_list(bytes@, pos + 5, count as int) == Err::<
                        (Seq<Val>, int),
                        DecodeError,
                    >(e),
                }),
            decreases rem,
        {
            if rem == 0 {
                proof {
                    assert(deep_list(items@) + Seq::<Val>::empty() =~= deep_list(items@));
                }
                return Ok((Value::Array(items), cur));
            }
            match parse_value_at(bytes, cur) {
                Err(e) => {
                    return Err(e);
                },
                Ok((v, end)) => {
                    proof {
                        lemma_deep_list_push(items@, v);
                        let r2 = parse_list(bytes@, end as int, rem as int - 1);
                        if let Ok((rest, _fin)) = r2 {
                            assert(deep_list(items@) + (seq![v.deep()] + rest) =~= (deep_list(
                                items@,
                            ) + seq![v.deep()]) + rest);
                        }
                    }
                    items.push(v);
                    cur = end;
                    rem = rem - 1;
                },
            }
        }
    } else if tag == 6 {
        if n - pos < 5 {
            return Err(DecodeError::TruncatedInput);
        }
        let count = crate::wire::read_u32_at(bytes.as_slice(), pos + 1);
        let mut dict: Vec<(String, Value)> = Vec::new();
        let mut cur = pos + 5;
        let mut rem = count;
        let ghost mut wire_entries: Seq<(Seq<char>, Val)> = Seq::empty();
        loop
            invariant
                pos + 5 <= cur <= n,
                deep_entries(dict@) == crate::model::dict_extend(
                    Seq::<(Seq<char>, Val)>::empty(),
                    wire_entries,
                ),
                (match parse_entries(bytes@, cur as int, rem as int) {
                    Ok((rest, end)) => parse_entries(bytes@, pos + 5, count as int) == Ok::<
                        (Seq<(Seq<char>, Val)>, int),
                        DecodeError,
                    >((wire_entries + rest, end)),
                    Err(e) => parse_entries(bytes@, pos + 5, count as int) == Err::<
                        (Seq<(Seq<char>, Val)>, int),
                        DecodeError,
                    >(e),
                }),
            decreases rem,
        {
            if rem == 0 {
                proof {
                    assert(wire_entries + Seq::<(Seq<char>, Val)>::empty() =~= wire_entries);
                }
                return Ok((Value::Dict(dict), cur));
            }
            if n - cur < 4 {
                return Err(DecodeError::TruncatedInput);
            }
            let klen = crate::wire::read_u32_at(bytes.as_slice(), cur) as usize;
            if klen > n - (cur + 4) {
                return Err(DecodeError::TruncatedInput);
            }
            let kraw = crate::wire::copy_range(bytes.as_slice(), cur + 4, klen);
            match string_from_utf8(kraw) {
                None => {
                    return Err(DecodeError::InvalidUtf8);
                },
                Some(kstr) => {
                    let ghost k = kstr@;
                    match parse_value_at(bytes, cur + 4 + klen) {
                        Err(e) => {
                            return Err(e);
                        },
                        Ok((v, end)) => {
                            proof {
                                crate::model::lemma_dict_extend_snoc(
                                    Seq::<(Seq<char>, Val)>::empty(),
                                    wire_entries,
                                    (k, v.deep()),
                                );
                                assert(wire_entries + seq![(k, v.deep())] =~= wire_entries.push(
                                    (k, v.deep()),
                                ));
                                let r2 = parse_entries(bytes@, end as int, rem as int - 1);
                                if let Ok((rest, _fin)) = r2 {
                                    assert(wire_entries + (seq![(k, v.deep())] + rest) =~= (
                                    wire_entries + seq![(k, v.deep())]) + rest);
                                }
                            }
                            map_insert(&mut dict, kstr, v);
                            proof {
                                wire_entries = wire_entries.push((k, v.deep()));
                            }
                            cur = end;
                            rem = rem - 1;
                        },
                    }
                },
            }
        }
    } else {
        Err(DecodeError::InvalidTag)
    }
}

/// Split a framed buffer into the chunk its 4-byte length prefix counts and
/// whatever follows: the transport-side inverse of the framing that
/// `Packet::encode` adds.
pub fn read_length_prefixed(bytes: &[u8]) -> (r: (&[u8], &[u8]))
    requires
        bytes@.len() >= 4,
        4 + word_at(bytes@, 0) <= bytes@.len(),
    ensures
        r.0@ == bytes@.subrange(4, 4 + word_at(bytes@, 0)),
        r.1@ == bytes@.subrange(4 + word_at(bytes@, 0), bytes@.len() as int),
{
    let n = bytes.len();
    let len = crate::wire::read_u32_at(bytes, 0) as usize;
    let body = vstd::slice::slice_subrange(bytes, 4, 4 + len);
    let rest = vstd::slice::slice_subrange(bytes, 4 + len, n);
    (body, rest)
}

impl Packet {
    /// Encode this packet as a complete framed buffer: a 4-byte little-endian
    /// length, then the id/direction cell, then the payload's encoding. The
    /// length prefix counts exactly the bytes that follow it.
    pub fn encode(self) -> (out: Vec<u8>)
        requires
            packet_wf(self@),
            packet_body(self@).len() <= u32::MAX,
        ensures
            out@ == packet_frame(self@),
    {
        let mut body: Vec<u8> = Vec::new();
        let cell = if self.is_request {
            self.id << 1
        } else {
            (self.id << 1) | 1
        };
        proof {
            let id = self.id;
            assert((id << 1) | 0u32 == (id << 1)) by (bit_vector);
            assert(cell == pack_cell(self@.id, self@.is_request));
        }
        push_u32_le(&mut body, cell);
        encode_value_into(&self.value, &mut body);
        assert(body@ =~= packet_body(self@));
        let mut out: Vec<u8> = Vec::new();
        push_u32_le(&mut out, body.len() as u32);
        push_bytes(&mut out, body.as_slice());
        assert(out@ =~= packet_frame(self@));
        out
    }

    /// Decode a body buffer, already stripped of the outer length prefix, back
    /// into a packet: the id/direction cell, then exactly one value. Trailing
    /// bytes, a truncated field, an unknown tag or invalid UTF-8 fail with the
    /// corresponding error.
    pub fn decode(bytes: Vec<u8>) -> (r: Result<Packet, DecodeError>)
        ensures
            (match r {
                Ok(p) => parse_packet(bytes@) == Ok::<PacketModel, DecodeError>(p@) && packet_wf(
                    p@,
                ),
                Err(e) => parse_packet(bytes@) == Err::<PacketModel, DecodeError>(e),
            }),
    {
        proof {
            crate::laws::lemma_parse_packet_wf(bytes@);
        }
        let n = bytes.len();
        if n < 4 {
            return Err(DecodeError::TruncatedInput);
        }
        let cell = crate::wire::read_u32_at(bytes.as_slice(), 0);
        match parse_value_at(&bytes, 4) {
            Err(e) => Err(e),
            Ok((value, end)) => {
                if end != n {
                    return Err(DecodeError::MalformedFrame);
                }
                Ok(Packet { id: cell >> 1, is_request: (cell & 1) == 0, value })
            },
        }
    }
}

} // verus!
