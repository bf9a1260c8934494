//! Bencode: the value type of torrent metainfo, its encoder and its decoder.

use vstd::prelude::*;

use crate::decimal::{
    all_digits, canonical_digits, canonical_signed, split_sign, MINUS, PLUS,
    decimal, is_digit, parse_i64, parse_i64_text, parse_usize, parse_usize_text, push_decimal,
    push_signed_decimal, signed_decimal,
};
use vstd::utf8::valid_utf8;

verus! {

pub const INT_START: u8 = 105; // 'i'
pub const LIST_START: u8 = 108; // 'l'
pub const DICT_START: u8 = 100; // 'd'
pub const END: u8 = 101; // 'e'
pub const COLON: u8 = 58; // ':'

/// A bencode value as data: the model of `BencodeValue`.
pub enum Bencode {
    Int(i64),
    Bytes(Seq<u8>),
    List(Seq<Bencode>),
    /// Entries in the order in which they are encoded.
    Dict(Seq<(Seq<u8>, Bencode)>),
}

/// A bencode value. Byte strings are raw bytes, since torrent data is not
/// always valid UTF-8.
#[derive(Debug, PartialEq)]
pub enum BencodeValue {
    Int(i64),
    Bytes(Vec<u8>),
    List(Vec<BencodeValue>),
    Dict(BencodeDict),
}

/// The entries of a bencode dictionary, kept sorted by key and free of
/// duplicate keys, as bencode requires for a stable info hash.
#[derive(Debug, PartialEq)]
pub struct BencodeDict {
    entries: Vec<(Vec<u8>, BencodeValue)>,
}

impl BencodeValue {
    /// The value as data.
    pub open spec fn model(self) -> Bencode
        decreases self,
    {
        match self {
            BencodeValue::Int(i) => Bencode::Int(i),
            BencodeValue::Bytes(b) => Bencode::Bytes(b@),
            BencodeValue::List(items) => Bencode::List(items_model(items@)),
            BencodeValue::Dict(d) => Bencode::Dict(d.model()),
        }
    }
}

/// The models of list items.
pub open spec fn items_model(items: Seq<BencodeValue>) -> Seq<Bencode>
    decreases items,
{
    Seq::new(
        items.len(),
        |i: int|
            if 0 <= i < items.len() {
                items[i].model()
            } else {
                Bencode::Int(0)
            },
    )
}

/// The models of dictionary entries.
pub open spec fn entries_model(entries: Seq<(Vec<u8>, BencodeValue)>) -> Seq<(Seq<u8>, Bencode)>
    decreases entries,
{
    Seq::new(
        entries.len(),
        |i: int|
            if 0 <= i < entries.len() {
                (entries[i].0@, entries[i].1.model())
            } else {
                (Seq::empty(), Bencode::Int(0))
            },
    )
}

impl BencodeDict {
    /// The entries as data, in key order.
    pub closed spec fn model(self) -> Seq<(Seq<u8>, Bencode)>
        decreases self,
    {
        entries_model(self.entries@)
    }
}

/// Byte strings ordered as `Vec<u8>` orders them: lexicographically, a
/// proper prefix first.
pub open spec fn bytes_lt(a: Seq<u8>, b: Seq<u8>) -> bool
    decreases a.len(),
{
    if b.len() == 0 {
        false
    } else if a.len() == 0 {
        true
    } else if a[0] != b[0] {
        a[0] < b[0]
    } else {
        bytes_lt(a.drop_first(), b.drop_first())
    }
}

/// Keys in strictly ascending order, so each at most once.
pub open spec fn keys_ascending(entries: Seq<(Seq<u8>, Bencode)>) -> bool {
    forall|i: int, j: int|
        0 <= i < j < entries.len() ==> bytes_lt(#[trigger] entries[i].0, #[trigger] entries[j].0)
}

/// A value that bencode can hold and that a `BencodeValue` can hold:
/// dictionary keys ascend, and no byte string is longer than memory allows.
pub open spec fn well_formed(v: Bencode) -> bool
    decreases v,
{
    match v {
        Bencode::Int(_) => true,
        Bencode::Bytes(b) => b.len() <= usize::MAX,
        Bencode::List(items) => forall|i: int| 0 <= i < items.len() ==> well_formed(#[trigger] items[i]),
        Bencode::Dict(entries) => {
            &&& keys_ascending(entries)
            &&& forall|i: int|
                0 <= i < entries.len() ==> (#[trigger] entries[i]).0.len() <= usize::MAX
                    && well_formed(entries[i].1)
        },
    }
}

/// The encoding of a byte string: its length, a colon, its bytes.
pub open spec fn bytes_text(b: Seq<u8>) -> Seq<u8> {
    decimal(b.len()) + seq![COLON] + b
}

/// The bencode encoding of a value.
pub open spec fn encode_spec(v: Bencode) -> Seq<u8>
    decreases v,
{
    match v {
        Bencode::Int(i) => seq![INT_START] + signed_decimal(i as int) + seq![END],
        Bencode::Bytes(b) => bytes_text(b),
        Bencode::List(items) => seq![LIST_START] + encode_items(items) + seq![END],
        Bencode::Dict(entries) => seq![DICT_START] + encode_entries(entries) + seq![END],
    }
}

/// The encodings of list items, one after another.
pub open spec fn encode_items(items: Seq<Bencode>) -> Seq<u8>
    decreases items,
{
    if items.len() == 0 {
        Seq::empty()
    } else {
        encode_items(items.drop_last()) + encode_spec(items.last())
    }
}

/// The encodings of dictionary entries, key then value, one after another.
pub open spec fn encode_entries(entries: Seq<(Seq<u8>, Bencode)>) -> Seq<u8>
    decreases entries,
{
    if entries.len() == 0 {
        Seq::empty()
    } else {
        encode_entries(entries.drop_last()) + bytes_text(entries.last().0) + encode_spec(
            entries.last().1,
        )
    }
}

impl BencodeValue {
    /// The bencode encoding of this value: dictionary keys come out in
    /// strictly ascending order, and decoding the bytes gives the value back.
    pub fn encode(&self) -> (buf: Vec<u8>)
        ensures
            buf@ == encode_spec(self.model()),
            well_formed(self.model()),
            decode_spec(buf@) == Ok::<(Bencode, Seq<u8>), Seq<char>>(
                (self.model(), Seq::empty()),
            ),
    {
        let mut buf = Vec::new();
        self.encode_into(&mut buf);
        proof {
            lemma_decode_encode(self.model(), Seq::empty());
            assert(buf@ + Seq::<u8>::empty() =~= buf@);
        }
        buf
    }

    /// Appends the bencode encoding of this value to `buf`; every value is
    /// well formed, so dictionary keys come out in strictly ascending order.
    pub fn encode_into(&self, buf: &mut Vec<u8>)
        ensures
            final(buf)@ == old(buf)@ + encode_spec(self.model()),
            well_formed(self.model()),
        decreases self,
    {
        match self {
            BencodeValue::Int(val) => {
                buf.push(INT_START);
                push_signed_decimal(buf, *val);
                buf.push(END);
                assert(final(buf)@ =~= old(buf)@ + encode_spec(self.model()));
            },
            BencodeValue::Bytes(val) => {
                let len = val.len();
                assert(val@.len() == len);
                push_bytes_text(buf, val.as_slice());
            },
            BencodeValue::List(items) => {
                let ghost model = self.model()->List_0;
                buf.push(LIST_START);
                let mut i: usize = 0;
                while i < items.len()
                    invariant
                        i <= items.len(),
                        model == self.model()->List_0,
                        self matches BencodeValue::List(v) && v@ == items@,
                        model.len() == items@.len(),
                        forall|j: int| 0 <= j < items@.len() ==> model[j] == #[trigger] items@[j].model(),
                        forall|j: int| 0 <= j < i ==> well_formed(#[trigger] model[j]),
                        buf@ == old(buf)@ + seq![LIST_START] + encode_items(model.take(i as int)),
                    decreases items.len() - i,
                {
                    assert(decreases_to!(self => items@[i as int]));
                    items[i].encode_into(buf);
                    assert(model.take(i + 1).drop_last() =~= model.take(i as int));
                    i = i + 1;
                    assert(buf@ =~= old(buf)@ + seq![LIST_START] + encode_items(model.take(i as int)));
                }
                buf.push(END);
                assert(model.take(i as int) =~= model);
                assert(final(buf)@ =~= old(buf)@ + encode_spec(self.model()));
            },
            BencodeValue::Dict(d) => {
                proof {
                    use_type_invariant(d);
                }
                let ghost model = d.model();
                buf.push(DICT_START);
                let mut i: usize = 0;
                while i < d.entries.len()
                    invariant
                        i <= d.entries.len(),
                        model == d.model(),
                        self matches BencodeValue::Dict(dd) && dd == d,
                        model.len() == d.entries@.len(),
                        forall|j: int|
                            0 <= j < i ==> (#[trigger] model[j]).0.len() <= usize::MAX && well_formed(
                                model[j].1,
                            ),
                        buf@ == old(buf)@ + seq![DICT_START] + encode_entries(model.take(i as int)),
                    decreases d.entries.len() - i,
                {
                    let entry = &d.entries[i];
                    let key_len = entry.0.len();
                    assert(entry.0@.len() == key_len);
                    push_bytes_text(buf, entry.0.as_slice());
                    assert(decreases_to!(self => d.entries@[i as int].1));
                    entry.1.encode_into(buf);
                    assert(model.take(i + 1).drop_last() =~= model.take(i as int));
                    i = i + 1;
                    assert(buf@ =~= old(buf)@ + seq![DICT_START] + encode_entries(model.take(i as int)));
                }
                buf.push(END);
                assert(model.take(i as int) =~= model);
                assert(final(buf)@ =~= old(buf)@ + encode_spec(self.model()));
            },
        }
    }
}

/// Appends the encoding of the byte string `b` to `buf`.
fn push_bytes_text(buf: &mut Vec<u8>, b: &[u8])
    ensures
        final(buf)@ == old(buf)@ + bytes_text(b@),
{
    push_decimal(buf, b.len() as u64);
    buf.push(COLON);
    buf.extend_from_slice(b);
    assert(final(buf)@ =~= old(buf)@ + bytes_text(b@));
}

/// The first index at or after `i` that holds `b`.
pub open spec fn find_from(s: Seq<u8>, b: u8, i: int) -> Option<int>
    decreases s.len() - i,
{
    if i < 0 || i >= s.len() {
        None
    } else if s[i] == b {
        Some(i)
    } else {
        find_from(s, b, i + 1)
    }
}

/// `find_from` gives the first index from `i` on that holds `b`.
pub proof fn lemma_find_from(s: Seq<u8>, b: u8, i: int)
    requires
        0 <= i,
    ensures
        match find_from(s, b, i) {
            Some(j) => i <= j < s.len() && s[j] == b && forall|k: int| i <= k < j ==> s[k] != b,
            None => forall|k: int| i <= k < s.len() ==> s[k] != b,
        },
    decreases s.len() - i,
{
    if i < s.len() && s[i] != b {
        lemma_find_from(s, b, i + 1);
    }
}

/// The first index at or after `i` whose key is not below `k`.
pub open spec fn lower_bound_from(entries: Seq<(Seq<u8>, Bencode)>, k: Seq<u8>, i: int) -> int
    decreases entries.len() - i,
{
    if i < 0 || i >= entries.len() {
        i
    } else if bytes_lt(entries[i].0, k) {
        lower_bound_from(entries, k, i + 1)
    } else {
        i
    }
}

/// What `BTreeMap::insert` does to entries held in key order: the value of
/// an existing key is replaced, a new key goes where the order puts it.
pub open spec fn dict_insert(entries: Seq<(Seq<u8>, Bencode)>, k: Seq<u8>, v: Bencode) -> Seq<
    (Seq<u8>, Bencode),
> {
    let i = lower_bound_from(entries, k, 0);
    if i < entries.len() && entries[i].0 == k {
        entries.update(i, (k, v))
    } else {
        entries.insert(i, (k, v))
    }
}

/// The outcome of decoding: a value and the bytes after it, or a message.
pub type Decoded = Result<(Bencode, Seq<u8>), Seq<char>>;

/// What `decode` gives for `data`: the first value that `data` begins with,
/// and the bytes that follow it.
pub open spec fn decode_spec(data: Seq<u8>) -> Decoded
    decreases data.len(), 0int,
{
    if data.len() == 0 {
        Err("invalid bencode"@)
    } else if data[0] == INT_START {
        decode_int_spec(data)
    } else if data[0] == LIST_START {
        decode_items_spec(data.drop_first(), Seq::empty())
    } else if data[0] == DICT_START {
        decode_entries_spec(data.drop_first(), Seq::empty())
    } else if is_digit(data[0]) {
        decode_bytes_spec(data)
    } else {
        Err("invalid bencode"@)
    }
}

/// Decoding an integer: `i`, a numeral up to the first `e`, the `e`.
pub open spec fn decode_int_spec(data: Seq<u8>) -> Decoded {
    match find_from(data, END, 0) {
        None => Err("unterminated int"@),
        Some(end) => {
            let body = data.subrange(1, end);
            if !valid_utf8(body) {
                Err("bad utf8 in int"@)
            } else {
                match parse_i64_text(body) {
                    None => Err("bad int"@),
                    Some(n) => Ok((Bencode::Int(n), data.skip(end + 1))),
                }
            }
        },
    }
}

/// Decoding a byte string: a length up to the first colon, the colon, then
/// that many bytes.
pub open spec fn decode_bytes_spec(data: Seq<u8>) -> Decoded {
    match find_from(data, COLON, 0) {
        None => Err("no colon"@),
        Some(colon) => match parse_usize_text(data.take(colon)) {
            None => Err("bad length"@),
            Some(n) => {
                let start = colon + 1;
                let end = start + n;
                if end > data.len() {
                    Err("string too short"@)
                } else {
                    Ok((Bencode::Bytes(data.subrange(start, end)), data.skip(end)))
                }
            },
        },
    }
}

/// Decoding the rest of a list whose items so far are `acc`, from just
/// after the `l` or the last item.
pub open spec fn decode_items_spec(s: Seq<u8>, acc: Seq<Bencode>) -> Decoded
    decreases s.len(), 1int,
{
    if s.len() > 0 && s[0] == END {
        Ok((Bencode::List(acc), s.drop_first()))
    } else {
        match decode_spec(s) {
            Err(e) => Err(e),
            Ok((v, r)) => if r.len() < s.len() {
                decode_items_spec(r, acc.push(v))
            } else {
                Err("invalid bencode"@)
            },
        }
    }
}

/// Decoding the rest of a dictionary whose entries so far are `acc`.
pub open spec fn decode_entries_spec(s: Seq<u8>, acc: Seq<(Seq<u8>, Bencode)>) -> Decoded
    decreases s.len(), 1int,
{
    if s.len() > 0 && s[0] == END {
        Ok((Bencode::Dict(acc), s.drop_first()))
    } else {
        match decode_spec(s) {
            Err(e) => Err(e),
            Ok((key, r)) => match key {
                Bencode::Bytes(k) => if r.len() < s.len() {
                    match decode_spec(r) {
                        Err(e) => Err(e),
                        Ok((v, r2)) => if r2.len() < r.len() {
                            decode_entries_spec(r2, dict_insert(acc, k, v))
                        } else {
                            Err("invalid bencode"@)
                        },
                    }
                } else {
                    Err("invalid bencode"@)
                },
                _ => Err("dict key must be bytes"@),
            },
        }
    }
}

/// The exec outcome `r` of decoding is the outcome `d` of the spec.
pub open spec fn decoded_as(r: Result<(BencodeValue, &[u8]), String>, d: Decoded) -> bool {
    match r {
        Ok((v, rest)) => d == Ok::<(Bencode, Seq<u8>), Seq<char>>((v.model(), rest@)),
        Err(e) => d == Err::<(Bencode, Seq<u8>), Seq<char>>(e@),
    }
}

/// `std::str::from_utf8`, asked only whether it accepts `bytes`.
/// Trusted: it accepts exactly the byte strings that are valid UTF-8.
#[verifier::external_body]
fn is_utf8(bytes: &[u8]) -> (ok: bool)
    ensures
        ok == valid_utf8(bytes@),
{
    std::str::from_utf8(bytes).is_ok()
}

/// The first index of `b` in `s`.
fn find_byte(s: &[u8], b: u8) -> (r: Option<usize>)
    ensures
        match r {
            Some(i) => find_from(s@, b, 0) == Some(i as int),
            None => find_from(s@, b, 0) is None,
        },
        r matches Some(i) ==> i < s@.len() && s@[i as int] == b,
{
    let mut i: usize = 0;
    while i < s.len()
        invariant
            i <= s.len(),
            find_from(s@, b, 0) == find_from(s@, b, i as int),
        decreases s.len() - i,
    {
        if s[i] == b {
            return Some(i);
        }
        i = i + 1;
    }
    None
}

/// Decodes the first bencode value in `data`; gives it with the bytes that
/// follow it.
pub fn decode(data: &[u8]) -> (r: Result<(BencodeValue, &[u8]), String>)
    ensures
        decoded_as(r, decode_spec(data@)),
        r matches Ok((v, rest)) ==> rest@.len() < data@.len() && well_formed(v.model()),
        canonical(data@) ==> (r matches Ok((v, rest)) ==> encode_spec(v.model()) + rest@ == data@),
    decreases data.len(), 1int,
{
    proof {
        lemma_decode_well_formed(data@);
        if canonical(data@) {
            lemma_canonical_reencode(data@);
        }
    }
    if data.len() == 0 {
        return Err(String::from_str("invalid bencode"));
    }
    let first = data[0];
    if first == INT_START {
        decode_int(data)
    } else if first == LIST_START {
        decode_list(data)
    } else if first == DICT_START {
        decode_dict(data)
    } else if 48 <= first && first <= 57 {
        decode_bytes(data)
    } else {
        Err(String::from_str("invalid bencode"))
    }
}

fn decode_int(data: &[u8]) -> (r: Result<(BencodeValue, &[u8]), String>)
    requires
        data.len() > 0,
        data[0] == INT_START,
    ensures
        decoded_as(r, decode_int_spec(data@)),
        r matches Ok((_, rest)) ==> rest@.len() < data@.len(),
{
    let end = match find_byte(data, END) {
        Some(end) => end,
        None => return Err(String::from_str("unterminated int")),
    };
    proof {
        lemma_find_from(data@, END, 0);
    }
    let body = &data[1..end];
    if !is_utf8(body) {
        return Err(String::from_str("bad utf8 in int"));
    }
    match parse_i64(body) {
        None => Err(String::from_str("bad int")),
        Some(n) => Ok((BencodeValue::Int(n), &data[end + 1..data.len()])),
    }
}

fn decode_bytes(data: &[u8]) -> (r: Result<(BencodeValue, &[u8]), String>)
    requires
        data.len() > 0,
        is_digit(data[0]),
    ensures
        decoded_as(r, decode_bytes_spec(data@)),
        r matches Ok((_, rest)) ==> rest@.len() < data@.len(),
{
    let colon = match find_byte(data, COLON) {
        Some(colon) => colon,
        None => return Err(String::from_str("no colon")),
    };
    assert(data@.take(colon as int) =~= data@.subrange(0, colon as int));
    let len = match parse_usize(&data[0..colon]) {
        Some(len) => len,
        None => return Err(String::from_str("bad length")),
    };
    let start = colon + 1;
    if len > data.len() - start {
        return Err(String::from_str("string too short"));
    }
    let end = start + len;
    let bytes = vstd::slice::slice_to_vec(&data[start..end]);
    Ok((BencodeValue::Bytes(bytes), &data[end..data.len()]))
}

fn decode_list(data: &[u8]) -> (r: Result<(BencodeValue, &[u8]), String>)
    requires
        data.len() > 0,
        data[0] == LIST_START,
    ensures
        decoded_as(r, decode_items_spec(data@.drop_first(), Seq::empty())),
        r matches Ok((_, rest)) ==> rest@.len() < data@.len(),
    decreases data.len(), 0int,
{
    let mut items: Vec<BencodeValue> = Vec::new();
    let mut rest = &data[1..data.len()];
    assert(items_model(items@) =~= Seq::<Bencode>::empty());
    loop
        invariant
            rest@.len() < data@.len(),
            decode_items_spec(rest@, items_model(items@)) == decode_items_spec(
                data@.drop_first(),
                Seq::empty(),
            ),
        decreases rest.len(),
    {
        if rest.len() > 0 && rest[0] == END {
            let r = Ok((BencodeValue::List(items), &rest[1..rest.len()]));
            assert(rest@.drop_first() =~= rest@.subrange(1, rest@.len() as int));
            return r;
        }
        let (val, new_rest) = match decode(rest) {
            Ok(x) => x,
            Err(e) => return Err(e),
        };
        let ghost old_items = items@;
        items.push(val);
        assert(items_model(items@) =~= items_model(old_items).push(val.model()));
        rest = new_rest;
    }
}

fn decode_dict(data: &[u8]) -> (r: Result<(BencodeValue, &[u8]), String>)
    requires
        data.len() > 0,
        data[0] == DICT_START,
    ensures
        decoded_as(r, decode_entries_spec(data@.drop_first(), Seq::empty())),
        r matches Ok((_, rest)) ==> rest@.len() < data@.len(),
    decreases data.len(), 0int,
{
    let mut entries: Vec<(Vec<u8>, BencodeValue)> = Vec::new();
    let mut rest = &data[1..data.len()];
    assert(entries_model(entries@) =~= Seq::<(Seq<u8>, Bencode)>::empty());
    loop
        invariant
            rest@.len() < data@.len(),
            decode_entries_spec(rest@, entries_model(entries@)) == decode_entries_spec(
                data@.drop_first(),
                Seq::empty(),
            ),
            keys_ascending(entries_model(entries@)),
        decreases rest.len(),
    {
        if rest.len() > 0 && rest[0] == END {
            let dict = BencodeDict { entries };
            let r = Ok((BencodeValue::Dict(dict), &rest[1..rest.len()]));
            assert(rest@.drop_first() =~= rest@.subrange(1, rest@.len() as int));
            return r;
        }
        let (key, new_rest) = match decode(rest) {
            Ok(x) => x,
            Err(e) => return Err(e),
        };
        let key_bytes = match key {
            BencodeValue::Bytes(b) => b,
            _ => return Err(String::from_str("dict key must be bytes")),
        };
        let (val, new_rest2) = match decode(new_rest) {
            Ok(x) => x,
            Err(e) => return Err(e),
        };
        proof {
            lemma_dict_insert_ascending(entries_model(entries@), key_bytes@, val.model());
        }
        insert_entry(&mut entries, key_bytes, val);
        rest = new_rest2;
    }
}

/// Whether byte string `a` sorts below, equal to or above `b`.
#[derive(PartialEq, Eq, Structural, Debug, Clone, Copy)]
pub enum KeyOrder {
    Below,
    Equal,
    Above,
}

/// Compares byte strings as `Vec<u8>` orders them.
pub fn compare_bytes(a: &[u8], b: &[u8]) -> (r: KeyOrder)
    ensures
        r == KeyOrder::Below <==> bytes_lt(a@, b@),
        r == KeyOrder::Equal <==> a@ == b@,
        r == KeyOrder::Above <==> bytes_lt(b@, a@),
{
    let mut i: usize = 0;
    assert(a@.skip(0) =~= a@);
    assert(b@.skip(0) =~= b@);
    while i < a.len() && i < b.len()
        invariant
            i <= a.len(),
            i <= b.len(),
            a@.take(i as int) == b@.take(i as int),
            bytes_lt(a@, b@) == bytes_lt(a@.skip(i as int), b@.skip(i as int)),
            bytes_lt(b@, a@) == bytes_lt(b@.skip(i as int), a@.skip(i as int)),
        decreases a.len() - i,
    {
        assert(a@.skip(i as int).drop_first() =~= a@.skip(i + 1));
        assert(b@.skip(i as int).drop_first() =~= b@.skip(i + 1));
        if a[i] != b[i] {
            if a[i] < b[i] {
                return KeyOrder::Below;
            } else {
                return KeyOrder::Above;
            }
        }
        assert(a@.take(i + 1) =~= a@.take(i as int).push(a@[i as int]));
        assert(b@.take(i + 1) =~= b@.take(i as int).push(b@[i as int]));
        i = i + 1;
    }
    if a.len() < b.len() {
        assert(a@.skip(i as int).len() == 0);
        assert(a@ != b@);
        KeyOrder::Below
    } else if a.len() > b.len() {
        assert(b@.skip(i as int).len() == 0);
        assert(a@ != b@);
        KeyOrder::Above
    } else {
        assert(a@ =~= a@.take(i as int));
        assert(b@ =~= b@.take(i as int));
        assert(a@.skip(i as int).len() == 0);
        KeyOrder::Equal
    }
}

/// The value that entries held in key order give for key `k`, as
/// `BTreeMap::get` finds it.
pub open spec fn dict_get(entries: Seq<(Seq<u8>, Bencode)>, k: Seq<u8>) -> Option<Bencode> {
    let i = lower_bound_from(entries, k, 0);
    if i < entries.len() && entries[i].0 == k {
        Some(entries[i].1)
    } else {
        None
    }
}

/// What `BTreeMap::remove` does to entries held in key order.
pub open spec fn dict_remove(entries: Seq<(Seq<u8>, Bencode)>, k: Seq<u8>) -> Seq<
    (Seq<u8>, Bencode),
> {
    let i = lower_bound_from(entries, k, 0);
    if i < entries.len() && entries[i].0 == k {
        entries.remove(i)
    } else {
        entries
    }
}

/// The index at which key `k` is, or would go, in `entries`.
fn lower_bound(entries: &Vec<(Vec<u8>, BencodeValue)>, k: &[u8]) -> (i: usize)
    ensures
        i == lower_bound_from(entries_model(entries@), k@, 0),
        i <= entries@.len(),
{
    let ghost m = entries_model(entries@);
    let mut i: usize = 0;
    while i < entries.len()
        invariant
            i <= entries.len(),
            m == entries_model(entries@),
            lower_bound_from(m, k@, 0) == lower_bound_from(m, k@, i as int),
        ensures
            i <= entries.len(),
            lower_bound_from(m, k@, 0) == i,
        decreases entries.len() - i,
    {
        if compare_bytes(entries[i].0.as_slice(), k) != KeyOrder::Below {
            break;
        }
        i = i + 1;
    }
    i
}

/// Inserts an entry as `BTreeMap::insert` does; gives back the value that
/// the key had.
fn insert_entry(entries: &mut Vec<(Vec<u8>, BencodeValue)>, k: Vec<u8>, v: BencodeValue) -> (old_value: Option<BencodeValue>)
    ensures
        entries_model(final(entries)@) == dict_insert(entries_model(old(entries)@), k@, v.model()),
        match old_value {
            Some(o) => dict_get(entries_model(old(entries)@), k@) == Some(o.model()),
            None => dict_get(entries_model(old(entries)@), k@) is None,
        },
{
    let ghost m = entries_model(entries@);
    let i = lower_bound(entries, k.as_slice());
    if i < entries.len() && compare_bytes(entries[i].0.as_slice(), k.as_slice()) == KeyOrder::Equal {
        let (_, old_v) = entries.remove(i);
        entries.insert(i, (k, v));
        assert(entries_model(entries@) =~= m.update(i as int, (k@, v.model())));
        Some(old_v)
    } else {
        entries.insert(i, (k, v));
        assert(entries_model(entries@) =~= m.insert(i as int, (k@, v.model())));
        None
    }
}

impl BencodeDict {
    #[verifier::type_invariant]
    closed spec fn keys_in_order(self) -> bool {
        keys_ascending(self.model())
    }

    /// An empty dictionary.
    pub fn new() -> (d: Self)
        ensures
            d.model() == Seq::<(Seq<u8>, Bencode)>::empty(),
    {
        let d = BencodeDict { entries: Vec::new() };
        assert(d.model() =~= Seq::<(Seq<u8>, Bencode)>::empty());
        d
    }

    /// The number of entries.
    pub fn len(&self) -> (n: usize)
        ensures
            n == self.model().len(),
    {
        self.entries.len()
    }

    /// Whether there are no entries.
    pub fn is_empty(&self) -> (b: bool)
        ensures
            b == (self.model().len() == 0),
    {
        self.entries.len() == 0
    }

    /// Sets the value of `key`, as `BTreeMap::insert`; gives back the value
    /// that the key had.
    pub fn insert(&mut self, key: Vec<u8>, value: BencodeValue) -> (old_value: Option<BencodeValue>)
        ensures
            final(self).model() == dict_insert(old(self).model(), key@, value.model()),
            keys_ascending(final(self).model()),
            match old_value {
                Some(o) => dict_get(old(self).model(), key@) == Some(o.model()),
                None => dict_get(old(self).model(), key@) is None,
            },
    {
        proof {
            use_type_invariant(&*self);
            lemma_dict_insert_ascending(self.model(), key@, value.model());
        }
        let mut entries: Vec<(Vec<u8>, BencodeValue)> = Vec::new();
        std::mem::swap(&mut entries, &mut self.entries);
        let old_value = insert_entry(&mut entries, key, value);
        self.entries = entries;
        old_value
    }

    /// Whether `key` has a value, as `BTreeMap::contains_key`.
    pub fn contains_key(&self, key: &[u8]) -> (b: bool)
        ensures
            b == dict_get(self.model(), key@) is Some,
    {
        self.get(key).is_some()
    }

    /// Takes the entry of `key` out, as `BTreeMap::remove`; gives back the
    /// value that the key had.
    pub fn remove(&mut self, key: &[u8]) -> (old_value: Option<BencodeValue>)
        ensures
            final(self).model() == dict_remove(old(self).model(), key@),
            keys_ascending(final(self).model()),
            match old_value {
                Some(o) => dict_get(old(self).model(), key@) == Some(o.model()),
                None => dict_get(old(self).model(), key@) is None,
            },
    {
        proof {
            use_type_invariant(&*self);
            lemma_dict_remove_ascending(self.model(), key@);
        }
        let ghost m = self.model();
        let mut entries: Vec<(Vec<u8>, BencodeValue)> = Vec::new();
        std::mem::swap(&mut entries, &mut self.entries);
        let i = lower_bound(&entries, key);
        if i < entries.len() && compare_bytes(entries[i].0.as_slice(), key) == KeyOrder::Equal {
            let (_, old_v) = entries.remove(i);
            assert(entries_model(entries@) =~= m.remove(i as int));
            self.entries = entries;
            Some(old_v)
        } else {
            self.entries = entries;
            None
        }
    }

    /// The value of `key`, as `BTreeMap::get`.
    pub fn get(&self, key: &[u8]) -> (r: Option<&BencodeValue>)
        ensures
            match r {
                Some(v) => dict_get(self.model(), key@) == Some(v.model()),
                None => dict_get(self.model(), key@) is None,
            },
    {
        let i = lower_bound(&self.entries, key);
        if i < self.entries.len() && compare_bytes(self.entries[i].0.as_slice(), key)
            == KeyOrder::Equal {
            Some(&self.entries[i].1)
        } else {
            None
        }
    }

    /// The entry at position `i` in key order.
    pub fn entry(&self, i: usize) -> (r: (&[u8], &BencodeValue))
        requires
            i < self.model().len(),
        ensures
            r.0@ == self.model()[i as int].0,
            r.1.model() == self.model()[i as int].1,
    {
        (self.entries[i].0.as_slice(), &self.entries[i].1)
    }

    /// A copy with the same entries.
    pub fn deep_clone(&self) -> (r: Self)
        ensures
            r.model() == self.model(),
        decreases self,
    {
        proof {
            use_type_invariant(self);
        }
        let mut entries: Vec<(Vec<u8>, BencodeValue)> = Vec::new();
        let mut i: usize = 0;
        while i < self.entries.len()
            invariant
                i <= self.entries.len(),
                entries@.len() == i,
                entries_model(entries@) == self.model().take(i as int),
            decreases self.entries.len() - i,
        {
            let key = self.entries[i].0.clone();
            assert(decreases_to!(self => self.entries@[i as int].1));
            let value = self.entries[i].1.deep_clone();
            let ghost before = entries@;
            entries.push((key, value));
            assert forall|j: int| 0 <= j < i implies #[trigger] entries_model(entries@)[j]
                == entries_model(before)[j] by {
                assert(entries@[j] == before[j]);
            }
            assert(entries_model(entries@)[i as int] == self.model()[i as int]);
            assert(entries_model(entries@) =~= self.model().take(i + 1));
            i = i + 1;
        }
        assert(self.model().take(i as int) =~= self.model());
        BencodeDict { entries }
    }
}

impl BencodeValue {
    /// A copy with the same model.
    pub fn deep_clone(&self) -> (r: Self)
        ensures
            r.model() == self.model(),
        decreases self,
    {
        match self {
            BencodeValue::Int(n) => BencodeValue::Int(*n),
            BencodeValue::Bytes(b) => BencodeValue::Bytes(b.clone()),
            BencodeValue::List(items) => {
                let mut copy: Vec<BencodeValue> = Vec::new();
                let mut i: usize = 0;
                while i < items.len()
                    invariant
                        i <= items.len(),
                        self matches BencodeValue::List(v) && v@ == items@,
                        copy@.len() == i,
                        items_model(copy@) == items_model(items@).take(i as int),
                    decreases items.len() - i,
                {
                    assert(decreases_to!(self => items@[i as int]));
                    let item = items[i].deep_clone();
                    let ghost before = copy@;
                    copy.push(item);
                    assert forall|j: int| 0 <= j < i implies #[trigger] items_model(copy@)[j]
                        == items_model(before)[j] by {
                        assert(copy@[j] == before[j]);
                    }
                    assert(items_model(copy@) =~= items_model(items@).take(i + 1));
                    i = i + 1;
                }
                assert(items_model(items@).take(i as int) =~= items_model(items@));
                BencodeValue::List(copy)
            },
            BencodeValue::Dict(d) => BencodeValue::Dict(d.deep_clone()),
        }
    }
}

impl Clone for BencodeValue {
    fn clone(&self) -> (r: Self)
        ensures
            r.model() == self.model(),
    {
        self.deep_clone()
    }
}

impl Clone for BencodeDict {
    fn clone(&self) -> (r: Self)
        ensures
            r.model() == self.model(),
    {
        self.deep_clone()
    }
}

/// Text whose bytes are all ASCII is valid UTF-8.
proof fn lemma_ascii_is_utf8(s: Seq<u8>)
    requires
        forall|i: int| 0 <= i < s.len() ==> #[trigger] s[i] < 0x80,
    ensures
        valid_utf8(s),
    decreases s.len(),
{
    if s.len() != 0 {
        let b = s[0];
        assert(b & 0x7f <= 0x7f) by (bit_vector);
        let tail = s.subrange(1, s.len() as int);
        assert forall|i: int| 0 <= i < tail.len() implies #[trigger] tail[i] < 0x80 by {
            assert(tail[i] == s[i + 1]);
        }
        lemma_ascii_is_utf8(tail);
    }
}

/// `find_from` finds the index `k` when `b` is at `k` and nowhere before it
/// from `i` on.
proof fn lemma_find_at(s: Seq<u8>, b: u8, i: int, k: int)
    requires
        0 <= i <= k < s.len(),
        s[k] == b,
        forall|j: int| i <= j < k ==> s[j] != b,
    ensures
        find_from(s, b, i) == Some(k),
{
    lemma_find_from(s, b, i);
}

/// An encoding is never empty and never starts with `e`.
proof fn lemma_encode_start(v: Bencode)
    ensures
        encode_spec(v).len() >= 1,
        encode_spec(v)[0] != END,
        encode_spec(v)[0] == INT_START <==> v is Int,
        encode_spec(v)[0] == LIST_START <==> v is List,
        encode_spec(v)[0] == DICT_START <==> v is Dict,
        is_digit(encode_spec(v)[0]) <==> v is Bytes,
{
    match v {
        Bencode::Bytes(b) => {
            crate::decimal::lemma_decimal(b.len());
            assert(encode_spec(v)[0] == decimal(b.len())[0]);
        },
        _ => {},
    }
}

proof fn lemma_int_roundtrip(n: i64, rest: Seq<u8>)
    ensures
        decode_spec(encode_spec(Bencode::Int(n)) + rest) == Ok::<(Bencode, Seq<u8>), Seq<char>>(
            (Bencode::Int(n), rest),
        ),
{
    let text = signed_decimal(n as int);
    let data = encode_spec(Bencode::Int(n)) + rest;
    let end: int = text.len() as int + 1;
    if n < 0 {
        crate::decimal::lemma_decimal((-n) as nat);
    } else {
        crate::decimal::lemma_decimal(n as nat);
    }
    assert forall|j: int| 0 <= j < text.len() implies #[trigger] text[j] != END && text[j] < 0x80 by {
        if n < 0 && j > 0 {
            assert(text[j] == decimal((-n) as nat)[j - 1]);
        }
    }
    assert forall|j: int| 0 <= j < end implies data[j] != END by {
        if j > 0 {
            assert(data[j] == text[j - 1]);
        }
    }
    lemma_find_at(data, END, 0, end);
    assert(data.subrange(1, end) =~= text);
    lemma_ascii_is_utf8(text);
    crate::decimal::lemma_parse_signed_decimal(n);
    assert(data.skip(end + 1) =~= rest);
}

proof fn lemma_bytes_roundtrip(b: Seq<u8>, rest: Seq<u8>)
    requires
        b.len() <= usize::MAX,
    ensures
        decode_spec(bytes_text(b) + rest) == Ok::<(Bencode, Seq<u8>), Seq<char>>(
            (Bencode::Bytes(b), rest),
        ),
{
    let digits = decimal(b.len());
    let data = bytes_text(b) + rest;
    crate::decimal::lemma_decimal(b.len());
    crate::decimal::lemma_parse_decimal(b.len() as usize);
    let colon = digits.len() as int;
    assert forall|j: int| 0 <= j < colon implies data[j] != COLON by {
        assert(data[j] == digits[j]);
        assert(crate::decimal::is_digit(digits[j]));
    }
    assert(data[0] == digits[0]);
    lemma_find_at(data, COLON, 0, colon);
    assert(data.take(colon) =~= digits);
    assert(data.subrange(colon + 1, colon + 1 + b.len()) =~= b);
    assert(data.skip(colon + 1 + b.len()) =~= rest);
}

/// The encoding of list items read front to back.
proof fn lemma_encode_items_front(items: Seq<Bencode>)
    requires
        items.len() > 0,
    ensures
        encode_items(items) == encode_spec(items[0]) + encode_items(items.drop_first()),
    decreases items.len(),
{
    if items.len() > 1 {
        lemma_encode_items_front(items.drop_last());
        assert(items.drop_last().drop_first() =~= items.drop_first().drop_last());
        assert(items.drop_first().last() == items.last());
        assert(encode_items(items) =~= encode_spec(items[0]) + encode_items(items.drop_first()));
    } else {
        assert(items.drop_last().len() == 0);
        assert(items.drop_first().len() == 0);
        assert(encode_items(items.drop_last()) =~= Seq::<u8>::empty());
        assert(encode_items(items.drop_first()) =~= Seq::<u8>::empty());
        assert(items.last() == items[0]);
        assert(encode_items(items) =~= encode_spec(items[0]) + encode_items(items.drop_first()));
    }
}

/// The encoding of dictionary entries read front to back.
proof fn lemma_encode_entries_front(entries: Seq<(Seq<u8>, Bencode)>)
    requires
        entries.len() > 0,
    ensures
        encode_entries(entries) == bytes_text(entries[0].0) + encode_spec(entries[0].1)
            + encode_entries(entries.drop_first()),
    decreases entries.len(),
{
    if entries.len() > 1 {
        lemma_encode_entries_front(entries.drop_last());
        assert(entries.drop_last().drop_first() =~= entries.drop_first().drop_last());
        assert(entries.drop_first().last() == entries.last());
        assert(encode_entries(entries) =~= bytes_text(entries[0].0) + encode_spec(entries[0].1)
            + encode_entries(entries.drop_first()));
    } else {
        assert(entries.drop_last().len() == 0);
        assert(entries.drop_first().len() == 0);
        assert(encode_entries(entries.drop_last()) =~= Seq::<u8>::empty());
        assert(encode_entries(entries.drop_first()) =~= Seq::<u8>::empty());
        assert(entries.last() == entries[0]);
        assert(encode_entries(entries) =~= bytes_text(entries[0].0) + encode_spec(entries[0].1)
            + encode_entries(entries.drop_first()));
    }
}

/// A key above every key of `entries` from `i` on is inserted at the end.
proof fn lemma_lower_bound_past(entries: Seq<(Seq<u8>, Bencode)>, k: Seq<u8>, i: int)
    requires
        0 <= i <= entries.len(),
        forall|j: int| i <= j < entries.len() ==> bytes_lt(#[trigger] entries[j].0, k),
    ensures
        lower_bound_from(entries, k, i) == entries.len(),
    decreases entries.len() - i,
{
    if i < entries.len() {
        lemma_lower_bound_past(entries, k, i + 1);
    }
}

/// The law of this module: decoding an encoding gives the value back, and
/// leaves whatever followed it untouched.
pub proof fn lemma_decode_encode(v: Bencode, rest: Seq<u8>)
    requires
        well_formed(v),
    ensures
        decode_spec(encode_spec(v) + rest) == Ok::<(Bencode, Seq<u8>), Seq<char>>((v, rest)),
    decreases v,
{
    match v {
        Bencode::Int(n) => lemma_int_roundtrip(n, rest),
        Bencode::Bytes(b) => lemma_bytes_roundtrip(b, rest),
        Bencode::List(items) => {
            let data = encode_spec(v) + rest;
            lemma_decode_items(items, Seq::empty(), rest);
            assert(data.drop_first() =~= encode_items(items) + seq![END] + rest);
            assert(Seq::<Bencode>::empty() + items =~= items);
        },
        Bencode::Dict(entries) => {
            let data = encode_spec(v) + rest;
            assert(Seq::<(Seq<u8>, Bencode)>::empty() + entries =~= entries);
            lemma_decode_entries(entries, Seq::empty(), rest);
            assert(data.drop_first() =~= encode_entries(entries) + seq![END] + rest);
        },
    }
}

proof fn lemma_decode_items(items: Seq<Bencode>, acc: Seq<Bencode>, rest: Seq<u8>)
    requires
        forall|i: int| 0 <= i < items.len() ==> well_formed(#[trigger] items[i]),
    ensures
        decode_items_spec(encode_items(items) + seq![END] + rest, acc) == Ok::<
            (Bencode, Seq<u8>),
            Seq<char>,
        >((Bencode::List(acc + items), rest)),
    decreases items,
{
    let s = encode_items(items) + seq![END] + rest;
    if items.len() == 0 {
        assert(s =~= seq![END] + rest);
        assert(s.drop_first() =~= rest);
        assert(acc + items =~= acc);
    } else {
        let x = items[0];
        let tail = items.drop_first();
        let after = encode_items(tail) + seq![END] + rest;
        lemma_encode_items_front(items);
        lemma_encode_start(x);
        assert(s =~= encode_spec(x) + after);
        lemma_decode_encode(x, after);
        assert forall|i: int| 0 <= i < tail.len() implies well_formed(#[trigger] tail[i]) by {
            assert(tail[i] == items[i + 1]);
        }
        lemma_decode_items(tail, acc.push(x), rest);
        assert(acc.push(x) + tail =~= acc + items);
    }
}

proof fn lemma_decode_entries(
    entries: Seq<(Seq<u8>, Bencode)>,
    acc: Seq<(Seq<u8>, Bencode)>,
    rest: Seq<u8>,
)
    requires
        keys_ascending(acc + entries),
        forall|i: int|
            0 <= i < entries.len() ==> (#[trigger] entries[i]).0.len() <= usize::MAX
                && well_formed(entries[i].1),
    ensures
        decode_entries_spec(encode_entries(entries) + seq![END] + rest, acc) == Ok::<
            (Bencode, Seq<u8>),
            Seq<char>,
        >((Bencode::Dict(acc + entries), rest)),
    decreases entries,
{
    let s = encode_entries(entries) + seq![END] + rest;
    if entries.len() == 0 {
        assert(s =~= seq![END] + rest);
        assert(s.drop_first() =~= rest);
        assert(acc + entries =~= acc);
    } else {
        let (k, x) = entries[0];
        let tail = entries.drop_first();
        let after = encode_entries(tail) + seq![END] + rest;
        let r = encode_spec(x) + after;
        lemma_encode_entries_front(entries);
        assert(s =~= bytes_text(k) + r);
        lemma_bytes_roundtrip(k, r);
        assert(bytes_text(k)[0] == decimal(k.len())[0]);
        crate::decimal::lemma_decimal(k.len());
        lemma_encode_start(x);
        lemma_decode_encode(x, after);
        let all = acc + entries;
        assert forall|j: int| 0 <= j < acc.len() implies bytes_lt(#[trigger] acc[j].0, k) by {
            assert(all[j] == acc[j]);
            assert(all[acc.len() as int] == entries[0]);
        }
        lemma_lower_bound_past(acc, k, 0);
        assert(dict_insert(acc, k, x) =~= acc.push((k, x)));
        assert forall|i: int|
            0 <= i < tail.len() implies (#[trigger] tail[i]).0.len() <= usize::MAX && well_formed(
            tail[i].1) by {
            assert(tail[i] == entries[i + 1]);
        }
        assert(acc.push((k, x)) + tail =~= acc + entries);
        lemma_decode_entries(tail, acc.push((k, x)), rest);
    }
}

proof fn lemma_bytes_lt_irreflexive(a: Seq<u8>)
    ensures
        !bytes_lt(a, a),
    decreases a.len(),
{
    if a.len() > 0 {
        lemma_bytes_lt_irreflexive(a.drop_first());
    }
}

proof fn lemma_bytes_lt_transitive(a: Seq<u8>, b: Seq<u8>, c: Seq<u8>)
    requires
        bytes_lt(a, b),
        bytes_lt(b, c),
    ensures
        bytes_lt(a, c),
    decreases a.len(),
{
    if a.len() > 0 && b.len() > 0 && c.len() > 0 && a[0] == b[0] && b[0] == c[0] {
        lemma_bytes_lt_transitive(a.drop_first(), b.drop_first(), c.drop_first());
    }
}

proof fn lemma_bytes_lt_total(a: Seq<u8>, b: Seq<u8>)
    ensures
        a == b || bytes_lt(a, b) || bytes_lt(b, a),
        !(bytes_lt(a, b) && bytes_lt(b, a)),
    decreases a.len(),
{
    if a.len() > 0 && b.len() > 0 {
        lemma_bytes_lt_total(a.drop_first(), b.drop_first());
        if a[0] == b[0] && a.drop_first() == b.drop_first() {
            assert(a =~= seq![a[0]] + a.drop_first());
            assert(b =~= seq![b[0]] + b.drop_first());
        }
    } else if a.len() == 0 && b.len() == 0 {
        assert(a =~= b);
    }
}

proof fn lemma_lower_bound(entries: Seq<(Seq<u8>, Bencode)>, k: Seq<u8>, i: int)
    requires
        0 <= i <= entries.len(),
    ensures
        i <= lower_bound_from(entries, k, i) <= entries.len(),
        forall|j: int|
            i <= j < lower_bound_from(entries, k, i) ==> bytes_lt(#[trigger] entries[j].0, k),
        lower_bound_from(entries, k, i) < entries.len() ==> !bytes_lt(
            entries[lower_bound_from(entries, k, i)].0,
            k,
        ),
    decreases entries.len() - i,
{
    if i < entries.len() && bytes_lt(entries[i].0, k) {
        lemma_lower_bound(entries, k, i + 1);
    }
}

/// `dict_insert` keeps keys ascending, as `BTreeMap` keeps them.
pub proof fn lemma_dict_insert_ascending(entries: Seq<(Seq<u8>, Bencode)>, k: Seq<u8>, v: Bencode)
    requires
        keys_ascending(entries),
    ensures
        keys_ascending(dict_insert(entries, k, v)),
        forall|j: int|
            0 <= j < dict_insert(entries, k, v).len() ==> (#[trigger] dict_insert(
                entries,
                k,
                v,
            )[j] == (k, v) || exists|l: int|
                0 <= l < entries.len() && entries[l] == dict_insert(entries, k, v)[j]),
{
    let i = lower_bound_from(entries, k, 0);
    let r = dict_insert(entries, k, v);
    lemma_lower_bound(entries, k, 0);
    if i < entries.len() && entries[i].0 == k {
        assert forall|a: int, b: int| 0 <= a < b < r.len() implies bytes_lt(
            #[trigger] r[a].0,
            #[trigger] r[b].0,
        ) by {
            assert(entries[a].0 == r[a].0);
            assert(entries[b].0 == r[b].0);
        }
        assert forall|j: int| 0 <= j < r.len() implies (#[trigger] r[j] == (k, v) || exists|l: int|
            0 <= l < entries.len() && entries[l] == r[j]) by {
            if j != i {
                assert(entries[j] == r[j]);
            }
        }
    } else {
        // every key from `i` on is above `k`
        assert forall|j: int| i <= j < entries.len() implies bytes_lt(k, #[trigger] entries[j].0) by {
            lemma_bytes_lt_total(entries[i].0, k);
            if j > i {
                lemma_bytes_lt_transitive(k, entries[i].0, entries[j].0);
            }
        }
        assert forall|a: int, b: int| 0 <= a < b < r.len() implies bytes_lt(
            #[trigger] r[a].0,
            #[trigger] r[b].0,
        ) by {
            if b < i {
                assert(r[a] == entries[a] && r[b] == entries[b]);
            } else if b == i {
                assert(r[a] == entries[a]);
            } else if a < i {
                assert(r[a] == entries[a] && r[b] == entries[b - 1]);
                lemma_bytes_lt_transitive(r[a].0, k, r[b].0);
            } else if a == i {
                assert(r[b] == entries[b - 1]);
            } else {
                assert(r[a] == entries[a - 1] && r[b] == entries[b - 1]);
            }
        }
        assert forall|j: int| 0 <= j < r.len() implies (#[trigger] r[j] == (k, v) || exists|l: int|
            0 <= l < entries.len() && entries[l] == r[j]) by {
            if j < i {
                assert(entries[j] == r[j]);
            } else if j > i {
                assert(entries[j - 1] == r[j]);
            }
        }
    }
}

/// In entries with ascending keys, `dict_get` finds the entry that holds
/// the key, and nothing where none does.
proof fn lemma_dict_get_finds(entries: Seq<(Seq<u8>, Bencode)>, k: Seq<u8>)
    requires
        keys_ascending(entries),
    ensures
        forall|i: int|
            0 <= i < entries.len() && #[trigger] entries[i].0 == k ==> dict_get(entries, k) == Some(
                entries[i].1,
            ),
        (forall|i: int| 0 <= i < entries.len() ==> #[trigger] entries[i].0 != k) ==> dict_get(
            entries,
            k,
        ) is None,
{
    lemma_lower_bound(entries, k, 0);
    let lb = lower_bound_from(entries, k, 0);
    assert forall|i: int| 0 <= i < entries.len() && #[trigger] entries[i].0 == k implies dict_get(
        entries,
        k,
    ) == Some(entries[i].1) by {
        lemma_bytes_lt_irreflexive(k);
        if i > lb {
            assert(bytes_lt(entries[lb].0, entries[i].0));
        }
    }
}

/// The dictionary law: after `insert(k, v)`, `get(k)` gives `v`, and every
/// other key gives what it gave before.
pub proof fn lemma_dict_get_insert(
    entries: Seq<(Seq<u8>, Bencode)>,
    k: Seq<u8>,
    v: Bencode,
    other: Seq<u8>,
)
    requires
        keys_ascending(entries),
    ensures
        dict_get(dict_insert(entries, k, v), k) == Some(v),
        other != k ==> dict_get(dict_insert(entries, k, v), other) == dict_get(entries, other),
{
    let r = dict_insert(entries, k, v);
    let lb = lower_bound_from(entries, k, 0);
    lemma_lower_bound(entries, k, 0);
    lemma_dict_insert_ascending(entries, k, v);
    assert(r[lb] == (k, v));
    lemma_dict_get_finds(r, k);
    assert(0 <= lb < r.len() && r[lb].0 == k);
    if other != k {
        lemma_dict_get_finds(r, other);
        lemma_dict_get_finds(entries, other);
        if exists|j: int| 0 <= j < entries.len() && entries[j].0 == other {
            let j = choose|j: int| 0 <= j < entries.len() && entries[j].0 == other;
            if j < lb || (lb < entries.len() && entries[lb].0 == k) {
                assert(r[j] == entries[j]);
            } else {
                assert(r[j + 1] == entries[j]);
            }
        } else {
            assert forall|i: int| 0 <= i < r.len() implies #[trigger] r[i].0 != other by {
                if r[i] != (k, v) {
                    let l = choose|l: int| 0 <= l < entries.len() && entries[l] == r[i];
                    assert(entries[l].0 != other);
                }
            }
        }
    }
}

/// `dict_remove` keeps keys ascending.
pub proof fn lemma_dict_remove_ascending(entries: Seq<(Seq<u8>, Bencode)>, k: Seq<u8>)
    requires
        keys_ascending(entries),
    ensures
        keys_ascending(dict_remove(entries, k)),
{
    let i = lower_bound_from(entries, k, 0);
    let r = dict_remove(entries, k);
    if i < entries.len() && entries[i].0 == k {
        lemma_lower_bound(entries, k, 0);
        assert forall|a: int, b: int| 0 <= a < b < r.len() implies bytes_lt(
            #[trigger] r[a].0,
            #[trigger] r[b].0,
        ) by {
            let a2 = if a < i { a } else { a + 1 };
            let b2 = if b < i { b } else { b + 1 };
            assert(r[a] == entries[a2] && r[b] == entries[b2]);
        }
    }
}

/// After `remove(k)`, `get(k)` gives nothing, and every other key gives
/// what it gave before.
pub proof fn lemma_dict_get_remove(entries: Seq<(Seq<u8>, Bencode)>, k: Seq<u8>, other: Seq<u8>)
    requires
        keys_ascending(entries),
    ensures
        dict_get(dict_remove(entries, k), k) is None,
        other != k ==> dict_get(dict_remove(entries, k), other) == dict_get(entries, other),
{
    let i = lower_bound_from(entries, k, 0);
    let r = dict_remove(entries, k);
    lemma_lower_bound(entries, k, 0);
    lemma_dict_remove_ascending(entries, k);
    lemma_dict_get_finds(entries, k);
    lemma_dict_get_finds(r, k);
    lemma_dict_get_finds(entries, other);
    lemma_dict_get_finds(r, other);
    // keys are distinct, so the removed entry was the only one with key `k`
    assert forall|j: int| 0 <= j < r.len() implies #[trigger] r[j].0 != k by {
        if i < entries.len() && entries[i].0 == k {
            let j2 = if j < i { j } else { j + 1 };
            assert(r[j] == entries[j2]);
            lemma_bytes_lt_irreflexive(k);
            if j2 < i {
                assert(bytes_lt(entries[j2].0, entries[i].0));
            } else {
                assert(bytes_lt(entries[i].0, entries[j2].0));
            }
        } else {
            assert(r[j] == entries[j]);
            if j < i {
                lemma_bytes_lt_irreflexive(k);
            } else if entries[j].0 == k {
                lemma_bytes_lt_irreflexive(k);
                if j > i {
                    assert(bytes_lt(entries[i].0, entries[j].0));
                    lemma_bytes_lt_total(entries[i].0, k);
                }
            }
        }
    }
    if other != k {
        if exists|j: int| 0 <= j < entries.len() && entries[j].0 == other {
            let j = choose|j: int| 0 <= j < entries.len() && entries[j].0 == other;
            if i < entries.len() && entries[i].0 == k {
                if j < i {
                    assert(r[j] == entries[j]);
                } else {
                    assert(j != i);
                    assert(r[j - 1] == entries[j]);
                }
            } else {
                assert(r[j] == entries[j]);
            }
        } else {
            assert forall|l: int| 0 <= l < r.len() implies #[trigger] r[l].0 != other by {
                if i < entries.len() && entries[i].0 == k {
                    let l2 = if l < i { l } else { l + 1 };
                    assert(r[l] == entries[l2]);
                } else {
                    assert(r[l] == entries[l]);
                }
            }
        }
    }
}

/// Every value that `decode_spec` gives is well formed: dictionaries come
/// out with ascending keys, whatever order the input had them in.
pub proof fn lemma_decode_well_formed(data: Seq<u8>)
    ensures
        decode_spec(data) matches Ok((v, _)) ==> well_formed(v),
    decreases data.len(), 0int,
{
    if data.len() > 0 {
        if data[0] == LIST_START {
            lemma_items_well_formed(data.drop_first(), Seq::empty());
        } else if data[0] == DICT_START {
            lemma_entries_well_formed(data.drop_first(), Seq::empty());
        } else if data[0] != INT_START && is_digit(data[0]) {
            lemma_find_from(data, COLON, 0);
            if let Some(colon) = find_from(data, COLON, 0) {
                if let Some(n) = parse_usize_text(data.take(colon)) {
                    if colon + 1 + n <= data.len() {
                        assert(data.subrange(colon + 1, colon + 1 + n).len() == n);
                    }
                }
            }
        }
    }
}

proof fn lemma_items_well_formed(s: Seq<u8>, acc: Seq<Bencode>)
    requires
        forall|i: int| 0 <= i < acc.len() ==> well_formed(#[trigger] acc[i]),
    ensures
        decode_items_spec(s, acc) matches Ok((v, _)) ==> well_formed(v),
    decreases s.len(), 1int,
{
    if !(s.len() > 0 && s[0] == END) {
        lemma_decode_well_formed(s);
        if let Ok((v, r)) = decode_spec(s) {
            if r.len() < s.len() {
                assert forall|i: int| 0 <= i < acc.push(v).len() implies well_formed(
                    #[trigger] acc.push(v)[i],
                ) by {
                    if i < acc.len() {
                        assert(acc.push(v)[i] == acc[i]);
                    }
                }
                lemma_items_well_formed(r, acc.push(v));
            }
        }
    }
}

proof fn lemma_entries_well_formed(s: Seq<u8>, acc: Seq<(Seq<u8>, Bencode)>)
    requires
        keys_ascending(acc),
        forall|i: int|
            0 <= i < acc.len() ==> (#[trigger] acc[i]).0.len() <= usize::MAX && well_formed(
                acc[i].1,
            ),
    ensures
        decode_entries_spec(s, acc) matches Ok((v, _)) ==> well_formed(v),
    decreases s.len(), 1int,
{
    if !(s.len() > 0 && s[0] == END) {
        lemma_decode_well_formed(s);
        if let Ok((key, r)) = decode_spec(s) {
            if let Bencode::Bytes(k) = key {
                if r.len() < s.len() {
                    lemma_decode_well_formed(r);
                    if let Ok((v, r2)) = decode_spec(r) {
                        if r2.len() < r.len() {
                            let next = dict_insert(acc, k, v);
                            lemma_dict_insert_ascending(acc, k, v);
                            assert forall|i: int| 0 <= i < next.len() implies (
                            #[trigger] next[i]).0.len() <= usize::MAX && well_formed(next[i].1) by {
                                if next[i] != (k, v) {
                                    let l = choose|l: int|
                                        0 <= l < acc.len() && acc[l] == next[i];
                                    assert(acc[l] == next[i]);
                                }
                            }
                            lemma_entries_well_formed(r2, next);
                        }
                    }
                }
            }
        }
    }
}

/// Encoding is injective on well-formed values: two values with the same
/// encoding are the same value.
pub proof fn lemma_encode_injective(v1: Bencode, v2: Bencode)
    requires
        well_formed(v1),
        well_formed(v2),
        encode_spec(v1) == encode_spec(v2),
    ensures
        v1 == v2,
{
    lemma_decode_encode(v1, Seq::empty());
    lemma_decode_encode(v2, Seq::empty());
}

/// Whether the value that `data` begins with is written canonically:
/// integers without `+`, `-0` or leading zeros, byte string lengths without
/// `+` or leading zeros, and dictionary keys in strictly ascending order.
pub open spec fn canonical(data: Seq<u8>) -> bool
    decreases data.len(), 0int,
{
    if data.len() == 0 {
        false
    } else if data[0] == INT_START {
        match find_from(data, END, 0) {
            Some(end) => canonical_signed(data.subrange(1, end)),
            None => false,
        }
    } else if data[0] == LIST_START {
        canonical_items(data.drop_first())
    } else if data[0] == DICT_START {
        canonical_entries(data.drop_first(), Seq::empty())
    } else if is_digit(data[0]) {
        match find_from(data, COLON, 0) {
            Some(colon) => canonical_digits(data.take(colon)),
            None => false,
        }
    } else {
        false
    }
}

/// Whether the rest of a list, from just after the `l` or an item, is
/// written canonically.
pub open spec fn canonical_items(s: Seq<u8>) -> bool
    decreases s.len(), 1int,
{
    if s.len() > 0 && s[0] == END {
        true
    } else {
        &&& canonical(s)
        &&& match decode_spec(s) {
            Ok((_, r)) => r.len() < s.len() && canonical_items(r),
            Err(_) => false,
        }
    }
}

/// Whether the rest of a dictionary whose entries so far are `acc` is
/// written canonically: each key above the key before it.
pub open spec fn canonical_entries(s: Seq<u8>, acc: Seq<(Seq<u8>, Bencode)>) -> bool
    decreases s.len(), 1int,
{
    if s.len() > 0 && s[0] == END {
        true
    } else {
        &&& canonical(s)
        &&& match decode_spec(s) {
            Ok((Bencode::Bytes(k), r)) => {
                &&& r.len() < s.len()
                &&& (acc.len() > 0 ==> bytes_lt(acc.last().0, k))
                &&& canonical(r)
                &&& match decode_spec(r) {
                    Ok((v, r2)) => r2.len() < r.len() && canonical_entries(r2, acc.push((k, v))),
                    Err(_) => false,
                }
            },
            _ => false,
        }
    }
}

/// Decoding a canonically written value and encoding it again gives back
/// exactly the bytes that were decoded.
pub proof fn lemma_canonical_reencode(data: Seq<u8>)
    requires
        canonical(data),
    ensures
        decode_spec(data) matches Ok((v, r)) ==> encode_spec(v) + r == data,
    decreases data.len(), 0int,
{
    if data[0] == INT_START {
        let end = find_from(data, END, 0).unwrap();
        lemma_find_from(data, END, 0);
        let body = data.subrange(1, end);
        if let Some(n) = parse_i64_text(body) {
            if valid_utf8(body) {
                crate::decimal::lemma_canonical_i64(body);
                assert(encode_spec(Bencode::Int(n)) + data.skip(end + 1) =~= data);
            }
        }
    } else if data[0] == LIST_START {
        let tail = lemma_items_reencode(data.drop_first(), Seq::empty());
        if let Ok((v, r)) = decode_spec(data) {
            assert(Seq::<Bencode>::empty() + tail =~= tail);
            assert(decode_spec(data) == decode_items_spec(data.drop_first(), Seq::empty()));
            assert(v == Bencode::List(tail));
            assert(data.drop_first() == encode_items(tail) + seq![END] + r);
            assert(data =~= seq![LIST_START] + data.drop_first());
            assert(encode_spec(v) + r =~= data);
        }
    } else if data[0] == DICT_START {
        let tail = lemma_entries_reencode(data.drop_first(), Seq::empty());
        if let Ok((v, r)) = decode_spec(data) {
            assert(Seq::<(Seq<u8>, Bencode)>::empty() + tail =~= tail);
            assert(decode_spec(data) == decode_entries_spec(data.drop_first(), Seq::empty()));
            assert(v == Bencode::Dict(tail));
            assert(data.drop_first() == encode_entries(tail) + seq![END] + r);
            assert(data =~= seq![DICT_START] + data.drop_first());
            assert(encode_spec(v) + r =~= data);
        }
    } else {
        let colon = find_from(data, COLON, 0).unwrap();
        lemma_find_from(data, COLON, 0);
        let digits = data.take(colon);
        if let Some(n) = parse_usize_text(digits) {
            crate::decimal::lemma_canonical_usize(digits);
            let end = colon + 1 + n;
            if end <= data.len() {
                let b = data.subrange(colon + 1, end);
                assert(b.len() == n);
                assert(encode_spec(Bencode::Bytes(b)) + data.skip(end) =~= data);
            }
        }
    }
}

proof fn lemma_items_reencode(s: Seq<u8>, acc: Seq<Bencode>) -> (tail: Seq<Bencode>)
    requires
        canonical_items(s),
    ensures
        decode_items_spec(s, acc) matches Ok((v, r)) ==> v == Bencode::List(acc + tail) && s
            == encode_items(tail) + seq![END] + r,
    decreases s.len(), 1int,
{
    if s.len() > 0 && s[0] == END {
        assert(acc + Seq::<Bencode>::empty() =~= acc);
        assert(s =~= encode_items(Seq::<Bencode>::empty()) + seq![END] + s.drop_first());
        Seq::empty()
    } else {
        lemma_canonical_reencode(s);
        let (x, r1) = decode_spec(s)->Ok_0;
        let t = lemma_items_reencode(r1, acc.push(x));
        let tail = seq![x] + t;
        lemma_encode_items_front(tail);
        assert(tail.drop_first() =~= t);
        assert(acc.push(x) + t =~= acc + tail);
        if let Ok((v, r)) = decode_items_spec(s, acc) {
            assert(s =~= encode_items(tail) + seq![END] + r);
        }
        tail
    }
}

proof fn lemma_entries_reencode(s: Seq<u8>, acc: Seq<(Seq<u8>, Bencode)>) -> (tail: Seq<
    (Seq<u8>, Bencode),
>)
    requires
        canonical_entries(s, acc),
        keys_ascending(acc),
    ensures
        decode_entries_spec(s, acc) matches Ok((v, r)) ==> v == Bencode::Dict(acc + tail) && s
            == encode_entries(tail) + seq![END] + r,
    decreases s.len(), 1int,
{
    if s.len() > 0 && s[0] == END {
        assert(acc + Seq::<(Seq<u8>, Bencode)>::empty() =~= acc);
        assert(s =~= encode_entries(Seq::<(Seq<u8>, Bencode)>::empty()) + seq![END]
            + s.drop_first());
        Seq::empty()
    } else {
        lemma_canonical_reencode(s);
        let (key, r1) = decode_spec(s)->Ok_0;
        let k = key->Bytes_0;
        lemma_canonical_reencode(r1);
        let (x, r2) = decode_spec(r1)->Ok_0;
        assert forall|j: int| 0 <= j < acc.len() implies bytes_lt(#[trigger] acc[j].0, k) by {
            if j < acc.len() - 1 {
                lemma_bytes_lt_transitive(acc[j].0, acc.last().0, k);
            }
        }
        lemma_lower_bound_past(acc, k, 0);
        assert(dict_insert(acc, k, x) =~= acc.push((k, x)));
        let next = acc.push((k, x));
        assert forall|a: int, b: int| 0 <= a < b < next.len() implies bytes_lt(
            #[trigger] next[a].0,
            #[trigger] next[b].0,
        ) by {
            if b < acc.len() {
                assert(next[a] == acc[a] && next[b] == acc[b]);
            } else {
                assert(next[a] == acc[a]);
            }
        }
        let t = lemma_entries_reencode(r2, next);
        let tail = seq![(k, x)] + t;
        lemma_encode_entries_front(tail);
        assert(tail.drop_first() =~= t);
        assert(next + t =~= acc + tail);
        if let Ok((v, r)) = decode_entries_spec(s, acc) {
            assert(s =~= encode_entries(tail) + seq![END] + r);
        }
        tail
    }
}

/// A byte string is written as the numeral of its length, a colon, and
/// then exactly its bytes, in order.
pub proof fn lemma_bytes_encoding(b: Seq<u8>)
    ensures
        encode_spec(Bencode::Bytes(b)) == decimal(b.len()) + seq![58u8] + b,
        encode_spec(Bencode::Bytes(b)).skip(decimal(b.len()).len() as int + 1) == b,
        encode_spec(Bencode::Bytes(b)).len() == decimal(b.len()).len() + 1 + b.len(),
{
    assert((decimal(b.len()) + seq![58u8] + b).skip(decimal(b.len()).len() as int + 1) =~= b);
}

/// The numeral of a length, a colon and that many bytes decode to exactly
/// those bytes, leaving what follows.
pub proof fn lemma_bytes_decoding(b: Seq<u8>, rest: Seq<u8>)
    requires
        b.len() <= usize::MAX,
    ensures
        decode_spec(decimal(b.len()) + seq![58u8] + b + rest) == Ok::<(Bencode, Seq<u8>), Seq<char>>(
            (Bencode::Bytes(b), rest),
        ),
{
    lemma_bytes_roundtrip(b, rest);
}

/// Whatever byte string `decode` gives, the input was a numeral that
/// `usize::from_str` reads as its length, a colon, its bytes, then the rest.
pub proof fn lemma_decoded_bytes(data: Seq<u8>)
    ensures
        decode_spec(data) matches Ok((Bencode::Bytes(x), r)) ==> exists|c: int|
            0 <= c < data.len() && data == data.take(c) + seq![58u8] + x + r && parse_usize_text(
                #[trigger] data.take(c),
            ) == Some(x.len() as usize),
{
    if let Ok((Bencode::Bytes(x), r)) = decode_spec(data) {
        if data[0] == LIST_START {
            lemma_items_give_lists(data.drop_first(), Seq::empty());
        } else if data[0] == DICT_START {
            lemma_entries_give_dicts(data.drop_first(), Seq::empty());
        } else {
            let c = find_from(data, COLON, 0).unwrap();
            lemma_find_from(data, COLON, 0);
            assert(data =~= data.take(c) + seq![58u8] + x + r);
        }
    }
}

/// Decoding a list gives a list, and decoding a dictionary a dictionary.
proof fn lemma_items_give_lists(s: Seq<u8>, acc: Seq<Bencode>)
    ensures
        decode_items_spec(s, acc) matches Ok((v, _)) ==> v is List,
    decreases s.len(),
{
    if !(s.len() > 0 && s[0] == END) {
        if let Ok((x, r)) = decode_spec(s) {
            if r.len() < s.len() {
                lemma_items_give_lists(r, acc.push(x));
            }
        }
    }
}

proof fn lemma_entries_give_dicts(s: Seq<u8>, acc: Seq<(Seq<u8>, Bencode)>)
    ensures
        decode_entries_spec(s, acc) matches Ok((v, _)) ==> v is Dict,
    decreases s.len(),
{
    if !(s.len() > 0 && s[0] == END) {
        if let Ok((Bencode::Bytes(k), r)) = decode_spec(s) {
            if r.len() < s.len() {
                if let Ok((x, r2)) = decode_spec(r) {
                    if r2.len() < r.len() {
                        lemma_entries_give_dicts(r2, dict_insert(acc, k, x));
                    }
                }
            }
        }
    }
}

/// An integer is written as `i`, the numeral that `Display` gives it and
/// that `i64::from_str` reads back as the same number, then `e`.
pub proof fn lemma_int_encoding(n: i64)
    ensures
        ({
            let e = encode_spec(Bencode::Int(n));
            &&& e == seq![105u8] + signed_decimal(n as int) + seq![101u8]
            &&& parse_i64_text(e.subrange(1, e.len() - 1)) == Some(n)
        }),
{
    let e = encode_spec(Bencode::Int(n));
    assert(e.subrange(1, e.len() - 1) =~= signed_decimal(n as int));
    crate::decimal::lemma_parse_signed_decimal(n);
}

/// Every byte of a numeral that `i64::from_str` accepts is a digit or a sign.
proof fn lemma_numeral_bytes(t: Seq<u8>)
    requires
        parse_i64_text(t) is Some,
    ensures
        forall|j: int|
            0 <= j < t.len() ==> is_digit(#[trigger] t[j]) || t[j] == PLUS || t[j] == MINUS,
{
    let (neg, d) = split_sign(t, true).unwrap();
    assert(all_digits(d));
    assert forall|j: int| 0 <= j < t.len() implies is_digit(#[trigger] t[j]) || t[j] == PLUS
        || t[j] == MINUS by {
        if d.len() < t.len() && j > 0 {
            assert(t[j] == d[j - 1]);
        } else if d.len() == t.len() {
            assert(t[j] == d[j]);
        }
    }
}

/// `i`, a numeral that `i64::from_str` accepts, and `e` decode to the number
/// that the numeral denotes, with its sign, leaving what follows.
pub proof fn lemma_int_decoding(t: Seq<u8>, rest: Seq<u8>)
    requires
        parse_i64_text(t) is Some,
    ensures
        decode_spec(seq![105u8] + t + seq![101u8] + rest) == Ok::<(Bencode, Seq<u8>), Seq<char>>(
            (Bencode::Int(parse_i64_text(t).unwrap()), rest),
        ),
{
    let data = seq![105u8] + t + seq![101u8] + rest;
    lemma_numeral_bytes(t);
    assert forall|j: int| 0 <= j < t.len() implies #[trigger] t[j] < 0x80 by {}
    lemma_ascii_is_utf8(t);
    assert forall|j: int| 0 <= j < t.len() as int + 1 implies data[j] != END by {
        if j > 0 {
            assert(data[j] == t[j - 1]);
        }
    }
    lemma_find_at(data, END, 0, t.len() as int + 1);
    assert(data.subrange(1, t.len() as int + 1) =~= t);
    assert(data.skip(t.len() as int + 2) =~= rest);
}

/// Whatever integer `decode` gives, the input was `i`, a numeral that
/// `i64::from_str` reads as that integer, `e`, then the rest.
pub proof fn lemma_decoded_int(data: Seq<u8>)
    ensures
        decode_spec(data) matches Ok((Bencode::Int(n), r)) ==> exists|end: int|
            1 <= end < data.len() && data == seq![105u8] + data.subrange(1, end) + seq![101u8] + r
                && parse_i64_text(#[trigger] data.subrange(1, end)) == Some(n),
{
    if let Ok((Bencode::Int(n), r)) = decode_spec(data) {
        if data[0] == LIST_START {
            lemma_items_give_lists(data.drop_first(), Seq::empty());
        } else if data[0] == DICT_START {
            lemma_entries_give_dicts(data.drop_first(), Seq::empty());
        } else {
            let end = find_from(data, END, 0).unwrap();
            lemma_find_from(data, END, 0);
            assert(data =~= seq![105u8] + data.subrange(1, end) + seq![101u8] + r);
        }
    }
}

proof fn lemma_encode_items_concat(a: Seq<Bencode>, b: Seq<Bencode>)
    ensures
        encode_items(a + b) == encode_items(a) + encode_items(b),
    decreases b.len(),
{
    if b.len() == 0 {
        assert(a + b =~= a);
        assert(encode_items(a) + encode_items(b) =~= encode_items(a));
    } else {
        lemma_encode_items_concat(a, b.drop_last());
        assert((a + b).drop_last() =~= a + b.drop_last());
        assert((a + b).last() == b.last());
        assert(encode_items(a + b) =~= encode_items(a) + encode_items(b));
    }
}

/// A list is written as `l`, its items' encodings in order, then `e`: the
/// encoding of `a + b` is that of `a` without its `e` followed by that of
/// `b` without its `l`.
pub proof fn lemma_list_encoding(a: Seq<Bencode>, b: Seq<Bencode>)
    ensures
        encode_spec(Bencode::List(a + b)) == encode_spec(Bencode::List(a)).drop_last()
            + encode_spec(Bencode::List(b)).drop_first(),
        encode_spec(Bencode::List(Seq::empty())) == seq![108u8, 101u8],
        forall|x: Bencode|
            #![trigger encode_spec(Bencode::List(seq![x]))]
            encode_spec(Bencode::List(seq![x])) == seq![108u8] + encode_spec(x) + seq![101u8],
{
    lemma_encode_items_concat(a, b);
    assert(encode_spec(Bencode::List(a + b)) =~= encode_spec(Bencode::List(a)).drop_last()
        + encode_spec(Bencode::List(b)).drop_first());
    assert(encode_items(Seq::<Bencode>::empty()) =~= Seq::<u8>::empty());
    assert(encode_spec(Bencode::List(Seq::empty())) =~= seq![108u8, 101u8]);
    assert forall|x: Bencode| #![trigger encode_spec(Bencode::List(seq![x]))]
        encode_spec(Bencode::List(seq![x])) == seq![108u8] + encode_spec(x) + seq![101u8] by {
        let s = seq![x];
        assert(s.drop_last() =~= Seq::<Bencode>::empty());
        assert(encode_items(s.drop_last()) =~= Seq::<u8>::empty());
        assert(encode_spec(Bencode::List(s)) =~= seq![108u8] + encode_spec(x) + seq![101u8]);
    }
}

/// Keys are ordered as `Vec<u8>` orders them: at the first byte where they
/// differ, the smaller byte comes first; where one is a proper prefix of the
/// other, the shorter comes first.
pub proof fn lemma_bytes_order(a: Seq<u8>, b: Seq<u8>)
    ensures
        bytes_lt(a, b) <==> (exists|i: int|
            0 <= i < a.len() && i < b.len() && a.take(i) == b.take(i) && #[trigger] a[i] < b[i])
            || (a.len() < b.len() && a == b.take(a.len() as int)),
    decreases a.len(),
{
    if a.len() > 0 && b.len() > 0 {
        lemma_bytes_order(a.drop_first(), b.drop_first());
        let (a1, b1) = (a.drop_first(), b.drop_first());
        if a[0] == b[0] {
            if bytes_lt(a1, b1) {
                if exists|i: int| 0 <= i < a1.len() && i < b1.len() && a1.take(i) == b1.take(i)
                    && #[trigger] a1[i] < b1[i] {
                    let i = choose|i: int|
                        0 <= i < a1.len() && i < b1.len() && a1.take(i) == b1.take(i)
                            && #[trigger] a1[i] < b1[i];
                    assert(a.take(i + 1) =~= seq![a[0]] + a1.take(i));
                    assert(b.take(i + 1) =~= seq![b[0]] + b1.take(i));
                    assert(a[i + 1] == a1[i] && b[i + 1] == b1[i]);
                } else {
                    assert(a1.len() < b1.len() && a1 == b1.take(a1.len() as int));
                    assert(a =~= seq![a[0]] + a1);
                    assert(b.take(a.len() as int) =~= seq![b[0]] + b1.take(a1.len() as int));
                }
            } else {
                if exists|i: int| 0 <= i < a.len() && i < b.len() && a.take(i) == b.take(i)
                    && #[trigger] a[i] < b[i] {
                    let i = choose|i: int|
                        0 <= i < a.len() && i < b.len() && a.take(i) == b.take(i) && #[trigger] a[i]
                            < b[i];
                    assert(i > 0);
                    assert(a1.take(i - 1) =~= a.take(i).drop_first());
                    assert(b1.take(i - 1) =~= b.take(i).drop_first());
                    assert(a1[i - 1] == a[i] && b1[i - 1] == b[i]);
                }
                if a.len() < b.len() && a == b.take(a.len() as int) {
                    assert(a1 =~= b1.take(a1.len() as int));
                }
            }
        } else {
            if a[0] < b[0] {
                assert(a.take(0) =~= b.take(0));
            } else {
                if exists|i: int| 0 <= i < a.len() && i < b.len() && a.take(i) == b.take(i)
                    && #[trigger] a[i] < b[i] {
                    let i = choose|i: int|
                        0 <= i < a.len() && i < b.len() && a.take(i) == b.take(i) && #[trigger] a[i]
                            < b[i];
                    if i > 0 {
                        assert(a.take(i)[0] == b.take(i)[0]);
                    }
                }
                if a.len() < b.len() && a == b.take(a.len() as int) {
                    assert(a[0] == b.take(a.len() as int)[0]);
                }
            }
        }
    } else if a.len() == 0 && b.len() > 0 {
        assert(a =~= b.take(0));
    }
}

} // verus!
