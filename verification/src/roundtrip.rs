//! What the writer writes, the reader reads back: every tag tree within
//! NBT's limits, written out byte for byte as the writer lays tags down,
//! parses as the same tree.
use vstd::prelude::*;
use crate::mutf8::{lemma_modified_utf8_round_trip, modified_utf8_of};
use crate::nbt::{
    be16, be32, be32_all, be64, be64_all, byte_array_tag, compound_start, end_tag, header,
    int_array_tag, int_tag, long_array_tag, long_tag, nbt_string, short_tag, string_fits,
    string_tag, TAG_BYTE, TAG_BYTE_ARRAY, TAG_COMPOUND, TAG_DOUBLE, TAG_END, TAG_FLOAT, TAG_INT,
    TAG_INT_ARRAY, TAG_LIST, TAG_LONG, TAG_LONG_ARRAY, TAG_SHORT, TAG_STRING,
};
use crate::reader::{
    available, document, fields_at, items_at, len_at, payload_at, string_at, u16_at, u32_at,
    u64_at, TagV,
};

verus! {

// ── Writing a tree ───────────────────────────────────────────────────────

/// The type byte of a tag.
pub open spec fn kind(t: TagV) -> u8 {
    match t {
        TagV::Byte(_) => TAG_BYTE,
        TagV::Short(_) => TAG_SHORT,
        TagV::Int(_) => TAG_INT,
        TagV::Long(_) => TAG_LONG,
        TagV::Float(_) => TAG_FLOAT,
        TagV::Double(_) => TAG_DOUBLE,
        TagV::ByteArray(_) => TAG_BYTE_ARRAY,
        TagV::Str(_) => TAG_STRING,
        TagV::List(_) => TAG_LIST,
        TagV::Compound(_) => TAG_COMPOUND,
        TagV::IntArray(_) => TAG_INT_ARRAY,
        TagV::LongArray(_) => TAG_LONG_ARRAY,
    }
}

/// The element type a list declares: its first element's, or `TAG_END`
/// when it is empty.
pub open spec fn element_kind(items: Seq<TagV>) -> u8 {
    if items.len() == 0 {
        TAG_END
    } else {
        kind(items[0])
    }
}

pub open spec fn longs_as_bits(v: Seq<i64>) -> Seq<u64> {
    v.map_values(|x: i64| x as u64)
}

/// A tag's payload as the writer lays it down.
pub open spec fn payload_bytes(t: TagV) -> Seq<u8>
    decreases t,
{
    match t {
        TagV::Byte(v) => seq![v as u8],
        TagV::Short(v) => be16(v as u16),
        TagV::Int(v) => be32(v as u32),
        TagV::Long(v) => be64(v as u64),
        TagV::Float(v) => be32(v),
        TagV::Double(v) => be64(v),
        TagV::ByteArray(a) => be32(a.len() as u32) + a,
        TagV::Str(s) => nbt_string(s),
        TagV::List(items) => seq![element_kind(items)] + be32(items.len() as u32) + items_bytes(
            items,
        ),
        TagV::Compound(fields) => fields_bytes(fields) + seq![TAG_END],
        TagV::IntArray(v) => be32(v.len() as u32) + be32_all(v),
        TagV::LongArray(v) => be32(v.len() as u32) + be64_all(longs_as_bits(v)),
    }
}

/// List elements, payloads only, one after another.
pub open spec fn items_bytes(items: Seq<TagV>) -> Seq<u8>
    decreases items,
{
    if items.len() == 0 {
        seq![]
    } else {
        payload_bytes(items[0]) + items_bytes(items.subrange(1, items.len() as int))
    }
}

/// Compound fields, each a named tag: type, name, payload.
pub open spec fn fields_bytes(fields: Seq<(Seq<char>, TagV)>) -> Seq<u8>
    decreases fields,
{
    if fields.len() == 0 {
        seq![]
    } else {
        header(kind(fields[0].1), fields[0].0) + payload_bytes(fields[0].1) + fields_bytes(
            fields.subrange(1, fields.len() as int),
        )
    }
}

/// A whole document: a named root compound.
pub open spec fn document_bytes(name: Seq<char>, fields: Seq<(Seq<char>, TagV)>) -> Seq<u8> {
    header(TAG_COMPOUND, name) + payload_bytes(TagV::Compound(fields))
}

// ── Within NBT's limits ──────────────────────────────────────────────────

/// A tag the format can hold when it sits `depth` levels deep: strings that
/// fit their length prefix, arrays and lists no longer than `i32::MAX`,
/// lists of one element type, and no deeper nesting than the reader
/// follows.
pub open spec fn writable(t: TagV, depth: int) -> bool
    decreases t,
{
    depth <= 512 && match t {
        TagV::ByteArray(a) => a.len() <= i32::MAX,
        TagV::Str(s) => string_fits(s),
        TagV::List(items) => items.len() <= i32::MAX && items_writable(
            items,
            element_kind(items),
            depth + 1,
        ),
        TagV::Compound(fields) => fields_writable(fields, depth + 1),
        TagV::IntArray(v) => v.len() <= i32::MAX,
        TagV::LongArray(v) => v.len() <= i32::MAX,
        _ => true,
    }
}

pub open spec fn items_writable(items: Seq<TagV>, k: u8, depth: int) -> bool
    decreases items,
{
    if items.len() == 0 {
        true
    } else {
        kind(items[0]) == k && writable(items[0], depth) && items_writable(
            items.subrange(1, items.len() as int),
            k,
            depth,
        )
    }
}

pub open spec fn fields_writable(fields: Seq<(Seq<char>, TagV)>, depth: int) -> bool
    decreases fields,
{
    if fields.len() == 0 {
        true
    } else {
        string_fits(fields[0].0) && writable(fields[0].1, depth) && fields_writable(
            fields.subrange(1, fields.len() as int),
            depth,
        )
    }
}

// ── Bytes ────────────────────────────────────────────────────────────────

/// `x` sits in `b` at `pos`.
pub open spec fn holds(b: Seq<u8>, pos: int, x: Seq<u8>) -> bool {
    0 <= pos && pos + x.len() <= b.len() && b.subrange(pos, pos + x.len()) == x
}

proof fn lemma_holds_split(b: Seq<u8>, pos: int, x: Seq<u8>, y: Seq<u8>)
    requires
        holds(b, pos, x + y),
    ensures
        holds(b, pos, x),
        holds(b, pos + x.len(), y),
{
    let w = b.subrange(pos, pos + x.len() + y.len());
    assert(w == x + y);
    assert(b.subrange(pos, pos + x.len()) =~= w.subrange(0, x.len() as int));
    assert(w.subrange(0, x.len() as int) =~= x);
    assert(b.subrange(pos + x.len(), pos + x.len() + y.len()) =~= w.subrange(
        x.len() as int,
        w.len() as int,
    ));
    assert(w.subrange(x.len() as int, w.len() as int) =~= y);
}

proof fn lemma_holds_at(b: Seq<u8>, pos: int, x: Seq<u8>, i: int)
    requires
        holds(b, pos, x),
        0 <= i < x.len(),
    ensures
        b[pos + i] == x[i],
{
    assert(b.subrange(pos, pos + x.len())[i] == b[pos + i]);
}

proof fn lemma_be16_reads_back(b: Seq<u8>, pos: int, v: u16)
    requires
        holds(b, pos, be16(v)),
    ensures
        available(b, pos, 2),
        u16_at(b, pos) == v,
{
    lemma_holds_at(b, pos, be16(v), 0);
    lemma_holds_at(b, pos, be16(v), 1);
    let x = b[pos];
    let y = b[pos + 1];
    assert(((x as u16) << 8u16) | (y as u16) == v) by (bit_vector)
        requires
            x == (v >> 8u16) as u8,
            y == (v & 0xffu16) as u8,
    ;
}

proof fn lemma_be32_reads_back(b: Seq<u8>, pos: int, v: u32)
    requires
        holds(b, pos, be32(v)),
    ensures
        available(b, pos, 4),
        u32_at(b, pos) == v,
{
    lemma_holds_at(b, pos, be32(v), 0);
    lemma_holds_at(b, pos, be32(v), 1);
    lemma_holds_at(b, pos, be32(v), 2);
    lemma_holds_at(b, pos, be32(v), 3);
    let x0 = b[pos];
    let x1 = b[pos + 1];
    let x2 = b[pos + 2];
    let x3 = b[pos + 3];
    assert(((x0 as u32) << 24u32) | ((x1 as u32) << 16u32) | ((x2 as u32) << 8u32) | (x3 as u32)
        == v) by (bit_vector)
        requires
            x0 == (v >> 24u32) as u8,
            x1 == ((v >> 16u32) & 0xffu32) as u8,
            x2 == ((v >> 8u32) & 0xffu32) as u8,
            x3 == (v & 0xffu32) as u8,
    ;
}

proof fn lemma_be64_reads_back(b: Seq<u8>, pos: int, v: u64)
    requires
        holds(b, pos, be64(v)),
    ensures
        available(b, pos, 8),
        u64_at(b, pos) == v,
{
    let hi = (v >> 32u64) as u32;
    let lo = (v & 0xffff_ffffu64) as u32;
    assert((v >> 56u64) as u8 == (hi >> 24u32) as u8 && ((v >> 48u64) & 0xffu64) as u8 == ((hi
        >> 16u32) & 0xffu32) as u8 && ((v >> 40u64) & 0xffu64) as u8 == ((hi >> 8u32) & 0xffu32) as u8
        && ((v >> 32u64) & 0xffu64) as u8 == (hi & 0xffu32) as u8 && ((v >> 24u64) & 0xffu64) as u8
        == (lo >> 24u32) as u8 && ((v >> 16u64) & 0xffu64) as u8 == ((lo >> 16u32) & 0xffu32) as u8
        && ((v >> 8u64) & 0xffu64) as u8 == ((lo >> 8u32) & 0xffu32) as u8 && (v & 0xffu64) as u8
        == (lo & 0xffu32) as u8 && ((hi as u64) << 32u64) | (lo as u64) == v) by (bit_vector)
        requires
            hi == (v >> 32u64) as u32,
            lo == (v & 0xffff_ffffu64) as u32,
    ;
    assert(be64(v) =~= be32(hi) + be32(lo));
    lemma_holds_split(b, pos, be32(hi), be32(lo));
    lemma_be32_reads_back(b, pos, hi);
    lemma_be32_reads_back(b, pos + 4, lo);
}

proof fn lemma_casts(a: i8, b: i16, c: i32, d: i64)
    by (bit_vector)
    ensures
        (a as u8) as i8 == a,
        (b as u16) as i16 == b,
        (c as u32) as i32 == c,
        (d as u64) as i64 == d,
{
}

proof fn lemma_length_reads_back(b: Seq<u8>, pos: int, n: int)
    requires
        0 <= n <= i32::MAX,
        holds(b, pos, be32(n as u32)),
    ensures
        len_at(b, pos) == Ok::<(int, int), crate::nbt::NbtError>((n, pos + 4)),
{
    lemma_be32_reads_back(b, pos, n as u32);
}

proof fn lemma_string_reads_back(b: Seq<u8>, pos: int, s: Seq<char>)
    requires
        string_fits(s),
        holds(b, pos, nbt_string(s)),
    ensures
        string_at(b, pos) == Ok::<(Seq<char>, int), crate::nbt::NbtError>(
            (s, pos + nbt_string(s).len()),
        ),
{
    let m = modified_utf8_of(s);
    lemma_holds_split(b, pos, be16(m.len() as u16), m);
    lemma_be16_reads_back(b, pos, m.len() as u16);
    lemma_modified_utf8_round_trip(s);
}

proof fn lemma_be32_all_reads_back(b: Seq<u8>, pos: int, v: Seq<i32>)
    requires
        holds(b, pos, be32_all(v)),
    ensures
        be32_all(v).len() == 4 * v.len(),
        forall|k: int| 0 <= k < v.len() ==> u32_at(b, pos + 4 * k) == #[trigger] v[k] as u32,
    decreases v.len(),
{
    if v.len() > 0 {
        let rest = v.drop_last();
        lemma_holds_split(b, pos, be32_all(rest), be32(v.last() as u32));
        lemma_be32_all_reads_back(b, pos, rest);
        lemma_be32_reads_back(b, pos + 4 * rest.len(), v.last() as u32);
        assert forall|k: int| 0 <= k < v.len() implies u32_at(b, pos + 4 * k) == #[trigger] v[k]
            as u32 by {
            if k < rest.len() {
                assert(rest[k] == v[k]);
            }
        }
    }
}

proof fn lemma_be64_all_reads_back(b: Seq<u8>, pos: int, v: Seq<u64>)
    requires
        holds(b, pos, be64_all(v)),
    ensures
        be64_all(v).len() == 8 * v.len(),
        forall|k: int| 0 <= k < v.len() ==> u64_at(b, pos + 8 * k) == #[trigger] v[k],
    decreases v.len(),
{
    if v.len() > 0 {
        let rest = v.drop_last();
        lemma_holds_split(b, pos, be64_all(rest), be64(v.last()));
        lemma_be64_all_reads_back(b, pos, rest);
        lemma_be64_reads_back(b, pos + 8 * rest.len(), v.last());
        assert forall|k: int| 0 <= k < v.len() implies u64_at(b, pos + 8 * k) == #[trigger] v[k] by {
            if k < rest.len() {
                assert(rest[k] == v[k]);
            }
        }
    }
}

proof fn lemma_payload_reads_back(t: TagV, b: Seq<u8>, pos: int, depth: int)
    requires
        0 <= depth,
        writable(t, depth),
        holds(b, pos, payload_bytes(t)),
    ensures
        payload_at(b, pos, kind(t), depth) == Ok::<(TagV, int), crate::nbt::NbtError>(
            (t, pos + payload_bytes(t).len()),
        ),
    decreases t,
{
    match t {
        TagV::Byte(v) => {
            lemma_holds_at(b, pos, payload_bytes(t), 0);
            lemma_casts(v, 0, 0, 0);
        },
        TagV::Short(v) => {
            lemma_be16_reads_back(b, pos, v as u16);
            lemma_casts(0, v, 0, 0);
        },
        TagV::Int(v) => {
            lemma_be32_reads_back(b, pos, v as u32);
            lemma_casts(0, 0, v, 0);
        },
        TagV::Long(v) => {
            lemma_be64_reads_back(b, pos, v as u64);
            lemma_casts(0, 0, 0, v);
        },
        TagV::Float(v) => {
            lemma_be32_reads_back(b, pos, v);
        },
        TagV::Double(v) => {
            lemma_be64_reads_back(b, pos, v);
        },
        TagV::ByteArray(a) => {
            lemma_holds_split(b, pos, be32(a.len() as u32), a);
            lemma_length_reads_back(b, pos, a.len() as int);
        },
        TagV::Str(s) => {
            lemma_string_reads_back(b, pos, s);
        },
        TagV::List(items) => {
            let ek = element_kind(items);
            assert(payload_bytes(t) =~= seq![ek] + (be32(items.len() as u32) + items_bytes(items)));
            lemma_holds_split(b, pos, seq![ek], be32(items.len() as u32) + items_bytes(items));
            lemma_holds_split(b, pos + 1, be32(items.len() as u32), items_bytes(items));
            lemma_holds_at(b, pos, seq![ek], 0);
            lemma_length_reads_back(b, pos + 1, items.len() as int);
            lemma_items_read_back(items, b, pos + 5, ek, depth);
        },
        TagV::Compound(fields) => {
            lemma_fields_read_back(fields, b, pos, depth);
        },
        TagV::IntArray(v) => {
            lemma_holds_split(b, pos, be32(v.len() as u32), be32_all(v));
            lemma_length_reads_back(b, pos, v.len() as int);
            lemma_be32_all_reads_back(b, pos + 4, v);
            let got = Seq::new(v.len() as nat, |k: int| u32_at(b, pos + 4 + 4 * k) as i32);
            assert forall|k: int| 0 <= k < v.len() implies got[k] == v[k] by {
                lemma_casts(0, 0, v[k], 0);
            }
            assert(got =~= v);
        },
        TagV::LongArray(v) => {
            let bits = longs_as_bits(v);
            lemma_holds_split(b, pos, be32(v.len() as u32), be64_all(bits));
            lemma_length_reads_back(b, pos, v.len() as int);
            lemma_be64_all_reads_back(b, pos + 4, bits);
            let got = Seq::new(v.len() as nat, |k: int| u64_at(b, pos + 4 + 8 * k) as i64);
            assert forall|k: int| 0 <= k < v.len() implies got[k] == v[k] by {
                assert(bits[k] == v[k] as u64);
                lemma_casts(0, 0, 0, v[k]);
            }
            assert(got =~= v);
        },
    }
}

proof fn lemma_items_read_back(items: Seq<TagV>, b: Seq<u8>, pos: int, k: u8, depth: int)
    requires
        0 <= depth <= 512,
        items_writable(items, k, depth + 1),
        holds(b, pos, items_bytes(items)),
    ensures
        items_at(b, pos, k, items.len() as int, depth) == Ok::<(Seq<TagV>, int), crate::nbt::NbtError>(
            (items, pos + items_bytes(items).len()),
        ),
    decreases items,
{
    if items.len() > 0 {
        let rest = items.subrange(1, items.len() as int);
        assert(items_bytes(items) == payload_bytes(items[0]) + items_bytes(rest));
        lemma_holds_split(b, pos, payload_bytes(items[0]), items_bytes(rest));
        lemma_payload_reads_back(items[0], b, pos, depth + 1);
        let next = pos + payload_bytes(items[0]).len();
        lemma_items_read_back(rest, b, next, k, depth);
        assert(seq![items[0]] + rest =~= items);
        assert(payload_at(b, pos, k, depth + 1) == Ok::<(TagV, int), crate::nbt::NbtError>(
            (items[0], next),
        ));
        assert(items_at(b, next, k, items.len() - 1, depth) == Ok::<(Seq<TagV>, int), crate::nbt::NbtError>(
            (rest, next + items_bytes(rest).len()),
        ));
    } else {
        assert(items =~= Seq::<TagV>::empty());
    }
}

proof fn lemma_fields_read_back(fields: Seq<(Seq<char>, TagV)>, b: Seq<u8>, pos: int, depth: int)
    requires
        0 <= depth <= 512,
        fields_writable(fields, depth + 1),
        holds(b, pos, fields_bytes(fields) + seq![TAG_END]),
    ensures
        fields_at(b, pos, depth) == Ok::<(Seq<(Seq<char>, TagV)>, int), crate::nbt::NbtError>(
            (fields, pos + fields_bytes(fields).len() + 1),
        ),
    decreases fields,
{
    if fields.len() == 0 {
        assert(fields_bytes(fields) + seq![TAG_END] =~= seq![TAG_END]);
        lemma_holds_at(b, pos, seq![TAG_END], 0);
        assert(fields =~= Seq::<(Seq<char>, TagV)>::empty());
    } else {
        let (name, t) = fields[0];
        let rest = fields.subrange(1, fields.len() as int);
        let tail = fields_bytes(rest) + seq![TAG_END];
        assert(fields_bytes(fields) + seq![TAG_END] =~= seq![kind(t)] + (nbt_string(name) + (
        payload_bytes(t) + tail)));
        lemma_holds_split(b, pos, seq![kind(t)], nbt_string(name) + (payload_bytes(t) + tail));
        lemma_holds_at(b, pos, seq![kind(t)], 0);
        lemma_holds_split(b, pos + 1, nbt_string(name), payload_bytes(t) + tail);
        lemma_string_reads_back(b, pos + 1, name);
        let at = pos + 1 + nbt_string(name).len();
        lemma_holds_split(b, at, payload_bytes(t), tail);
        lemma_payload_reads_back(t, b, at, depth + 1);
        let next = at + payload_bytes(t).len();
        lemma_fields_read_back(rest, b, next, depth);
        assert(seq![(name, t)] + rest =~= fields);
        assert(fields_bytes(fields).len() == header(kind(t), name).len() + payload_bytes(t).len()
            + fields_bytes(rest).len());
        assert(b[pos] != TAG_END);
        assert(string_at(b, pos + 1) == Ok::<(Seq<char>, int), crate::nbt::NbtError>((name, at)));
        assert(payload_at(b, at, b[pos], depth + 1) == Ok::<(TagV, int), crate::nbt::NbtError>(
            (t, next),
        ));
        assert(next > pos && next <= b.len());
    }
}

/// Writing a document and reading it back gives the same root name and
/// tree, for every tree within NBT's limits.
pub proof fn lemma_document_round_trip(name: Seq<char>, fields: Seq<(Seq<char>, TagV)>)
    requires
        string_fits(name),
        fields_writable(fields, 1),
    ensures
        document(document_bytes(name, fields)) == Ok::<(Seq<char>, TagV), crate::nbt::NbtError>(
            (name, TagV::Compound(fields)),
        ),
{
    let b = document_bytes(name, fields);
    let p = payload_bytes(TagV::Compound(fields));
    assert(b =~= seq![TAG_COMPOUND] + (nbt_string(name) + p));
    assert(b.subrange(0, b.len() as int) =~= b);
    lemma_holds_split(b, 0, seq![TAG_COMPOUND], nbt_string(name) + p);
    lemma_holds_at(b, 0, seq![TAG_COMPOUND], 0);
    lemma_holds_split(b, 1int, nbt_string(name), p);
    lemma_string_reads_back(b, 1, name);
    lemma_payload_reads_back(TagV::Compound(fields), b, (1 + nbt_string(name).len()) as int, 0int);
}

/// Any tag within NBT's limits reads back from wherever it is written: the
/// same value, and the reader stops right after it.
pub proof fn lemma_tag_round_trip(t: TagV, b: Seq<u8>, pos: int, depth: int)
    requires
        0 <= depth,
        writable(t, depth),
        holds(b, pos, payload_bytes(t)),
    ensures
        payload_at(b, pos, kind(t), depth) == Ok::<(TagV, int), crate::nbt::NbtError>(
            (t, pos + payload_bytes(t).len()),
        ),
{
    lemma_payload_reads_back(t, b, pos, depth);
}

/// The writer lays each named tag down as its type byte, name and payload.
pub proof fn lemma_writer_tags_are_named_payloads(name: Seq<char>, s: i16, i: i32, l: i64, text: Seq<char>, a: Seq<u8>, ints: Seq<i32>, longs: Seq<i64>)
    ensures
        short_tag(name, s) == header(kind(TagV::Short(s)), name) + payload_bytes(TagV::Short(s)),
        int_tag(name, i) == header(kind(TagV::Int(i)), name) + payload_bytes(TagV::Int(i)),
        long_tag(name, l) == header(kind(TagV::Long(l)), name) + payload_bytes(TagV::Long(l)),
        string_tag(name, text) == header(kind(TagV::Str(text)), name) + payload_bytes(
            TagV::Str(text),
        ),
        byte_array_tag(name, a) == header(kind(TagV::ByteArray(a)), name) + payload_bytes(
            TagV::ByteArray(a),
        ),
        int_array_tag(name, ints) == header(kind(TagV::IntArray(ints)), name) + payload_bytes(
            TagV::IntArray(ints),
        ),
        long_array_tag(name, longs_as_bits(longs)) == header(kind(TagV::LongArray(longs)), name)
            + payload_bytes(TagV::LongArray(longs)),
        compound_start(name) == header(TAG_COMPOUND, name),
        end_tag() == seq![TAG_END],
{
    assert(byte_array_tag(name, a) =~= header(kind(TagV::ByteArray(a)), name) + payload_bytes(
        TagV::ByteArray(a),
    ));
    assert(int_array_tag(name, ints) =~= header(kind(TagV::IntArray(ints)), name) + payload_bytes(
        TagV::IntArray(ints),
    ));
    assert(long_array_tag(name, longs_as_bits(longs)) =~= header(kind(TagV::LongArray(longs)), name)
        + payload_bytes(TagV::LongArray(longs)));
}

/// A field as the writer lays it down: type, name, payload.
pub open spec fn field_bytes(f: (Seq<char>, TagV)) -> Seq<u8> {
    header(kind(f.1), f.0) + payload_bytes(f.1)
}

/// Appending a field appends its bytes.
pub proof fn lemma_fields_bytes_push(s: Seq<(Seq<char>, TagV)>, f: (Seq<char>, TagV))
    ensures
        fields_bytes(s.push(f)) == fields_bytes(s) + field_bytes(f),
    decreases s.len(),
{
    let t = s.push(f);
    if s.len() == 0 {
        assert(t.subrange(1, t.len() as int) =~= Seq::<(Seq<char>, TagV)>::empty());
        assert(t[0] == f);
        assert(fields_bytes(t.subrange(1, t.len() as int)) == Seq::<u8>::empty());
        assert(fields_bytes(s) == Seq::<u8>::empty());
        assert(fields_bytes(t) == header(kind(t[0].1), t[0].0) + payload_bytes(t[0].1)
            + fields_bytes(t.subrange(1, t.len() as int)));
        assert(fields_bytes(t) =~= fields_bytes(s) + field_bytes(f));
    } else {
        let rest = s.subrange(1, s.len() as int);
        assert(t.subrange(1, t.len() as int) =~= rest.push(f));
        assert(t[0] == s[0]);
        lemma_fields_bytes_push(rest, f);
        assert(fields_bytes(t) == header(kind(t[0].1), t[0].0) + payload_bytes(t[0].1)
            + fields_bytes(t.subrange(1, t.len() as int)));
        assert(fields_bytes(s) == header(kind(s[0].1), s[0].0) + payload_bytes(s[0].1)
            + fields_bytes(rest));
        assert(fields_bytes(t) =~= fields_bytes(s) + field_bytes(f));
    }
}

/// Appending a field keeps a compound writable when the field is.
pub proof fn lemma_fields_writable_push(s: Seq<(Seq<char>, TagV)>, f: (Seq<char>, TagV), depth: int)
    ensures
        fields_writable(s.push(f), depth) == (fields_writable(s, depth) && string_fits(f.0)
            && writable(f.1, depth)),
    decreases s.len(),
{
    let t = s.push(f);
    if s.len() == 0 {
        assert(t.subrange(1, t.len() as int) =~= Seq::<(Seq<char>, TagV)>::empty());
        assert(t[0] == f);
        assert(fields_writable(t.subrange(1, t.len() as int), depth));
        assert(fields_writable(s, depth));
    } else {
        let rest = s.subrange(1, s.len() as int);
        assert(t.subrange(1, t.len() as int) =~= rest.push(f));
        assert(t[0] == s[0]);
        lemma_fields_writable_push(rest, f, depth);
    }
}

/// Appending a list element appends its payload.
pub proof fn lemma_items_bytes_push(s: Seq<TagV>, x: TagV)
    ensures
        items_bytes(s.push(x)) == items_bytes(s) + payload_bytes(x),
    decreases s.len(),
{
    let t = s.push(x);
    if s.len() == 0 {
        assert(t.subrange(1, t.len() as int) =~= Seq::<TagV>::empty());
        assert(t[0] == x);
        assert(items_bytes(t.subrange(1, t.len() as int)) == Seq::<u8>::empty());
        assert(items_bytes(s) == Seq::<u8>::empty());
        assert(items_bytes(t) == payload_bytes(t[0]) + items_bytes(t.subrange(1, t.len() as int)));
        assert(items_bytes(t) =~= items_bytes(s) + payload_bytes(x));
    } else {
        let rest = s.subrange(1, s.len() as int);
        assert(t.subrange(1, t.len() as int) =~= rest.push(x));
        assert(t[0] == s[0]);
        lemma_items_bytes_push(rest, x);
        assert(items_bytes(t) == payload_bytes(t[0]) + items_bytes(t.subrange(1, t.len() as int)));
        assert(items_bytes(s) == payload_bytes(s[0]) + items_bytes(rest));
        assert(items_bytes(t) =~= items_bytes(s) + payload_bytes(x));
    }
}

/// Appending a list element of the list's type keeps the list writable when
/// the element is.
pub proof fn lemma_items_writable_push(s: Seq<TagV>, x: TagV, k: u8, depth: int)
    ensures
        items_writable(s.push(x), k, depth) == (items_writable(s, k, depth) && kind(x) == k
            && writable(x, depth)),
    decreases s.len(),
{
    let t = s.push(x);
    if s.len() == 0 {
        assert(t.subrange(1, t.len() as int) =~= Seq::<TagV>::empty());
        assert(t[0] == x);
        assert(items_writable(t.subrange(1, t.len() as int), k, depth));
        assert(items_writable(s, k, depth));
    } else {
        let rest = s.subrange(1, s.len() as int);
        assert(t.subrange(1, t.len() as int) =~= rest.push(x));
        assert(t[0] == s[0]);
        lemma_items_writable_push(rest, x, k, depth);
    }
}

} // verus!
