//! Reading NBT back: a whole document parsed into a tree of tags, for tests
//! and inspection. Compounds keep their fields in file order.
use vstd::prelude::*;
use crate::formats::{gunzip, gunzip_of, gzip_of};
use crate::mutf8::{decode_modified_utf8, decoded};
use crate::nbt::{
    NbtError, TAG_BYTE, TAG_BYTE_ARRAY, TAG_COMPOUND, TAG_DOUBLE, TAG_END, TAG_FLOAT, TAG_INT,
    TAG_INT_ARRAY, TAG_LIST, TAG_LONG, TAG_LONG_ARRAY, TAG_SHORT, TAG_STRING,
};
use crate::text::str_eq;

verus! {

/// Compounds and lists nest at most this deep.
pub const MAX_DEPTH: usize = 512;

/// A parsed tag. Floats are kept as their bits.
#[derive(Debug, PartialEq)]
pub enum Tag {
    Byte(i8),
    Short(i16),
    Int(i32),
    Long(i64),
    Float(u32),
    Double(u64),
    ByteArray(Vec<u8>),
    String(String),
    List(Vec<Tag>),
    Compound(Vec<(String, Tag)>),
    IntArray(Vec<i32>),
    LongArray(Vec<i64>),
}

/// What a tag holds.
pub enum TagV {
    Byte(i8),
    Short(i16),
    Int(i32),
    Long(i64),
    Float(u32),
    Double(u64),
    ByteArray(Seq<u8>),
    Str(Seq<char>),
    List(Seq<TagV>),
    Compound(Seq<(Seq<char>, TagV)>),
    IntArray(Seq<i32>),
    LongArray(Seq<i64>),
}

pub open spec fn tag_view(t: Tag) -> TagV
    decreases t,
{
    match t {
        Tag::Byte(v) => TagV::Byte(v),
        Tag::Short(v) => TagV::Short(v),
        Tag::Int(v) => TagV::Int(v),
        Tag::Long(v) => TagV::Long(v),
        Tag::Float(v) => TagV::Float(v),
        Tag::Double(v) => TagV::Double(v),
        Tag::ByteArray(v) => TagV::ByteArray(v@),
        Tag::String(s) => TagV::Str(s@),
        Tag::List(v) => TagV::List(list_view(v@)),
        Tag::Compound(v) => TagV::Compound(fields_view(v@)),
        Tag::IntArray(v) => TagV::IntArray(v@),
        Tag::LongArray(v) => TagV::LongArray(v@),
    }
}

pub open spec fn list_view(s: Seq<Tag>) -> Seq<TagV>
    decreases s,
{
    if s.len() == 0 {
        seq![]
    } else {
        list_view(s.drop_last()).push(tag_view(s.last()))
    }
}

pub open spec fn fields_view(s: Seq<(String, Tag)>) -> Seq<(Seq<char>, TagV)>
    decreases s,
{
    if s.len() == 0 {
        seq![]
    } else {
        fields_view(s.drop_last()).push((s.last().0@, tag_view(s.last().1)))
    }
}

impl View for Tag {
    type V = TagV;

    open spec fn view(&self) -> TagV {
        tag_view(*self)
    }
}

/// The first field named `k`.
pub open spec fn field_index(f: Seq<(Seq<char>, TagV)>, k: Seq<char>) -> Option<int>
    decreases f.len(),
{
    if f.len() == 0 {
        None
    } else {
        match field_index(f.drop_last(), k) {
            Some(i) => Some(i),
            None => if f.last().0 == k {
                Some(f.len() - 1)
            } else {
                None
            },
        }
    }
}

/// A compound's field named `k`.
pub open spec fn get_spec(t: TagV, k: Seq<char>) -> Option<TagV> {
    match t {
        TagV::Compound(f) => match field_index(f, k) {
            Some(i) => Some(f[i].1),
            None => None,
        },
        _ => None,
    }
}

/// Follow a path of compound keys.
pub open spec fn at_spec(t: TagV, path: Seq<Seq<char>>) -> Option<TagV>
    decreases path.len(),
{
    if path.len() == 0 {
        Some(t)
    } else {
        match get_spec(t, path[0]) {
            Some(c) => at_spec(c, path.drop_first()),
            None => None,
        }
    }
}

proof fn lemma_fields_view_index(s: Seq<(String, Tag)>)
    ensures
        fields_view(s).len() == s.len(),
        forall|i: int| 0 <= i < s.len() ==> #[trigger] fields_view(s)[i] == (s[i].0@, s[i].1@),
    decreases s.len(),
{
    if s.len() > 0 {
        lemma_fields_view_index(s.drop_last());
    }
}

proof fn lemma_list_view_index(s: Seq<Tag>)
    ensures
        list_view(s).len() == s.len(),
        forall|i: int| 0 <= i < s.len() ==> #[trigger] list_view(s)[i] == s[i]@,
    decreases s.len(),
{
    if s.len() > 0 {
        lemma_list_view_index(s.drop_last());
    }
}

pub proof fn lemma_field_index_first(f: Seq<(Seq<char>, TagV)>, k: Seq<char>, i: int)
    requires
        0 <= i < f.len(),
        f[i].0 == k,
        forall|j: int| 0 <= j < i ==> f[j].0 != k,
    ensures
        field_index(f, k) == Some(i),
    decreases f.len(),
{
    if i < f.len() - 1 {
        lemma_field_index_first(f.drop_last(), k, i);
    } else {
        lemma_field_index_none(f.drop_last(), k);
    }
}

proof fn lemma_field_index_none(f: Seq<(Seq<char>, TagV)>, k: Seq<char>)
    requires
        forall|j: int| 0 <= j < f.len() ==> f[j].0 != k,
    ensures
        field_index(f, k) is None,
    decreases f.len(),
{
    if f.len() > 0 {
        lemma_field_index_none(f.drop_last(), k);
    }
}

impl Tag {
    /// A field of a compound.
    pub fn get(&self, key: &str) -> (res: Option<&Tag>)
        ensures
            match get_spec(self@, key@) {
                Some(v) => res matches Some(t) && t@ == v,
                None => res is None,
            },
    {
        match self {
            Tag::Compound(fields) => {
                proof {
                    lemma_fields_view_index(fields@);
                }
                let ghost fv = fields_view(fields@);
                assert(self@ == TagV::Compound(fv));
                let mut j: usize = 0;
                while j < fields.len()
                    invariant
                        fv == fields_view(fields@),
                        self@ == TagV::Compound(fv),
                        fv.len() == fields@.len(),
                        forall|i: int| 0 <= i < fields@.len() ==> #[trigger] fv[i] == (fields@[i].0@, fields@[i].1@),
                        j <= fields@.len(),
                        forall|q: int| 0 <= q < j ==> fv[q].0 != key@,
                    decreases fields.len() - j,
                {
                    if str_eq(fields[j].0.as_str(), key) {
                        proof {
                            lemma_field_index_first(fv, key@, j as int);
                        }
                        return Some(&fields[j].1);
                    }
                    j += 1;
                }
                proof {
                    lemma_field_index_none(fv, key@);
                }
                None
            },
            _ => None,
        }
    }

    /// Follow a path of compound keys.
    pub fn at(&self, path: &[&str]) -> (res: Option<&Tag>)
        ensures
            match at_spec(self@, crate::grid::str_views(path@)) {
                Some(v) => res matches Some(t) && t@ == v,
                None => res is None,
            },
    {
        let ghost pv = crate::grid::str_views(path@);
        let mut cur: &Tag = self;
        let mut k: usize = 0;
        assert(pv.skip(0) =~= pv);
        while k < path.len()
            invariant
                pv == crate::grid::str_views(path@),
                k <= path@.len(),
                at_spec(self@, pv) == at_spec(cur@, pv.skip(k as int)),
            decreases path.len() - k,
        {
            assert(pv.skip(k as int).drop_first() == pv.skip(k + 1));
            assert(pv.skip(k as int)[0] == path@[k as int]@);
            match cur.get(path[k]) {
                Some(next) => {
                    cur = next;
                },
                None => {
                    return None;
                },
            }
            k += 1;
        }
        assert(pv.skip(path@.len() as int).len() == 0);
        Some(cur)
    }

    /// A whole-number tag as an `i64`.
    pub fn as_i64(&self) -> (res: Option<i64>)
        ensures
            res == match self@ {
                TagV::Byte(v) => Some(v as i64),
                TagV::Short(v) => Some(v as i64),
                TagV::Int(v) => Some(v as i64),
                TagV::Long(v) => Some(v),
                _ => None::<i64>,
            },
    {
        match self {
            Tag::Byte(v) => Some(*v as i64),
            Tag::Short(v) => Some(*v as i64),
            Tag::Int(v) => Some(*v as i64),
            Tag::Long(v) => Some(*v),
            _ => None,
        }
    }

    /// A string tag's text.
    pub fn as_str(&self) -> (res: Option<&str>)
        ensures
            match self@ {
                TagV::Str(s) => res matches Some(r) && r@ == s,
                _ => res is None,
            },
    {
        match self {
            Tag::String(s) => Some(s.as_str()),
            _ => None,
        }
    }

    /// A list tag's elements.
    pub fn as_list(&self) -> (res: Option<&[Tag]>)
        ensures
            match self@ {
                TagV::List(items) => res matches Some(r) && list_view(r@) == items,
                _ => res is None,
            },
    {
        match self {
            Tag::List(v) => Some(v.as_slice()),
            _ => None,
        }
    }

    /// A compound's field names, in file order.
    pub fn keys(&self) -> (res: Vec<&str>)
        ensures
            match self@ {
                TagV::Compound(f) => crate::grid::str_views(res@) == f.map_values(
                    |e: (Seq<char>, TagV)| e.0,
                ),
                _ => res@.len() == 0,
            },
    {
        let mut out: Vec<&str> = Vec::new();
        match self {
            Tag::Compound(fields) => {
                proof {
                    lemma_fields_view_index(fields@);
                }
                let ghost fv = fields_view(fields@);
                let mut j: usize = 0;
                while j < fields.len()
                    invariant
                        fv == fields_view(fields@),
                        fv.len() == fields@.len(),
                        forall|i: int| 0 <= i < fields@.len() ==> #[trigger] fv[i] == (fields@[i].0@, fields@[i].1@),
                        j <= fields@.len(),
                        out@.len() == j,
                        forall|i: int| 0 <= i < j ==> (#[trigger] out@[i])@ == fv[i].0,
                    decreases fields.len() - j,
                {
                    out.push(fields[j].0.as_str());
                    j += 1;
                }
                assert(self@ == TagV::Compound(fv));
                assert(crate::grid::str_views(out@) =~= fv.map_values(|e: (Seq<char>, TagV)| e.0));
            },
            _ => {},
        }
        out
    }
}

// ── The grammar ──────────────────────────────────────────────────────────

/// `n` bytes from `pos` on are there.
pub open spec fn available(b: Seq<u8>, pos: int, n: int) -> bool {
    0 <= pos && 0 <= n && pos + n <= b.len()
}

pub open spec fn u16_at(b: Seq<u8>, pos: int) -> u16 {
    ((b[pos] as u16) << 8u16) | (b[pos + 1] as u16)
}

pub open spec fn u32_at(b: Seq<u8>, pos: int) -> u32 {
    ((b[pos] as u32) << 24u32) | ((b[pos + 1] as u32) << 16u32) | ((b[pos + 2] as u32) << 8u32)
        | (b[pos + 3] as u32)
}

pub open spec fn u64_at(b: Seq<u8>, pos: int) -> u64 {
    ((u32_at(b, pos) as u64) << 32u64) | (u32_at(b, pos + 4) as u64)
}

/// A length prefix: a big-endian `i32` that must not be negative.
pub open spec fn len_at(b: Seq<u8>, pos: int) -> Result<(int, int), NbtError> {
    if !available(b, pos, 4) {
        Err(NbtError::Truncated)
    } else if (u32_at(b, pos) as i32) < 0 {
        Err(NbtError::NegativeLength)
    } else {
        Ok(((u32_at(b, pos) as i32) as int, pos + 4))
    }
}

/// A string: a `u16` byte length, then modified UTF-8.
pub open spec fn string_at(b: Seq<u8>, pos: int) -> Result<(Seq<char>, int), NbtError> {
    if !available(b, pos, 2) {
        Err(NbtError::Truncated)
    } else {
        let n = u16_at(b, pos) as int;
        if !available(b, pos + 2, n) {
            Err(NbtError::Truncated)
        } else {
            match decoded(b.subrange(pos + 2, pos + 2 + n)) {
                Some(s) => Ok((s, pos + 2 + n)),
                None => Err(NbtError::InvalidUtf8),
            }
        }
    }
}

/// The payload of a tag of type `tag` at `pos`, nested `depth` deep: the
/// value and where it ends.
pub open spec fn payload_at(b: Seq<u8>, pos: int, tag: u8, depth: int) -> Result<(TagV, int), NbtError>
    decreases 513 - depth, 2int, 0int, 0int,
{
    if depth > 512 {
        Err(NbtError::TooDeep)
    } else if tag == TAG_BYTE {
        if available(b, pos, 1) {
            Ok((TagV::Byte(b[pos] as i8), pos + 1))
        } else {
            Err(NbtError::Truncated)
        }
    } else if tag == TAG_SHORT {
        if available(b, pos, 2) {
            Ok((TagV::Short(u16_at(b, pos) as i16), pos + 2))
        } else {
            Err(NbtError::Truncated)
        }
    } else if tag == TAG_INT {
        if available(b, pos, 4) {
            Ok((TagV::Int(u32_at(b, pos) as i32), pos + 4))
        } else {
            Err(NbtError::Truncated)
        }
    } else if tag == TAG_LONG {
        if available(b, pos, 8) {
            Ok((TagV::Long(u64_at(b, pos) as i64), pos + 8))
        } else {
            Err(NbtError::Truncated)
        }
    } else if tag == TAG_FLOAT {
        if available(b, pos, 4) {
            Ok((TagV::Float(u32_at(b, pos)), pos + 4))
        } else {
            Err(NbtError::Truncated)
        }
    } else if tag == TAG_DOUBLE {
        if available(b, pos, 8) {
            Ok((TagV::Double(u64_at(b, pos)), pos + 8))
        } else {
            Err(NbtError::Truncated)
        }
    } else if tag == TAG_BYTE_ARRAY {
        match len_at(b, pos) {
            Ok(l) => if available(b, l.1, l.0) {
                Ok((TagV::ByteArray(b.subrange(l.1, l.1 + l.0)), l.1 + l.0))
            } else {
                Err(NbtError::Truncated)
            },
            Err(e) => Err(e),
        }
    } else if tag == TAG_STRING {
        match string_at(b, pos) {
            Ok(s) => Ok((TagV::Str(s.0), s.1)),
            Err(e) => Err(e),
        }
    } else if tag == TAG_LIST {
        if !available(b, pos, 1) {
            Err(NbtError::Truncated)
        } else {
            match len_at(b, pos + 1) {
                Ok(l) => match items_at(b, l.1, b[pos], l.0, depth) {
                    Ok(r) => Ok((TagV::List(r.0), r.1)),
                    Err(e) => Err(e),
                },
                Err(e) => Err(e),
            }
        }
    } else if tag == TAG_COMPOUND {
        match fields_at(b, pos, depth) {
            Ok(r) => Ok((TagV::Compound(r.0), r.1)),
            Err(e) => Err(e),
        }
    } else if tag == TAG_INT_ARRAY {
        match len_at(b, pos) {
            Ok(l) => if available(b, l.1, 4 * l.0) {
                Ok(
                    (
                        TagV::IntArray(Seq::new(l.0 as nat, |k: int| u32_at(b, l.1 + 4 * k) as i32)),
                        l.1 + 4 * l.0,
                    ),
                )
            } else {
                Err(NbtError::Truncated)
            },
            Err(e) => Err(e),
        }
    } else if tag == TAG_LONG_ARRAY {
        match len_at(b, pos) {
            Ok(l) => if available(b, l.1, 8 * l.0) {
                Ok(
                    (
                        TagV::LongArray(Seq::new(l.0 as nat, |k: int| u64_at(b, l.1 + 8 * k) as i64)),
                        l.1 + 8 * l.0,
                    ),
                )
            } else {
                Err(NbtError::Truncated)
            },
            Err(e) => Err(e),
        }
    } else {
        Err(NbtError::UnknownTag(tag))
    }
}

/// `n` list elements of type `elem` from `pos` on.
pub open spec fn items_at(b: Seq<u8>, pos: int, elem: u8, n: int, depth: int) -> Result<
    (Seq<TagV>, int),
    NbtError,
>
    decreases 513 - depth, 1int, b.len() - pos, n,
{
    if depth > 512 {
        Err(NbtError::TooDeep)
    } else if n <= 0 {
        Ok((seq![], pos))
    } else {
        match payload_at(b, pos, elem, depth + 1) {
            Ok(r) => if r.1 < pos || r.1 > b.len() {
                Err(NbtError::Truncated)
            } else {
                match items_at(b, r.1, elem, n - 1, depth) {
                    Ok(q) => Ok((seq![r.0] + q.0, q.1)),
                    Err(e) => Err(e),
                }
            },
            Err(e) => Err(e),
        }
    }
}

/// A compound's fields from `pos` on, up to and past its end tag.
pub open spec fn fields_at(b: Seq<u8>, pos: int, depth: int) -> Result<
    (Seq<(Seq<char>, TagV)>, int),
    NbtError,
>
    decreases 513 - depth, 1int, b.len() - pos, 0int,
{
    if depth > 512 {
        Err(NbtError::TooDeep)
    } else if !available(b, pos, 1) {
        Err(NbtError::Truncated)
    } else if b[pos] == TAG_END {
        Ok((seq![], pos + 1))
    } else {
        match string_at(b, pos + 1) {
            Ok(name) => match payload_at(b, name.1, b[pos], depth + 1) {
                Ok(r) => if r.1 <= pos || r.1 > b.len() {
                    Err(NbtError::Truncated)
                } else {
                    match fields_at(b, r.1, depth) {
                        Ok(q) => Ok((seq![(name.0, r.0)] + q.0, q.1)),
                        Err(e) => Err(e),
                    }
                },
                Err(e) => Err(e),
            },
            Err(e) => Err(e),
        }
    }
}

/// An uncompressed document: the root tag, which must be a compound, with
/// its name.
pub open spec fn document(b: Seq<u8>) -> Result<(Seq<char>, TagV), NbtError> {
    if !available(b, 0, 1) {
        Err(NbtError::Truncated)
    } else if b[0] != TAG_COMPOUND {
        Err(NbtError::RootNotCompound)
    } else {
        match string_at(b, 1) {
            Ok(name) => match payload_at(b, name.1, TAG_COMPOUND, 0) {
                Ok(r) => Ok((name.0, r.0)),
                Err(e) => Err(e),
            },
            Err(e) => Err(e),
        }
    }
}

// ── Reading ──────────────────────────────────────────────────────────────

fn u16_of(b: &[u8], pos: usize) -> (res: u16)
    requires
        available(b@, pos as int, 2),
    ensures
        res == u16_at(b@, pos as int),
{
    ((b[pos] as u16) << 8) | (b[pos + 1] as u16)
}

fn u32_of(b: &[u8], pos: usize) -> (res: u32)
    requires
        available(b@, pos as int, 4),
    ensures
        res == u32_at(b@, pos as int),
{
    ((b[pos] as u32) << 24) | ((b[pos + 1] as u32) << 16) | ((b[pos + 2] as u32) << 8) | (b[pos
        + 3] as u32)
}

fn u64_of(b: &[u8], pos: usize) -> (res: u64)
    requires
        available(b@, pos as int, 8),
    ensures
        res == u64_at(b@, pos as int),
{
    let len = b.len();
    let hi = u32_of(b, pos) as u64;
    let lo = u32_of(b, pos + 4) as u64;
    (hi << 32) | lo
}

fn read_len(b: &[u8], pos: usize) -> (res: Result<(usize, usize), NbtError>)
    ensures
        match len_at(b@, pos as int) {
            Ok(l) => res matches Ok(r) && r.0 == l.0 && r.1 == l.1,
            Err(e) => res == Err::<(usize, usize), NbtError>(e),
        },
{
    if b.len() < 4 || pos > b.len() - 4 {
        return Err(NbtError::Truncated);
    }
    let v = u32_of(b, pos) as i32;
    if v < 0 {
        return Err(NbtError::NegativeLength);
    }
    Ok((v as usize, pos + 4))
}

fn read_string(b: &[u8], pos: usize) -> (res: Result<(String, usize), NbtError>)
    ensures
        match string_at(b@, pos as int) {
            Ok(s) => res matches Ok(r) && r.0@ == s.0 && r.1 == s.1,
            Err(e) => res matches Err(f) && f == e,
        },
{
    if b.len() < 2 || pos > b.len() - 2 {
        return Err(NbtError::Truncated);
    }
    let n = u16_of(b, pos) as usize;
    if n > b.len() - (pos + 2) {
        return Err(NbtError::Truncated);
    }
    let bytes = vstd::slice::slice_subrange(b, pos + 2, pos + 2 + n);
    match decode_modified_utf8(bytes) {
        Ok(s) => Ok((s, pos + 2 + n)),
        Err(e) => Err(e),
    }
}

/// The payload of a tag of type `tag` at `pos`.
fn read_payload(b: &[u8], pos: usize, tag: u8, depth: usize) -> (res: Result<(Tag, usize), NbtError>)
    requires
        pos <= b@.len(),
    ensures
        match payload_at(b@, pos as int, tag, depth as int) {
            Ok(r) => res matches Ok(t) && t.0@ == r.0 && t.1 == r.1 && pos < t.1 <= b@.len(),
            Err(e) => res matches Err(f) && f == e,
        },
    decreases 513 - depth, 2int,
{
    if depth > MAX_DEPTH {
        return Err(NbtError::TooDeep);
    }
    let room = b.len() - pos;
    if tag == TAG_BYTE {
        if room < 1 {
            return Err(NbtError::Truncated);
        }
        Ok((Tag::Byte(b[pos] as i8), pos + 1))
    } else if tag == TAG_SHORT {
        if room < 2 {
            return Err(NbtError::Truncated);
        }
        Ok((Tag::Short(u16_of(b, pos) as i16), pos + 2))
    } else if tag == TAG_INT {
        if room < 4 {
            return Err(NbtError::Truncated);
        }
        Ok((Tag::Int(u32_of(b, pos) as i32), pos + 4))
    } else if tag == TAG_LONG {
        if room < 8 {
            return Err(NbtError::Truncated);
        }
        Ok((Tag::Long(u64_of(b, pos) as i64), pos + 8))
    } else if tag == TAG_FLOAT {
        if room < 4 {
            return Err(NbtError::Truncated);
        }
        Ok((Tag::Float(u32_of(b, pos)), pos + 4))
    } else if tag == TAG_DOUBLE {
        if room < 8 {
            return Err(NbtError::Truncated);
        }
        Ok((Tag::Double(u64_of(b, pos)), pos + 8))
    } else if tag == TAG_BYTE_ARRAY {
        let (n, p) = read_len(b, pos)?;
        if n > b.len() - p {
            return Err(NbtError::Truncated);
        }
        let bytes = vstd::slice::slice_subrange(b, p, p + n);
        let mut v: Vec<u8> = Vec::new();
        let mut k: usize = 0;
        while k < n
            invariant
                k <= n,
                bytes@.len() == n,
                v@ == bytes@.take(k as int),
            decreases n - k,
        {
            v.push(bytes[k]);
            k += 1;
            assert(v@ =~= bytes@.take(k as int));
        }
        assert(bytes@.take(n as int) == bytes@);
        Ok((Tag::ByteArray(v), p + n))
    } else if tag == TAG_STRING {
        let (s, p) = read_string(b, pos)?;
        Ok((Tag::String(s), p))
    } else if tag == TAG_LIST {
        if room < 1 {
            return Err(NbtError::Truncated);
        }
        let element = b[pos];
        let (n, p) = read_len(b, pos + 1)?;
        let (items, end) = read_items(b, p, element, n, depth)?;
        Ok((Tag::List(items), end))
    } else if tag == TAG_COMPOUND {
        let (fields, end) = read_fields(b, pos, depth)?;
        Ok((Tag::Compound(fields), end))
    } else if tag == TAG_INT_ARRAY {
        let (n, p) = read_len(b, pos)?;
        if n > (b.len() - p) / 4 {
            return Err(NbtError::Truncated);
        }
        let mut v: Vec<i32> = Vec::new();
        let mut k: usize = 0;
        while k < n
            invariant
                k <= n,
                p + 4 * n <= b@.len(),
                b@.len() <= usize::MAX,
                v@ == Seq::new(k as nat, |q: int| u32_at(b@, p + 4 * q) as i32),
            decreases n - k,
        {
            assert(p + 4 * k + 4 <= p + 4 * n);
            v.push(u32_of(b, p + 4 * k) as i32);
            k += 1;
            assert(v@ =~= Seq::new(k as nat, |q: int| u32_at(b@, p + 4 * q) as i32));
        }
        Ok((Tag::IntArray(v), p + 4 * n))
    } else if tag == TAG_LONG_ARRAY {
        let (n, p) = read_len(b, pos)?;
        if n > (b.len() - p) / 8 {
            return Err(NbtError::Truncated);
        }
        let mut v: Vec<i64> = Vec::new();
        let mut k: usize = 0;
        while k < n
            invariant
                k <= n,
                p + 8 * n <= b@.len(),
                b@.len() <= usize::MAX,
                v@ == Seq::new(k as nat, |q: int| u64_at(b@, p + 8 * q) as i64),
            decreases n - k,
        {
            assert(p + 8 * k + 8 <= p + 8 * n);
            v.push(u64_of(b, p + 8 * k) as i64);
            k += 1;
            assert(v@ =~= Seq::new(k as nat, |q: int| u64_at(b@, p + 8 * q) as i64));
        }
        Ok((Tag::LongArray(v), p + 8 * n))
    } else {
        Err(NbtError::UnknownTag(tag))
    }
}

/// `n` list elements of type `elem` from `pos` on.
fn read_items(b: &[u8], pos: usize, elem: u8, n: usize, depth: usize) -> (res: Result<
    (Vec<Tag>, usize),
    NbtError,
>)
    requires
        pos <= b@.len(),
        depth <= 512,
    ensures
        match items_at(b@, pos as int, elem, n as int, depth as int) {
            Ok(r) => res matches Ok(t) && list_view(t.0@) == r.0 && t.1 == r.1 && pos <= t.1
                <= b@.len(),
            Err(e) => res matches Err(f) && f == e,
        },
    decreases 513 - depth, 1int,
{
    let mut items: Vec<Tag> = Vec::new();
    let mut p = pos;
    let mut k: usize = 0;
    while k < n
        invariant
            depth <= 512,
            pos <= p <= b@.len(),
            k <= n,
            items_at(b@, pos as int, elem, n as int, depth as int) == (match items_at(
                b@,
                p as int,
                elem,
                (n - k) as int,
                depth as int,
            ) {
                Ok(q) => Ok((list_view(items@) + q.0, q.1)),
                Err(e) => Err(e),
            }),
        decreases n - k,
    {
        let ghost before = items@;
        let (t, next) = match read_payload(b, p, elem, depth + 1) {
            Ok(r) => r,
            Err(e) => {
                return Err(e);
            },
        };
        proof {
            assert(before.push(t).drop_last() =~= before);
            assert(list_view(before.push(t)) == list_view(before).push(t@));
        }
        items.push(t);
        assert(items@ == before.push(t));
        p = next;
        k += 1;
        proof {
            let tail = items_at(b@, p as int, elem, (n - k) as int, depth as int);
            match tail {
                Ok(q) => {
                    assert(list_view(before) + (seq![t@] + q.0) =~= list_view(items@) + q.0);
                },
                Err(_) => {},
            }
        }
    }
    assert(list_view(items@) + seq![] =~= list_view(items@));
    Ok((items, p))
}

/// A compound's fields from `pos` on, past its end tag.
fn read_fields(b: &[u8], pos: usize, depth: usize) -> (res: Result<
    (Vec<(String, Tag)>, usize),
    NbtError,
>)
    requires
        pos <= b@.len(),
        depth <= 512,
    ensures
        match fields_at(b@, pos as int, depth as int) {
            Ok(r) => res matches Ok(t) && fields_view(t.0@) == r.0 && t.1 == r.1 && pos < t.1
                <= b@.len(),
            Err(e) => res matches Err(f) && f == e,
        },
    decreases 513 - depth, 1int,
{
    let mut fields: Vec<(String, Tag)> = Vec::new();
    let mut p = pos;
    loop
        invariant
            depth <= 512,
            pos <= p <= b@.len(),
            fields_at(b@, pos as int, depth as int) == (match fields_at(b@, p as int, depth as int) {
                Ok(q) => Ok((fields_view(fields@) + q.0, q.1)),
                Err(e) => Err(e),
            }),
        decreases b@.len() - p,
    {
        if p >= b.len() {
            return Err(NbtError::Truncated);
        }
        let t = b[p];
        if t == TAG_END {
            assert(fields_view(fields@) + seq![] =~= fields_view(fields@));
            return Ok((fields, p + 1));
        }
        let (name, after_name) = read_string(b, p + 1)?;
        let (value, next) = read_payload(b, after_name, t, depth + 1)?;
        let ghost before = fields@;
        let ghost entry = (name@, value@);
        proof {
            assert(before.push((name, value)).drop_last() =~= before);
            assert(fields_view(before.push((name, value))) == fields_view(before).push(entry));
        }
        fields.push((name, value));
        p = next;
        proof {
            let tail = fields_at(b@, p as int, depth as int);
            match tail {
                Ok(q) => {
                    assert(fields_view(before) + (seq![entry] + q.0) =~= fields_view(fields@) + q.0);
                },
                Err(_) => {},
            }
        }
    }
}

/// Parse an uncompressed NBT document: the root tag's name and value.
pub fn read(b: &[u8]) -> (res: Result<(String, Tag), NbtError>)
    ensures
        match document(b@) {
            Ok(d) => res matches Ok(r) && r.0@ == d.0 && r.1@ == d.1,
            Err(e) => res matches Err(f) && f == e,
        },
{
    if b.len() < 1 {
        return Err(NbtError::Truncated);
    }
    if b[0] != TAG_COMPOUND {
        return Err(NbtError::RootNotCompound);
    }
    let (name, p) = read_string(b, 1)?;
    let (value, _) = read_payload(b, p, TAG_COMPOUND, 0)?;
    Ok((name, value))
}

/// Parse a gzip-compressed NBT document, what `.litematic`, `.schem` and
/// structure `.nbt` files are. `NotGzip` where the bytes do not decompress.
pub fn read_gzip(b: &[u8]) -> (res: Result<(String, Tag), NbtError>)
    ensures
        match gunzip_of(b@) {
            None => res == Err::<(String, Tag), NbtError>(NbtError::NotGzip),
            Some(doc) => match document(doc) {
                Ok(d) => res matches Ok(r) && r.0@ == d.0 && r.1@ == d.1,
                Err(e) => res matches Err(f) && f == e,
            },
        },
        forall|x: Seq<u8>| #[trigger] gzip_of(x) == b@ ==> gunzip_of(b@) == Some(x),
{
    match gunzip(b) {
        Some(doc) => read(doc.as_slice()),
        None => Err(NbtError::NotGzip),
    }
}

} // verus!
