//! What the schematic writers share: the metadata a file carries, the
//! palette every format opens with air, and gzip, which all of them are
//! wrapped in.
use vstd::prelude::*;
use crate::grid::{views, BlockGrid};
use crate::nbt::{
    compound_start, end_tag, int_array_tag, int_tag, lemma_short_string_fits, list_start, long_tag,
    short_tag, string_fits, string_tag, NbtError, NbtWriter,
};
use crate::text::{decimal, integer_value, parse_i64, push_decimal, push_str, str_eq, trim, trimmed};

verus! {

/// What a schematic says about itself.
#[derive(Debug, Clone)]
pub struct Metadata {
    pub name: String,
    pub author: String,
    pub description: String,
    /// Creation time, milliseconds since the Unix epoch.
    pub time_ms: i64,
}

impl Metadata {
    /// Metadata for a conversion made at `time_ms`.
    pub fn new(name: &str, time_ms: i64) -> (res: Self)
        ensures
            res.name@ == name@,
            res.author@ == "SchemGen2"@,
            res.description@ == "Converted from a 3D model by SchemGen2"@,
            res.time_ms == time_ms,
    {
        Metadata {
            name: name.to_owned(),
            author: "SchemGen2".to_owned(),
            description: "Converted from a 3D model by SchemGen2".to_owned(),
            time_ms,
        }
    }
}

/// Why a grid could not be encoded.
#[derive(Debug, Clone, Copy, PartialEq, Eq, Structural)]
pub enum FormatError {
    /// The grid has no blocks.
    Empty,
    /// A side longer than the format can state.
    SideTooLong,
    /// More block data than the format can hold.
    TooLarge,
    /// The NBT writer refused a string or an array.
    Nbt(NbtError),
    /// The compressor failed.
    Compress,
}

/// The block ID of air, index 0 of every file palette.
pub open spec fn air_id() -> Seq<char> {
    "minecraft:air"@
}

/// The grid's block IDs other than air, in order.
pub open spec fn non_air(names: Seq<Seq<char>>) -> Seq<Seq<char>>
    decreases names.len(),
{
    if names.len() == 0 {
        seq![]
    } else if names.last() == air_id() {
        non_air(names.drop_last())
    } else {
        non_air(names.drop_last()).push(names.last())
    }
}

/// A file's palette: air, then the grid's other block IDs.
pub open spec fn file_palette(names: Seq<Seq<char>>) -> Seq<Seq<char>> {
    seq![air_id()] + non_air(names)
}

/// Where grid palette entry `k` lands in the file palette.
pub open spec fn palette_slot(names: Seq<Seq<char>>, k: int) -> int {
    if names[k] == air_id() {
        0
    } else {
        non_air(names.take(k)).len() + 1int
    }
}

/// How many placed blocks are something other than air.
pub open spec fn placed_count(names: Seq<Seq<char>>, blocks: Seq<u16>) -> nat
    decreases blocks.len(),
{
    if blocks.len() == 0 {
        0
    } else {
        placed_count(names, blocks.drop_last()) + if names[blocks.last() as int] == air_id() {
            0nat
        } else {
            1nat
        }
    }
}

pub proof fn lemma_non_air_len(names: Seq<Seq<char>>)
    ensures
        non_air(names).len() <= names.len(),
    decreases names.len(),
{
    if names.len() > 0 {
        lemma_non_air_len(names.drop_last());
    }
}

/// A file palette holds at most one entry more than the grid's.
pub proof fn lemma_file_palette_len(names: Seq<Seq<char>>)
    ensures
        file_palette(names).len() <= names.len() + 1,
{
    lemma_non_air_len(names);
}

/// The file palette and, for each grid palette entry, its index there.
pub fn file_palette_of<'a>(names: &'a Vec<String>) -> (res: (Vec<&'a str>, Vec<u32>))
    requires
        names@.len() <= 65535,
    ensures
        crate::grid::str_views(res.0@) == file_palette(views(names@)),
        res.1@.len() == names@.len(),
        forall|k: int| 0 <= k < names@.len() ==> #[trigger] res.1@[k] == palette_slot(views(names@), k),
        forall|k: int| 0 <= k < names@.len() ==> (#[trigger] res.1@[k]) < res.0@.len()
            && res.0@[res.1@[k] as int]@ == views(names@)[k],
{
    let ghost nv = views(names@);
    let mut palette: Vec<&'a str> = Vec::new();
    palette.push("minecraft:air");
    let mut slots: Vec<u32> = Vec::new();
    let mut k: usize = 0;
    proof {
        reveal_strlit("minecraft:air");
    }
    assert(crate::grid::str_views(palette@) =~= file_palette(nv.take(0)));
    while k < names.len()
        invariant
            nv == views(names@),
            names@.len() <= 65535,
            k <= names@.len(),
            crate::grid::str_views(palette@) == file_palette(nv.take(k as int)),
            slots@.len() == k,
            forall|j: int| 0 <= j < k ==> #[trigger] slots@[j] == palette_slot(nv, j),
            forall|j: int| 0 <= j < k ==> (#[trigger] slots@[j]) < palette@.len() && palette@[slots@[j] as int]@ == nv[j],
        decreases names.len() - k,
    {
        let name = names[k].as_str();
        assert(nv.take(k + 1).drop_last() == nv.take(k as int));
        assert(nv.take(k as int) == nv.take(k + 1).take(k as int));
        proof {
            lemma_non_air_len(nv.take(k as int));
        }
        assert(palette@.len() == crate::grid::str_views(palette@).len());
        assert(palette@.len() <= k + 1);
        if str_eq(name, "minecraft:air") {
            slots.push(0);
            assert(palette@[0]@ == crate::grid::str_views(palette@)[0]);
            assert(crate::grid::str_views(palette@) == file_palette(nv.take(k + 1)));
        } else {
            let ghost before = palette@;
            slots.push(palette.len() as u32);
            palette.push(name);
            assert(forall|x: int| 0 <= x < before.len() ==> palette@[x] == before[x]);
            assert(crate::grid::str_views(palette@) =~= crate::grid::str_views(before).push(name@));
            assert(crate::grid::str_views(palette@) =~= file_palette(nv.take(k + 1)));
        }
        k += 1;
    }
    assert(nv.take(names@.len() as int) == nv);
    (palette, slots)
}

/// `v` capped at `i32::MAX`.
pub open spec fn clamped(v: int) -> i32 {
    if v <= i32::MAX {
        v as i32
    } else {
        i32::MAX
    }
}

/// `v` capped at `i32::MAX`.
pub fn clamp_i32(v: u64) -> (res: i32)
    ensures
        res == clamped(v as int),
{
    if v > i32::MAX as u64 {
        i32::MAX
    } else {
        v as i32
    }
}

/// Number of placed blocks that are not air.
pub fn count_placed(grid: &BlockGrid) -> (res: u64)
    requires
        grid.wf(),
    ensures
        res == placed_count(views(grid.names@), grid.blocks@),
{
    let ghost nv = views(grid.names@);
    let mut n: u64 = 0;
    let mut i: usize = 0;
    while i < grid.blocks.len()
        invariant
            grid.wf(),
            nv == views(grid.names@),
            i <= grid.blocks@.len(),
            n == placed_count(nv, grid.blocks@.take(i as int)),
            n <= i,
        decreases grid.blocks.len() - i,
    {
        let b = grid.blocks[i] as usize;
        assert(grid.blocks@.take(i + 1).drop_last() == grid.blocks@.take(i as int));
        if !str_eq(grid.names[b].as_str(), "minecraft:air") {
            n += 1;
        }
        i += 1;
    }
    assert(grid.blocks@.take(grid.blocks@.len() as int) == grid.blocks@);
    n
}

// ── Writing whole tags ───────────────────────────────────────────────────

pub(crate) fn put_compound(w: &mut NbtWriter, name: &str)
    requires
        name@.len() <= 10922,
    ensures
        final(w)@ == old(w)@ + compound_start(name@),
{
    proof {
        lemma_short_string_fits(name@);
    }
    let _ = w.begin_compound(name);
    assert(w@ =~= old(w)@ + compound_start(name@));
}

pub(crate) fn put_end(w: &mut NbtWriter)
    ensures
        final(w)@ == old(w)@ + end_tag(),
{
    let _ = w.end();
    assert(w@ =~= old(w)@ + end_tag());
}

pub(crate) fn put_int(w: &mut NbtWriter, name: &str, v: i32)
    requires
        name@.len() <= 10922,
    ensures
        final(w)@ == old(w)@ + int_tag(name@, v),
{
    proof {
        lemma_short_string_fits(name@);
    }
    let _ = w.int32(name, v);
    assert(w@ =~= old(w)@ + int_tag(name@, v));
}

pub(crate) fn put_long(w: &mut NbtWriter, name: &str, v: i64)
    requires
        name@.len() <= 10922,
    ensures
        final(w)@ == old(w)@ + long_tag(name@, v),
{
    proof {
        lemma_short_string_fits(name@);
    }
    let _ = w.long(name, v);
    assert(w@ =~= old(w)@ + long_tag(name@, v));
}

pub(crate) fn put_list(w: &mut NbtWriter, name: &str, element: u8, len: usize)
    requires
        name@.len() <= 10922,
        len <= i32::MAX,
    ensures
        final(w)@ == old(w)@ + list_start(name@, element, len as nat),
{
    proof {
        lemma_short_string_fits(name@);
    }
    let _ = w.begin_list(name, element, len);
    assert(w@ =~= old(w)@ + list_start(name@, element, len as nat));
}

/// A string field whose name is short; `Err` where the value does not fit.
pub(crate) fn put_string(w: &mut NbtWriter, name: &str, v: &str) -> (res: Result<(), FormatError>)
    requires
        name@.len() <= 10922,
    ensures
        res is Ok <==> string_fits(v@),
        res is Ok ==> final(w)@ == old(w)@ + string_tag(name@, v@),
        res is Err ==> res == Err::<(), FormatError>(FormatError::Nbt(NbtError::StringTooLong)),
{
    proof {
        lemma_short_string_fits(name@);
    }
    match w.string(name, v) {
        Ok(()) => {
            assert(w@ =~= old(w)@ + string_tag(name@, v@));
            Ok(())
        },
        Err(_) => Err(FormatError::Nbt(NbtError::StringTooLong)),
    }
}

pub(crate) fn put_short(w: &mut NbtWriter, name: &str, v: i16)
    requires
        name@.len() <= 10922,
    ensures
        final(w)@ == old(w)@ + short_tag(name@, v),
{
    proof {
        lemma_short_string_fits(name@);
    }
    let _ = w.short(name, v);
    assert(w@ =~= old(w)@ + short_tag(name@, v));
}

pub(crate) fn put_int_array(w: &mut NbtWriter, name: &str, v: &[i32])
    requires
        name@.len() <= 10922,
        v@.len() <= i32::MAX,
    ensures
        final(w)@ == old(w)@ + int_array_tag(name@, v@),
{
    proof {
        lemma_short_string_fits(name@);
    }
    let _ = w.int_array(name, v);
    assert(w@ =~= old(w)@ + int_array_tag(name@, v@));
}

/// An int field named by a block ID; `Err` where the name does not fit.
pub(crate) fn put_named_int(w: &mut NbtWriter, name: &str, v: i32) -> (res: Result<(), FormatError>)
    ensures
        res is Ok <==> string_fits(name@),
        res is Ok ==> final(w)@ == old(w)@ + int_tag(name@, v),
        res is Err ==> res == Err::<(), FormatError>(FormatError::Nbt(NbtError::StringTooLong)),
{
    match w.int32(name, v) {
        Ok(()) => {
            assert(w@ =~= old(w)@ + int_tag(name@, v));
            Ok(())
        },
        Err(_) => Err(FormatError::Nbt(NbtError::StringTooLong)),
    }
}

/// The gzip stream that `flate2` writes for `data` at the default level.
pub uninterp spec fn gzip_of(data: Seq<u8>) -> Seq<u8>;

/// Compresses `data` with `flate2::write::GzEncoder` at the default level
/// into a `Vec`. The result is named by `gzip_of`; what is stated of it is
/// the fixed ten-byte header `flate2` writes without a `GzBuilder`: magic,
/// deflate, no flags, no time stamp, level byte 0, OS 255. Writing into a
/// `Vec` reports no error, so the call always returns the stream.
#[verifier::external_body]
pub(crate) fn gzip(data: &[u8]) -> (res: Option<Vec<u8>>)
    ensures
        res is Some,
        res matches Some(v) ==> v@ == gzip_of(data@) && v@.len() >= 10 && v@.subrange(0, 10)
            == seq![0x1fu8, 0x8bu8, 8u8, 0u8, 0u8, 0u8, 0u8, 0u8, 0u8, 255u8],
{
    let mut e = flate2::write::GzEncoder::new(Vec::new(), flate2::Compression::default());
    std::io::Write::write_all(&mut e, data).ok()?;
    e.finish().ok()
}

/// What `flate2::read::GzDecoder` reads out of `data`: `None` where it
/// reports an error.
pub uninterp spec fn gunzip_of(data: Seq<u8>) -> Option<Seq<u8>>;

/// Decompresses a gzip stream with `flate2::read::GzDecoder`. The result is
/// named by `gunzip_of`; what is stated of it is that a stream `gzip` wrote
/// reads back as what was compressed.
#[verifier::external_body]
pub(crate) fn gunzip(data: &[u8]) -> (res: Option<Vec<u8>>)
    ensures
        res.is_some() == gunzip_of(data@).is_some(),
        res matches Some(v) ==> gunzip_of(data@) == Some(v@),
        forall|x: Seq<u8>| #[trigger] gzip_of(x) == data@ ==> res.is_some() && res.unwrap()@ == x,
{
    let mut out = Vec::new();
    std::io::Read::read_to_end(&mut flate2::read::GzDecoder::new(data), &mut out).ok()?;
    Some(out)
}

/// The document, gzip-compressed.
pub fn compress(doc: Vec<u8>) -> (res: Result<Vec<u8>, FormatError>)
    ensures
        res matches Ok(v) && v@ == gzip_of(doc@),
{
    match gzip(doc.as_slice()) {
        Some(v) => Ok(v),
        None => Err(FormatError::Compress),
    }
}

/// `n * 1000`, held at the ends of `i64`'s range.
pub open spec fn saturating_ms(n: int) -> i64 {
    if n * 1000 > i64::MAX {
        i64::MAX
    } else if n * 1000 < i64::MIN {
        i64::MIN
    } else {
        (n * 1000) as i64
    }
}

/// The time reproducible builds fix: `SOURCE_DATE_EPOCH` (seconds) in
/// milliseconds, when it is set to a whole number; the current time is
/// used otherwise.
pub fn source_date_ms(raw: Option<&str>) -> (res: Option<i64>)
    ensures
        match raw {
            Some(r) => match integer_value(trimmed(r@)) {
                Some(n) => if i64::MIN <= n <= i64::MAX {
                    res == Some(saturating_ms(n))
                } else {
                    res is None
                },
                None => res is None,
            },
            None => res is None,
        },
{
    match raw {
        Some(r) => match parse_i64(trim(r)) {
            Some(secs) => {
                if secs > 9223372036854775 {
                    Some(i64::MAX)
                } else if secs < -9223372036854775 {
                    Some(i64::MIN)
                } else {
                    Some(secs * 1000)
                }
            },
            None => None,
        },
        None => None,
    }
}

/// The hidden sibling a file is written to before it is renamed into
/// place: `.<name>.<pid>.<n>.partial`, unique per process and call.
pub fn temp_file_name(name: &str, pid: u32, n: u64) -> (res: String)
    ensures
        res@ == "."@ + name@ + "."@ + decimal(pid as nat) + "."@ + decimal(n as nat) + ".partial"@,
{
    let mut out = String::new();
    push_str(&mut out, ".");
    push_str(&mut out, name);
    push_str(&mut out, ".");
    push_decimal(&mut out, pid as u64);
    push_str(&mut out, ".");
    push_decimal(&mut out, n);
    push_str(&mut out, ".partial");
    out
}

proof fn lemma_decimal_injective(a: nat, b: nat)
    requires
        decimal(a) == decimal(b),
    ensures
        a == b,
    decreases a,
{
    crate::text::lemma_decimal_digits(a);
    crate::text::lemma_decimal_digits(b);
    if a >= 10 && b >= 10 {
        assert(decimal(a).drop_last() == decimal(a / 10));
        assert(decimal(b).drop_last() == decimal(b / 10));
        lemma_decimal_injective(a / 10, b / 10);
    }
}

/// Two calls with different counters never pick the same temporary name.
pub proof fn lemma_temp_names_differ(name: Seq<char>, pid: u32, a: u64, b: u64)
    requires
        a != b,
    ensures
        "."@ + name + "."@ + decimal(pid as nat) + "."@ + decimal(a as nat) + ".partial"@ != "."@
            + name + "."@ + decimal(pid as nat) + "."@ + decimal(b as nat) + ".partial"@,
{
    let p = "."@ + name + "."@ + decimal(pid as nat) + "."@;
    let x = p + decimal(a as nat) + ".partial"@;
    let y = p + decimal(b as nat) + ".partial"@;
    if x == y {
        assert(x.len() == y.len());
        assert(decimal(a as nat).len() == decimal(b as nat).len());
        assert(x.subrange(p.len() as int, (p.len() + decimal(a as nat).len()) as int) =~= decimal(
            a as nat,
        ));
        assert(y.subrange(p.len() as int, (p.len() + decimal(b as nat).len()) as int) =~= decimal(
            b as nat,
        ));
        lemma_decimal_injective(a as nat, b as nat);
    }
}

} // verus!
