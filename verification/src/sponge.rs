//! Sponge schematics (`.schem`), the format WorldEdit and FAWE read and
//! write, and Litematica can import.
//!
//! * Version 2 keeps everything at the root: `Width`/`Height`/`Length`
//!   (shorts), `Palette` (block ID to index) and `BlockData`, the indices as
//!   varints, x fastest, then z, then y.
//! * Version 3 nests the same data in a `Schematic` compound, with the blocks
//!   under `Blocks { Palette, Data, BlockEntities }`.
//!
//! Both are dense: every cell of the box is written, air included, so the
//! palette always has `minecraft:air` at index 0.
use vstd::prelude::*;
use crate::formats::{
    compress, file_palette, file_palette_of, gzip_of, palette_slot, put_compound, put_end, put_int,
    put_int_array, put_list, put_long, put_named_int, put_short, put_string, FormatError, Metadata,
};
use crate::grid::{str_views, views, BlockGrid};
use crate::litematic::{cell_index, cell_index_of, encodable};
use crate::nbt::{
    byte_array_tag, compound_start, end_tag, int_array_tag, int_tag, lemma_short_string_fits,
    list_start, long_tag, short_tag, string_fits, string_tag, NbtError, NbtWriter, TAG_COMPOUND,
    TAG_STRING,
};
use crate::reader::{at_spec, document, get_spec, lemma_field_index_first, TagV};
use crate::roundtrip::{
    document_bytes, field_bytes, fields_bytes, fields_writable, lemma_document_round_trip,
    lemma_fields_bytes_push, lemma_fields_writable_push, lemma_writer_tags_are_named_payloads,
    payload_bytes, writable,
};
use crate::litematic::{
    lemma_all_fields_writable, lemma_empty_list_reads, lemma_fields_bytes_take,
};
use crate::targets::Target;

verus! {

// ── Varints ──────────────────────────────────────────────────────────────

/// The varint of `v`: seven bits per byte, low bits first, the high bit set
/// on every byte but the last.
pub open spec fn varint(v: u32) -> Seq<u8>
    decreases v,
{
    if v < 128 {
        seq![v as u8]
    } else {
        seq![(v % 128 + 128) as u8] + varint((v / 128) as u32)
    }
}

/// The value and length of the varint at the start of `b`.
pub open spec fn decode_varint(b: Seq<u8>) -> Option<(int, int)>
    decreases b.len(),
{
    if b.len() == 0 {
        None
    } else if b[0] < 128 {
        Some((b[0] as int, 1))
    } else {
        match decode_varint(b.drop_first()) {
            Some((v, n)) => Some((b[0] - 128 + 128 * v, n + 1)),
            None => None,
        }
    }
}

/// A varint reads back as the value it was written for, whatever follows.
pub proof fn lemma_varint_round_trip(v: u32, rest: Seq<u8>)
    ensures
        decode_varint(varint(v) + rest) == Some((v as int, varint(v).len() as int)),
    decreases v,
{
    if v >= 128 {
        let w = (v / 128) as u32;
        lemma_varint_round_trip(w, rest);
        assert((varint(v) + rest).drop_first() =~= varint(w) + rest);
    }
}

proof fn lemma_varint_step(v: u32)
    by (bit_vector)
    ensures
        ((v as u8) & 0x7fu8) | 0x80u8 == (v % 128 + 128) as u8,
        v >> 7u32 == v / 128,
{
}

proof fn lemma_varint_len(v: u32)
    ensures
        1 <= varint(v).len() <= 5,
{
    let v1 = (v / 128) as u32;
    let v2 = (v1 / 128) as u32;
    let v3 = (v2 / 128) as u32;
    let v4 = (v3 / 128) as u32;
    assert(v4 < 128);
    assert(varint(v4).len() == 1);
    assert(varint(v3).len() <= 2);
    assert(varint(v2).len() <= 3);
    assert(varint(v1).len() <= 4);
}

/// Bytes in the varint of `v`.
pub fn varint_len(v: u32) -> (res: usize)
    ensures
        res == varint(v).len(),
        1 <= res <= 5,
{
    let mut v = v;
    let mut n: usize = 1;
    let ghost v0 = v;
    proof {
        lemma_varint_len(v0);
    }
    while v >= 0x80
        invariant
            varint(v0).len() == n - 1 + varint(v).len(),
            varint(v0).len() <= 5,
            1 <= n,
        decreases v,
    {
        proof {
            lemma_varint_step(v);
            lemma_varint_len((v / 128) as u32);
        }
        v = v >> 7;
        n += 1;
    }
    n
}

/// Append the varint of `v`.
pub fn push_varint(out: &mut Vec<u8>, v: u32)
    ensures
        final(out)@ == old(out)@ + varint(v),
{
    let mut v = v;
    let ghost v0 = v;
    while v >= 0x80
        invariant
            out@ + varint(v) == old(out)@ + varint(v0),
        decreases v,
    {
        proof {
            lemma_varint_step(v);
        }
        let ghost before = out@;
        let ghost vv = v;
        out.push(((v as u8) & 0x7f) | 0x80);
        v = v >> 7;
        assert(out@ + varint(v) =~= before + varint(vv));
    }
    out.push(v as u8);
    assert(out@ =~= old(out)@ + varint(v0));
}

// ── The dense block data ─────────────────────────────────────────────────

/// The file palette index of block `i`.
pub open spec fn block_slot(g: BlockGrid, i: int) -> u32 {
    palette_slot(views(g.names@), g.blocks@[i] as int) as u32
}

/// The file palette index at cell `c`, from the first `n` blocks: the last
/// of them placed there, or air.
pub open spec fn cell_slot(g: BlockGrid, n: int, c: int) -> u32
    decreases n,
{
    if n <= 0 {
        0
    } else if cell_index(g.size, g.coords@[n - 1]) == c {
        block_slot(g, n - 1)
    } else {
        cell_slot(g, n - 1, c)
    }
}

/// The varints of the first `n` cells.
pub open spec fn block_data(g: BlockGrid, n: int) -> Seq<u8>
    decreases n,
{
    if n <= 0 {
        seq![]
    } else {
        block_data(g, n - 1) + varint(cell_slot(g, g.coords@.len() as int, n - 1))
    }
}

/// Every cell's file palette index as a varint, air (0) where nothing is
/// placed.
pub fn block_data_of(grid: &BlockGrid, slots: &Vec<u32>) -> (res: Vec<u8>)
    requires
        encodable(*grid),
        slots@.len() == grid.names@.len(),
        forall|k: int| 0 <= k < slots@.len() ==> #[trigger] slots@[k] == palette_slot(views(grid.names@), k),
    ensures
        res@ == block_data(*grid, grid.volume_spec()),
{
    let total = grid.volume() as usize;
    assert(total == grid.volume_spec()) by {
        assert(grid.volume_spec() <= grid.volume_spec() * 16) by (nonlinear_arith)
            requires
                grid.volume_spec() >= 0,
        ;
    }
    let mut values: Vec<u32> = Vec::new();
    let mut c: usize = 0;
    while c < total
        invariant
            c <= total,
            values@.len() == c,
            forall|j: int| 0 <= j < c ==> #[trigger] values@[j] == 0,
        decreases total - c,
    {
        values.push(0);
        c += 1;
    }
    let mut i: usize = 0;
    while i < grid.coords.len()
        invariant
            encodable(*grid),
            slots@.len() == grid.names@.len(),
            forall|k: int| 0 <= k < slots@.len() ==> #[trigger] slots@[k] == palette_slot(views(grid.names@), k),
            total == grid.volume_spec(),
            values@.len() == total,
            i <= grid.coords@.len(),
            forall|j: int| 0 <= j < total ==> #[trigger] values@[j] == cell_slot(*grid, i as int, j),
        decreases grid.coords.len() - i,
    {
        let index = cell_index_of(grid, i);
        let b = grid.blocks[i] as usize;
        values.set(index, slots[b]);
        i += 1;
    }
    let mut out: Vec<u8> = Vec::new();
    let mut c: usize = 0;
    while c < total
        invariant
            total == grid.volume_spec(),
            values@.len() == total,
            forall|j: int| 0 <= j < total ==> #[trigger] values@[j] == cell_slot(
                *grid,
                grid.coords@.len() as int,
                j,
            ),
            c <= total,
            out@ == block_data(*grid, c as int),
        decreases total - c,
    {
        push_varint(&mut out, values[c]);
        c += 1;
    }
    out
}

// ── The document ─────────────────────────────────────────────────────────

/// The `Metadata` compound; version 3 adds an empty `RequiredMods`.
pub open spec fn sponge_metadata(m: Metadata, v3: bool) -> Seq<u8> {
    if v3 {
        compound_start("Metadata"@) + string_tag("Name"@, m.name@) + string_tag("Author"@, m.author@)
            + long_tag("Date"@, m.time_ms) + list_start("RequiredMods"@, TAG_STRING, 0) + end_tag()
    } else {
        compound_start("Metadata"@) + string_tag("Name"@, m.name@) + string_tag("Author"@, m.author@)
            + long_tag("Date"@, m.time_ms) + end_tag()
    }
}

/// Sizes, unsigned shorts stored in NBT's signed ones, and a zero offset.
pub open spec fn sponge_sizes(g: BlockGrid) -> Seq<u8> {
    short_tag("Width"@, g.size[0] as u16 as i16) + short_tag("Height"@, g.size[1] as u16 as i16)
        + short_tag("Length"@, g.size[2] as u16 as i16) + int_array_tag("Offset"@, seq![0i32, 0, 0])
}

/// The first `n` palette entries, each block ID naming its index.
pub open spec fn palette_ints(pal: Seq<Seq<char>>, n: int) -> Seq<u8>
    decreases n,
{
    if n <= 0 {
        seq![]
    } else {
        palette_ints(pal, n - 1) + int_tag(pal[n - 1], (n - 1) as i32)
    }
}

/// The `Palette` compound.
pub open spec fn palette_compound(pal: Seq<Seq<char>>) -> Seq<u8> {
    compound_start("Palette"@) + palette_ints(pal, pal.len() as int) + end_tag()
}

/// The root's opening and the version fields; version 3 nests everything
/// in a `Schematic` compound under an unnamed root.
pub open spec fn sponge_head(v3: bool, version: i32, t: Target) -> Seq<u8> {
    if v3 {
        compound_start(""@) + compound_start("Schematic"@) + int_tag("Version"@, version) + int_tag(
            "DataVersion"@,
            t.data_version,
        )
    } else {
        compound_start("Schematic"@) + int_tag("Version"@, version) + int_tag(
            "DataVersion"@,
            t.data_version,
        )
    }
}

/// The palette and the block data: version 3 under `Blocks`, version 2 at
/// the root after `PaletteMax`.
pub open spec fn sponge_blocks(v3: bool, pal: Seq<Seq<char>>, data: Seq<u8>) -> Seq<u8> {
    if v3 {
        compound_start("Blocks"@) + palette_compound(pal) + byte_array_tag("Data"@, data)
            + list_start("BlockEntities"@, TAG_COMPOUND, 0) + end_tag()
    } else {
        int_tag("PaletteMax"@, pal.len() as i32) + palette_compound(pal) + byte_array_tag(
            "BlockData"@,
            data,
        ) + list_start("BlockEntities"@, TAG_COMPOUND, 0)
    }
}

/// The empty entity list and the closing tags.
pub open spec fn sponge_tail(v3: bool) -> Seq<u8> {
    if v3 {
        list_start("Entities"@, TAG_COMPOUND, 0) + end_tag() + end_tag()
    } else {
        list_start("Entities"@, TAG_COMPOUND, 0) + end_tag()
    }
}

/// The uncompressed Sponge document of `version` (3 and up nest it).
pub open spec fn sponge_nbt(g: BlockGrid, m: Metadata, t: Target, version: i32) -> Seq<u8> {
    let v3 = version >= 3;
    sponge_head(v3, version, t) + sponge_metadata(m, v3) + sponge_sizes(g) + sponge_blocks(
        v3,
        file_palette(views(g.names@)),
        block_data(g, g.volume_spec()),
    ) + sponge_tail(v3)
}

/// Every side fits an unsigned short.
pub open spec fn sides_fit(g: BlockGrid) -> bool {
    g.size[0] <= u16::MAX && g.size[1] <= u16::MAX && g.size[2] <= u16::MAX
}

/// Every string the document holds fits NBT's length prefix.
pub open spec fn strings_fit(g: BlockGrid, m: Metadata) -> bool {
    let pal = file_palette(views(g.names@));
    &&& string_fits(m.name@)
    &&& string_fits(m.author@)
    &&& forall|k: int| 0 <= k < pal.len() ==> string_fits(#[trigger] pal[k])
}

/// The block data fits NBT's array length.
pub open spec fn data_fits(g: BlockGrid) -> bool {
    block_data(g, g.volume_spec()).len() <= i32::MAX
}

fn put_sponge_metadata(w: &mut NbtWriter, meta: &Metadata, v3: bool) -> (res: Result<(), FormatError>)
    ensures
        res is Ok <==> string_fits(meta.name@) && string_fits(meta.author@),
        res is Ok ==> final(w)@ == old(w)@ + sponge_metadata(*meta, v3),
        res is Err ==> res == Err::<(), FormatError>(FormatError::Nbt(NbtError::StringTooLong)),
{
    proof {
        reveal_strlit("Metadata");
        reveal_strlit("Name");
        reveal_strlit("Author");
        reveal_strlit("Date");
        reveal_strlit("RequiredMods");
    }
    put_compound(w, "Metadata");
    let r = put_string(w, "Name", meta.name.as_str());
    if r.is_err() {
        return r;
    }
    let r = put_string(w, "Author", meta.author.as_str());
    if r.is_err() {
        return r;
    }
    put_long(w, "Date", meta.time_ms);
    if v3 {
        put_list(w, "RequiredMods", TAG_STRING, 0);
    }
    put_end(w);
    Ok(())
}

fn put_sizes(w: &mut NbtWriter, grid: &BlockGrid)
    ensures
        final(w)@ == old(w)@ + sponge_sizes(*grid),
{
    proof {
        reveal_strlit("Width");
        reveal_strlit("Height");
        reveal_strlit("Length");
        reveal_strlit("Offset");
    }
    put_short(w, "Width", grid.size[0] as u16 as i16);
    put_short(w, "Height", grid.size[1] as u16 as i16);
    put_short(w, "Length", grid.size[2] as u16 as i16);
    let offset: [i32; 3] = [0, 0, 0];
    assert(offset@ == seq![0i32, 0, 0]);
    put_int_array(w, "Offset", offset.as_slice());
}

fn put_palette_compound(w: &mut NbtWriter, pal: &Vec<&str>) -> (res: Result<(), FormatError>)
    requires
        pal@.len() <= i32::MAX,
    ensures
        res is Ok <==> forall|k: int| 0 <= k < pal@.len() ==> string_fits(#[trigger] pal@[k]@),
        res is Ok ==> final(w)@ == old(w)@ + palette_compound(str_views(pal@)),
        res is Err ==> res == Err::<(), FormatError>(FormatError::Nbt(NbtError::StringTooLong)),
{
    proof {
        reveal_strlit("Palette");
    }
    let ghost pv = str_views(pal@);
    put_compound(w, "Palette");
    let ghost start = w@;
    let mut k: usize = 0;
    while k < pal.len()
        invariant
            pv == str_views(pal@),
            pal@.len() <= i32::MAX,
            k <= pal@.len(),
            forall|j: int| 0 <= j < k ==> string_fits(#[trigger] pal@[j]@),
            w@ == start + palette_ints(pv, k as int),
        decreases pal.len() - k,
    {
        let r = put_named_int(w, pal[k], k as i32);
        if r.is_err() {
            return r;
        }
        k += 1;
        assert(w@ =~= start + palette_ints(pv, k as int));
    }
    put_end(w);
    assert(w@ =~= old(w)@ + palette_compound(pv));
    Ok(())
}

fn put_data(w: &mut NbtWriter, name: &str, data: &Vec<u8>) -> (res: Result<(), FormatError>)
    requires
        name@.len() <= 10922,
    ensures
        res is Ok <==> data@.len() <= i32::MAX,
        res is Ok ==> final(w)@ == old(w)@ + byte_array_tag(name@, data@),
        res is Err ==> res == Err::<(), FormatError>(FormatError::TooLarge),
{
    if data.len() > i32::MAX as usize {
        return Err(FormatError::TooLarge);
    }
    proof {
        lemma_short_string_fits(name@);
    }
    let _ = w.byte_array(name, data.as_slice());
    assert(w@ =~= old(w)@ + byte_array_tag(name@, data@));
    Ok(())
}

/// Names the Sponge writer uses are short.
proof fn lemma_sponge_names_fit()
    ensures
        ""@.len() <= 10922,
        "Schematic"@.len() <= 10922,
        "Version"@.len() <= 10922,
        "DataVersion"@.len() <= 10922,
        "Blocks"@.len() <= 10922,
        "Data"@.len() <= 10922,
        "BlockData"@.len() <= 10922,
        "PaletteMax"@.len() <= 10922,
        "BlockEntities"@.len() <= 10922,
        "Entities"@.len() <= 10922,
{
    reveal_strlit("");
    reveal_strlit("Schematic");
    reveal_strlit("Version");
    reveal_strlit("DataVersion");
    reveal_strlit("Blocks");
    reveal_strlit("Data");
    reveal_strlit("BlockData");
    reveal_strlit("PaletteMax");
    reveal_strlit("BlockEntities");
    reveal_strlit("Entities");
}

fn put_sponge_head(w: &mut NbtWriter, v3: bool, version: i32, target: &Target)
    ensures
        final(w)@ == old(w)@ + sponge_head(v3, version, *target),
{
    proof {
        lemma_sponge_names_fit();
    }
    if v3 {
        put_compound(w, "");
        put_compound(w, "Schematic");
    } else {
        put_compound(w, "Schematic");
    }
    put_int(w, "Version", version);
    put_int(w, "DataVersion", target.data_version);
    assert(w@ =~= old(w)@ + sponge_head(v3, version, *target));
}

fn put_sponge_blocks(w: &mut NbtWriter, v3: bool, palette: &Vec<&str>, data: &Vec<u8>) -> (res: Result<
    (),
    FormatError,
>)
    requires
        palette@.len() <= 65536,
    ensures
        res is Ok <==> (forall|k: int| 0 <= k < palette@.len() ==> string_fits(#[trigger] palette@[k]@))
            && data@.len() <= i32::MAX,
        res is Ok ==> final(w)@ == old(w)@ + sponge_blocks(v3, str_views(palette@), data@),
        !(forall|k: int| 0 <= k < palette@.len() ==> string_fits(#[trigger] palette@[k]@)) ==> res
            == Err::<(), FormatError>(FormatError::Nbt(NbtError::StringTooLong)),
        (forall|k: int| 0 <= k < palette@.len() ==> string_fits(#[trigger] palette@[k]@))
            && data@.len() > i32::MAX ==> res == Err::<(), FormatError>(FormatError::TooLarge),
{
    proof {
        lemma_sponge_names_fit();
    }
    let ghost pv = str_views(palette@);
    if !v3 {
        put_int(w, "PaletteMax", palette.len() as i32);
    } else {
        put_compound(w, "Blocks");
    }
    let r = put_palette_compound(w, palette);
    if r.is_err() {
        return r;
    }
    let r = if v3 {
        put_data(w, "Data", data)
    } else {
        put_data(w, "BlockData", data)
    };
    if r.is_err() {
        return r;
    }
    put_list(w, "BlockEntities", TAG_COMPOUND, 0);
    if v3 {
        put_end(w);
    }
    assert(pv.len() == palette@.len());
    assert(w@ =~= old(w)@ + sponge_blocks(v3, pv, data@));
    Ok(())
}

fn put_sponge_tail(w: &mut NbtWriter, v3: bool)
    ensures
        final(w)@ == old(w)@ + sponge_tail(v3),
{
    proof {
        lemma_sponge_names_fit();
    }
    put_list(w, "Entities", TAG_COMPOUND, 0);
    put_end(w);
    if v3 {
        put_end(w);
    }
    assert(w@ =~= old(w)@ + sponge_tail(v3));
}

/// Encode `grid` as uncompressed Sponge NBT of `version` (2, or 3 and up).
pub fn encode_nbt(grid: &BlockGrid, meta: &Metadata, target: &Target, version: i32) -> (res: Result<
    Vec<u8>,
    FormatError,
>)
    requires
        encodable(*grid),
    ensures
        grid.coords@.len() == 0 ==> res == Err::<Vec<u8>, FormatError>(FormatError::Empty),
        grid.coords@.len() > 0 && !sides_fit(*grid) ==> res == Err::<Vec<u8>, FormatError>(
            FormatError::SideTooLong,
        ),
        grid.coords@.len() > 0 && sides_fit(*grid) && !strings_fit(*grid, *meta) ==> res == Err::<
            Vec<u8>,
            FormatError,
        >(FormatError::Nbt(NbtError::StringTooLong)),
        grid.coords@.len() > 0 && sides_fit(*grid) && strings_fit(*grid, *meta) && !data_fits(*grid)
            ==> res == Err::<Vec<u8>, FormatError>(FormatError::TooLarge),
        res is Ok <==> grid.coords@.len() > 0 && sides_fit(*grid) && strings_fit(*grid, *meta)
            && data_fits(*grid),
        res matches Ok(v) ==> v@ == sponge_nbt(*grid, *meta, *target, version),
{
    if grid.is_empty() {
        return Err(FormatError::Empty);
    }
    if grid.size[0] > 0xffff || grid.size[1] > 0xffff || grid.size[2] > 0xffff {
        return Err(FormatError::SideTooLong);
    }
    let ghost nv = views(grid.names@);
    let (palette, slots) = file_palette_of(&grid.names);
    let ghost pal = file_palette(nv);
    assert(str_views(palette@) == pal);
    assert(palette@.len() <= grid.names@.len() + 1) by {
        assert(str_views(palette@).len() == palette@.len());
        crate::formats::lemma_file_palette_len(nv);
    }
    let data = block_data_of(grid, &slots);
    let v3 = version >= 3;
    let mut w = NbtWriter::new(Vec::new());
    put_sponge_head(&mut w, v3, version, target);
    assert(w@ =~= sponge_head(v3, version, *target));
    let r = put_sponge_metadata(&mut w, meta, v3);
    if r.is_err() {
        return Err(FormatError::Nbt(NbtError::StringTooLong));
    }
    put_sizes(&mut w, grid);
    let r = put_sponge_blocks(&mut w, v3, &palette, &data);
    proof {
        assert(pal.len() == palette@.len());
        if forall|k: int| 0 <= k < palette@.len() ==> string_fits(#[trigger] palette@[k]@) {
            assert forall|k: int| 0 <= k < pal.len() implies string_fits(#[trigger] pal[k]) by {
                assert(pal[k] == palette@[k]@);
            }
        }
        if forall|k: int| 0 <= k < pal.len() ==> string_fits(#[trigger] pal[k]) {
            assert forall|k: int| 0 <= k < palette@.len() implies string_fits(
                #[trigger] palette@[k]@,
            ) by {
                assert(pal[k] == palette@[k]@);
            }
        }
    }
    if r.is_err() {
        return Err(r.unwrap_err());
    }
    put_sponge_tail(&mut w, v3);
    Ok(w.into_inner())
}

/// Encode `grid` as a gzip-compressed Sponge schematic of `version`.
pub fn encode(grid: &BlockGrid, meta: &Metadata, target: &Target, version: i32) -> (res: Result<
    Vec<u8>,
    FormatError,
>)
    requires
        encodable(*grid),
    ensures
        grid.coords@.len() == 0 ==> res == Err::<Vec<u8>, FormatError>(FormatError::Empty),
        grid.coords@.len() > 0 && !sides_fit(*grid) ==> res == Err::<Vec<u8>, FormatError>(
            FormatError::SideTooLong,
        ),
        grid.coords@.len() > 0 && sides_fit(*grid) && !strings_fit(*grid, *meta) ==> res == Err::<
            Vec<u8>,
            FormatError,
        >(FormatError::Nbt(NbtError::StringTooLong)),
        grid.coords@.len() > 0 && sides_fit(*grid) && strings_fit(*grid, *meta) && !data_fits(*grid)
            ==> res == Err::<Vec<u8>, FormatError>(FormatError::TooLarge),
        grid.coords@.len() > 0 && sides_fit(*grid) && strings_fit(*grid, *meta) && data_fits(*grid)
            ==> res is Ok,
        res matches Ok(v) ==> v@ == gzip_of(sponge_nbt(*grid, *meta, *target, version)),
{
    let doc = encode_nbt(grid, meta, target, version)?;
    compress(doc)
}

// ── Reading a Sponge schematic back ──────────────────────────────────────

/// The `Palette` compound's fields: each block ID naming its index.
pub open spec fn palette_fields(pal: Seq<Seq<char>>) -> Seq<(Seq<char>, TagV)> {
    Seq::new(pal.len(), |k: int| (pal[k], TagV::Int(k as i32)))
}

/// The `Metadata` compound's fields.
pub open spec fn sponge_meta_fields(m: Metadata, v3: bool) -> Seq<(Seq<char>, TagV)> {
    let base = seq![
        ("Name"@, TagV::Str(m.name@)),
        ("Author"@, TagV::Str(m.author@)),
        ("Date"@, TagV::Long(m.time_ms)),
    ];
    if v3 {
        base.push(("RequiredMods"@, TagV::List(seq![])))
    } else {
        base
    }
}

/// The sides and the offset, as fields.
pub open spec fn size_fields(g: BlockGrid) -> Seq<(Seq<char>, TagV)> {
    seq![
        ("Width"@, TagV::Short(g.size[0] as u16 as i16)),
        ("Height"@, TagV::Short(g.size[1] as u16 as i16)),
        ("Length"@, TagV::Short(g.size[2] as u16 as i16)),
        ("Offset"@, TagV::IntArray(seq![0i32, 0, 0])),
    ]
}

/// The fields of the schematic compound: the root in version 2, the
/// `Schematic` compound under the root in version 3.
pub open spec fn schematic_fields(g: BlockGrid, m: Metadata, t: Target, version: i32) -> Seq<
    (Seq<char>, TagV),
> {
    let v3 = version >= 3;
    let pal = file_palette(views(g.names@));
    let data = block_data(g, g.volume_spec());
    let head = seq![
        ("Version"@, TagV::Int(version)),
        ("DataVersion"@, TagV::Int(t.data_version)),
        ("Metadata"@, TagV::Compound(sponge_meta_fields(m, v3))),
    ] + size_fields(g);
    if v3 {
        head + seq![
            (
                "Blocks"@,
                TagV::Compound(
                    seq![
                        ("Palette"@, TagV::Compound(palette_fields(pal))),
                        ("Data"@, TagV::ByteArray(data)),
                        ("BlockEntities"@, TagV::List(seq![])),
                    ],
                ),
            ),
            ("Entities"@, TagV::List(seq![])),
        ]
    } else {
        head + seq![
            ("PaletteMax"@, TagV::Int(pal.len() as i32)),
            ("Palette"@, TagV::Compound(palette_fields(pal))),
            ("BlockData"@, TagV::ByteArray(data)),
            ("BlockEntities"@, TagV::List(seq![])),
            ("Entities"@, TagV::List(seq![])),
        ]
    }
}

proof fn lemma_sponge_literals_fit()
    ensures
        string_fits(""@),
        string_fits("Schematic"@),
        string_fits("Version"@),
        string_fits("DataVersion"@),
        string_fits("Metadata"@),
        string_fits("Name"@),
        string_fits("Author"@),
        string_fits("Date"@),
        string_fits("RequiredMods"@),
        string_fits("Width"@),
        string_fits("Height"@),
        string_fits("Length"@),
        string_fits("Offset"@),
        string_fits("Blocks"@),
        string_fits("Palette"@),
        string_fits("Data"@),
        string_fits("BlockData"@),
        string_fits("PaletteMax"@),
        string_fits("BlockEntities"@),
        string_fits("Entities"@),
{
    reveal_strlit("");
    reveal_strlit("Schematic");
    reveal_strlit("Version");
    reveal_strlit("DataVersion");
    reveal_strlit("Metadata");
    reveal_strlit("Name");
    reveal_strlit("Author");
    reveal_strlit("Date");
    reveal_strlit("RequiredMods");
    reveal_strlit("Width");
    reveal_strlit("Height");
    reveal_strlit("Length");
    reveal_strlit("Offset");
    reveal_strlit("Blocks");
    reveal_strlit("Palette");
    reveal_strlit("Data");
    reveal_strlit("BlockData");
    reveal_strlit("PaletteMax");
    reveal_strlit("BlockEntities");
    reveal_strlit("Entities");
    lemma_short_string_fits(""@);
    lemma_short_string_fits("Schematic"@);
    lemma_short_string_fits("Version"@);
    lemma_short_string_fits("DataVersion"@);
    lemma_short_string_fits("Metadata"@);
    lemma_short_string_fits("Name"@);
    lemma_short_string_fits("Author"@);
    lemma_short_string_fits("Date"@);
    lemma_short_string_fits("RequiredMods"@);
    lemma_short_string_fits("Width"@);
    lemma_short_string_fits("Height"@);
    lemma_short_string_fits("Length"@);
    lemma_short_string_fits("Offset"@);
    lemma_short_string_fits("Blocks"@);
    lemma_short_string_fits("Palette"@);
    lemma_short_string_fits("Data"@);
    lemma_short_string_fits("BlockData"@);
    lemma_short_string_fits("PaletteMax"@);
    lemma_short_string_fits("BlockEntities"@);
    lemma_short_string_fits("Entities"@);
}

proof fn lemma_palette_ints_read(pal: Seq<Seq<char>>, n: int, d: int)
    requires
        0 <= d <= 500,
        0 <= n <= pal.len(),
        forall|k: int| 0 <= k < pal.len() ==> string_fits(#[trigger] pal[k]),
    ensures
        palette_ints(pal, n) == fields_bytes(palette_fields(pal).take(n)),
        fields_writable(palette_fields(pal).take(n), d),
    decreases n,
{
    let f = palette_fields(pal);
    if n == 0 {
        assert(f.take(0) =~= Seq::<(Seq<char>, TagV)>::empty());
        assert(fields_bytes(f.take(0)) == Seq::<u8>::empty());
    } else {
        lemma_palette_ints_read(pal, n - 1, d);
        assert(f.take(n - 1).push(f[n - 1]) =~= f.take(n));
        lemma_fields_bytes_push(f.take(n - 1), f[n - 1]);
        lemma_fields_writable_push(f.take(n - 1), f[n - 1], d);
        lemma_writer_tags_are_named_payloads(pal[n - 1], 0, (n - 1) as i32, 0, seq![], seq![], seq![], seq![]);
    }
}

/// The palette compound as a field.
proof fn lemma_palette_compound_reads(pal: Seq<Seq<char>>, d: int)
    requires
        0 <= d <= 400,
        forall|k: int| 0 <= k < pal.len() ==> string_fits(#[trigger] pal[k]),
    ensures
        palette_compound(pal) == field_bytes(("Palette"@, TagV::Compound(palette_fields(pal)))),
        writable(TagV::Compound(palette_fields(pal)), d),
{
    lemma_palette_ints_read(pal, pal.len() as int, d + 1);
    assert(palette_fields(pal).take(pal.len() as int) =~= palette_fields(pal));
    lemma_writer_tags_are_named_payloads("Palette"@, 0, 0, 0, seq![], seq![], seq![], seq![]);
    assert(palette_compound(pal) =~= field_bytes(("Palette"@, TagV::Compound(palette_fields(pal)))));
}

/// The metadata compound as a field.
#[verifier::rlimit(40)]
proof fn lemma_sponge_metadata_reads(m: Metadata, v3: bool, d: int)
    requires
        0 <= d <= 400,
        string_fits(m.name@),
        string_fits(m.author@),
    ensures
        sponge_metadata(m, v3) == field_bytes(("Metadata"@, TagV::Compound(sponge_meta_fields(m, v3)))),
        writable(TagV::Compound(sponge_meta_fields(m, v3)), d),
{
    lemma_sponge_literals_fit();
    let f = sponge_meta_fields(m, v3);
    lemma_writer_tags_are_named_payloads("Name"@, 0, 0, 0, m.name@, seq![], seq![], seq![]);
    lemma_writer_tags_are_named_payloads("Author"@, 0, 0, 0, m.author@, seq![], seq![], seq![]);
    lemma_writer_tags_are_named_payloads("Date"@, 0, 0, m.time_ms, seq![], seq![], seq![], seq![]);
    lemma_writer_tags_are_named_payloads("Metadata"@, 0, 0, 0, seq![], seq![], seq![], seq![]);
    lemma_empty_list_reads("RequiredMods"@, d + 1);
    let rm = list_start("RequiredMods"@, TAG_STRING, 0);
    assert(rm =~= list_start("RequiredMods"@, TAG_COMPOUND, 0));
    assert(f.take(0) =~= Seq::<(Seq<char>, TagV)>::empty());
    assert(fields_bytes(f.take(0)) == Seq::<u8>::empty());
    lemma_fields_bytes_take(f, 1);
    lemma_fields_bytes_take(f, 2);
    lemma_fields_bytes_take(f, 3);
    let body = string_tag("Name"@, m.name@) + string_tag("Author"@, m.author@) + long_tag(
        "Date"@,
        m.time_ms,
    );
    if v3 {
        lemma_fields_bytes_take(f, 4);
        assert(f.take(4) =~= f);
        assert(fields_bytes(f) =~= body + rm);
        assert(sponge_metadata(m, v3) =~= compound_start("Metadata"@) + (body + rm) + end_tag());
    } else {
        assert(f.take(3) =~= f);
        assert(fields_bytes(f) =~= body);
        assert(sponge_metadata(m, v3) =~= compound_start("Metadata"@) + body + end_tag());
    }
    lemma_all_fields_writable(f, d + 1);
}

/// The sides and the offset as fields.
proof fn lemma_sizes_read(g: BlockGrid, d: int)
    requires
        0 <= d <= 400,
    ensures
        sponge_sizes(g) == fields_bytes(size_fields(g)),
        forall|k: int| 0 <= k < 4 ==> string_fits((#[trigger] size_fields(g)[k]).0) && writable(
            size_fields(g)[k].1,
            d,
        ),
{
    lemma_sponge_literals_fit();
    let f = size_fields(g);
    lemma_writer_tags_are_named_payloads("Width"@, g.size[0] as u16 as i16, 0, 0, seq![], seq![], seq![], seq![]);
    lemma_writer_tags_are_named_payloads("Height"@, g.size[1] as u16 as i16, 0, 0, seq![], seq![], seq![], seq![]);
    lemma_writer_tags_are_named_payloads("Length"@, g.size[2] as u16 as i16, 0, 0, seq![], seq![], seq![], seq![]);
    lemma_writer_tags_are_named_payloads("Offset"@, 0, 0, 0, seq![], seq![], seq![0i32, 0, 0], seq![]);
    assert(f.take(0) =~= Seq::<(Seq<char>, TagV)>::empty());
    assert(fields_bytes(f.take(0)) == Seq::<u8>::empty());
    lemma_fields_bytes_take(f, 1);
    lemma_fields_bytes_take(f, 2);
    lemma_fields_bytes_take(f, 3);
    lemma_fields_bytes_take(f, 4);
    assert(f.take(4) =~= f);
    assert(fields_bytes(f) =~= sponge_sizes(g));
}

/// The schematic's fields, laid down one by one.
#[verifier::rlimit(100)]
#[verifier::spinoff_prover]
proof fn lemma_field_parts(g: BlockGrid, m: Metadata, t: Target, version: i32, d: int)
    requires
        1 <= d <= 2,
        encodable(g),
        strings_fit(g, m),
        data_fits(g),
    ensures
        ({
            let f = schematic_fields(g, m, t, version);
            let v3 = version >= 3;
            let pal = file_palette(views(g.names@));
            let data = block_data(g, g.volume_spec());
            &&& field_bytes(f[0]) == int_tag("Version"@, version)
            &&& field_bytes(f[1]) == int_tag("DataVersion"@, t.data_version)
            &&& field_bytes(f[2]) == sponge_metadata(m, v3)
            &&& field_bytes(f[3]) == short_tag("Width"@, g.size[0] as u16 as i16)
            &&& field_bytes(f[4]) == short_tag("Height"@, g.size[1] as u16 as i16)
            &&& field_bytes(f[5]) == short_tag("Length"@, g.size[2] as u16 as i16)
            &&& field_bytes(f[6]) == int_array_tag("Offset"@, seq![0i32, 0, 0])
            &&& v3 ==> f.len() == 9 && field_bytes(f[7]) == compound_start("Blocks"@)
                + palette_compound(pal) + byte_array_tag("Data"@, data) + list_start(
                "BlockEntities"@,
                TAG_COMPOUND,
                0,
            ) + end_tag() && field_bytes(f[8]) == list_start("Entities"@, TAG_COMPOUND, 0)
            &&& !v3 ==> f.len() == 12 && field_bytes(f[7]) == int_tag("PaletteMax"@, pal.len() as i32)
                && field_bytes(f[8]) == palette_compound(pal) && field_bytes(f[9]) == byte_array_tag(
                "BlockData"@,
                data,
            ) && field_bytes(f[10]) == list_start("BlockEntities"@, TAG_COMPOUND, 0)
                && field_bytes(f[11]) == list_start("Entities"@, TAG_COMPOUND, 0)
            &&& forall|k: int| 0 <= k < f.len() ==> string_fits((#[trigger] f[k]).0) && writable(f[k].1, d)
        }),
{
    lemma_sponge_literals_fit();
    let f = schematic_fields(g, m, t, version);
    let v3 = version >= 3;
    let pal = file_palette(views(g.names@));
    let data = block_data(g, g.volume_spec());
    lemma_writer_tags_are_named_payloads("Version"@, 0, version, 0, seq![], seq![], seq![], seq![]);
    lemma_writer_tags_are_named_payloads("DataVersion"@, 0, t.data_version, 0, seq![], seq![], seq![], seq![]);
    lemma_sponge_metadata_reads(m, v3, d);
    lemma_writer_tags_are_named_payloads("Width"@, g.size[0] as u16 as i16, 0, 0, seq![], seq![], seq![], seq![]);
    lemma_writer_tags_are_named_payloads("Height"@, g.size[1] as u16 as i16, 0, 0, seq![], seq![], seq![], seq![]);
    lemma_writer_tags_are_named_payloads("Length"@, g.size[2] as u16 as i16, 0, 0, seq![], seq![], seq![], seq![]);
    lemma_writer_tags_are_named_payloads("Offset"@, 0, 0, 0, seq![], seq![], seq![0i32, 0, 0], seq![]);
    lemma_writer_tags_are_named_payloads("Data"@, 0, 0, 0, seq![], data, seq![], seq![]);
    lemma_writer_tags_are_named_payloads("BlockData"@, 0, 0, 0, seq![], data, seq![], seq![]);
    crate::formats::lemma_file_palette_len(views(g.names@));
    lemma_writer_tags_are_named_payloads("PaletteMax"@, 0, pal.len() as i32, 0, seq![], seq![], seq![], seq![]);
    lemma_palette_compound_reads(pal, d);
    lemma_palette_compound_reads(pal, d + 1);
    lemma_empty_list_reads("BlockEntities"@, d);
    lemma_empty_list_reads("BlockEntities"@, d + 1);
    lemma_empty_list_reads("Entities"@, d);
    if v3 {
        let bf = seq![
            ("Palette"@, TagV::Compound(palette_fields(pal))),
            ("Data"@, TagV::ByteArray(data)),
            ("BlockEntities"@, TagV::List(seq![])),
        ];
        assert(f[7] == ("Blocks"@, TagV::Compound(bf)));
        assert(bf.take(0) =~= Seq::<(Seq<char>, TagV)>::empty());
        assert(fields_bytes(bf.take(0)) == Seq::<u8>::empty());
        lemma_fields_bytes_take(bf, 1);
        lemma_fields_bytes_take(bf, 2);
        lemma_fields_bytes_take(bf, 3);
        assert(bf.take(3) =~= bf);
        lemma_writer_tags_are_named_payloads("Blocks"@, 0, 0, 0, seq![], seq![], seq![], seq![]);
        assert(field_bytes(f[7]) =~= compound_start("Blocks"@) + palette_compound(pal)
            + byte_array_tag("Data"@, data) + list_start("BlockEntities"@, TAG_COMPOUND, 0)
            + end_tag());
        lemma_all_fields_writable(bf, d + 1);
    }
    assert forall|k: int| 0 <= k < f.len() implies string_fits((#[trigger] f[k]).0) && writable(
        f[k].1,
        d,
    ) by {
        if v3 {
            if k == 7 {
                assert(writable(f[7].1, d));
            }
        }
    }
}

/// The bytes of a list of nine fields, field by field.
proof fn lemma_nine_fields(
    f: Seq<(Seq<char>, TagV)>,
    p0: Seq<u8>,
    p1: Seq<u8>,
    p2: Seq<u8>,
    p3: Seq<u8>,
    p4: Seq<u8>,
    p5: Seq<u8>,
    p6: Seq<u8>,
    p7: Seq<u8>,
    p8: Seq<u8>,
)
    requires
        f.len() == 9,
        field_bytes(f[0]) == p0,
        field_bytes(f[1]) == p1,
        field_bytes(f[2]) == p2,
        field_bytes(f[3]) == p3,
        field_bytes(f[4]) == p4,
        field_bytes(f[5]) == p5,
        field_bytes(f[6]) == p6,
        field_bytes(f[7]) == p7,
        field_bytes(f[8]) == p8,
    ensures
        fields_bytes(f) == Seq::<u8>::empty() + p0 + p1 + p2 + p3 + p4 + p5 + p6 + p7 + p8,
{
    assert(f.take(0) =~= Seq::<(Seq<char>, TagV)>::empty());
    assert(fields_bytes(f.take(0)) == Seq::<u8>::empty());
    lemma_fields_bytes_take(f, 1);
    lemma_fields_bytes_take(f, 2);
    lemma_fields_bytes_take(f, 3);
    lemma_fields_bytes_take(f, 4);
    lemma_fields_bytes_take(f, 5);
    lemma_fields_bytes_take(f, 6);
    lemma_fields_bytes_take(f, 7);
    lemma_fields_bytes_take(f, 8);
    lemma_fields_bytes_take(f, 9);
    assert(f.take(9) =~= f);
}

/// The bytes of a list of twelve fields: its first nine, then the rest.
proof fn lemma_twelve_fields(
    f: Seq<(Seq<char>, TagV)>,
    first: Seq<u8>,
    p9: Seq<u8>,
    p10: Seq<u8>,
    p11: Seq<u8>,
)
    requires
        f.len() == 12,
        fields_bytes(f.take(9)) == first,
        field_bytes(f[9]) == p9,
        field_bytes(f[10]) == p10,
        field_bytes(f[11]) == p11,
    ensures
        fields_bytes(f) == first + p9 + p10 + p11,
{
    lemma_fields_bytes_take(f, 10);
    lemma_fields_bytes_take(f, 11);
    lemma_fields_bytes_take(f, 12);
    assert(f.take(12) =~= f);
}

proof fn lemma_regroup_v2(
    h: Seq<u8>,
    p0: Seq<u8>,
    p1: Seq<u8>,
    p2: Seq<u8>,
    p3: Seq<u8>,
    p4: Seq<u8>,
    p5: Seq<u8>,
    p6: Seq<u8>,
    p7: Seq<u8>,
    p8: Seq<u8>,
    p9: Seq<u8>,
    p10: Seq<u8>,
    p11: Seq<u8>,
    e: Seq<u8>,
)
    ensures
        h + p0 + p1 + p2 + (p3 + p4 + p5 + p6) + (p7 + p8 + p9 + p10) + (p11 + e) == h + ((
        Seq::<u8>::empty() + p0 + p1 + p2 + p3 + p4 + p5 + p6 + p7 + p8) + p9 + p10 + p11 + e),
{
    assert(h + p0 + p1 + p2 + (p3 + p4 + p5 + p6) + (p7 + p8 + p9 + p10) + (p11 + e) =~= h + ((
    Seq::<u8>::empty() + p0 + p1 + p2 + p3 + p4 + p5 + p6 + p7 + p8) + p9 + p10 + p11 + e));
}

proof fn lemma_regroup_v3(
    h: Seq<u8>,
    s: Seq<u8>,
    p0: Seq<u8>,
    p1: Seq<u8>,
    p2: Seq<u8>,
    p3: Seq<u8>,
    p4: Seq<u8>,
    p5: Seq<u8>,
    p6: Seq<u8>,
    p7: Seq<u8>,
    p8: Seq<u8>,
    e: Seq<u8>,
)
    ensures
        h + s + p0 + p1 + p2 + (p3 + p4 + p5 + p6) + p7 + (p8 + e + e) == h + ((s + ((
        Seq::<u8>::empty() + p0 + p1 + p2 + p3 + p4 + p5 + p6 + p7 + p8) + e)) + e),
{
    assert(h + s + p0 + p1 + p2 + (p3 + p4 + p5 + p6) + p7 + (p8 + e + e) =~= h + ((s + ((
    Seq::<u8>::empty() + p0 + p1 + p2 + p3 + p4 + p5 + p6 + p7 + p8) + e)) + e));
}

#[verifier::rlimit(50)]
#[verifier::spinoff_prover]
proof fn lemma_sponge_document_v2(g: BlockGrid, m: Metadata, t: Target, version: i32)
    requires
        version < 3,
        encodable(g),
        strings_fit(g, m),
        data_fits(g),
    ensures
        sponge_nbt(g, m, t, version) == document_bytes("Schematic"@, schematic_fields(g, m, t, version)),
        fields_writable(schematic_fields(g, m, t, version), 1),
{
    lemma_field_parts(g, m, t, version, 1);
    let f = schematic_fields(g, m, t, version);
    let pal = file_palette(views(g.names@));
    let data = block_data(g, g.volume_spec());
    let p0 = int_tag("Version"@, version);
    let p1 = int_tag("DataVersion"@, t.data_version);
    let p2 = sponge_metadata(m, false);
    let p3 = short_tag("Width"@, g.size[0] as u16 as i16);
    let p4 = short_tag("Height"@, g.size[1] as u16 as i16);
    let p5 = short_tag("Length"@, g.size[2] as u16 as i16);
    let p6 = int_array_tag("Offset"@, seq![0i32, 0, 0]);
    let p7 = int_tag("PaletteMax"@, pal.len() as i32);
    let p8 = palette_compound(pal);
    let p9 = byte_array_tag("BlockData"@, data);
    let p10 = list_start("BlockEntities"@, TAG_COMPOUND, 0);
    let p11 = list_start("Entities"@, TAG_COMPOUND, 0);
    let f9 = f.take(9);
    assert(f9.len() == 9);
    assert forall|k: int| 0 <= k < 9 implies #[trigger] f9[k] == f[k] by {}
    lemma_nine_fields(f9, p0, p1, p2, p3, p4, p5, p6, p7, p8);
    let first = Seq::<u8>::empty() + p0 + p1 + p2 + p3 + p4 + p5 + p6 + p7 + p8;
    lemma_twelve_fields(f, first, p9, p10, p11);
    lemma_writer_tags_are_named_payloads("Schematic"@, 0, 0, 0, seq![], seq![], seq![], seq![]);
    let h = compound_start("Schematic"@);
    lemma_regroup_v2(h, p0, p1, p2, p3, p4, p5, p6, p7, p8, p9, p10, p11, end_tag());
    assert(sponge_nbt(g, m, t, version) == h + p0 + p1 + p2 + (p3 + p4 + p5 + p6) + (p7 + p8 + p9
        + p10) + (p11 + end_tag()));
    lemma_all_fields_writable(f, 1);
}

#[verifier::rlimit(50)]
#[verifier::spinoff_prover]
proof fn lemma_sponge_document_v3(g: BlockGrid, m: Metadata, t: Target, version: i32)
    requires
        version >= 3,
        encodable(g),
        strings_fit(g, m),
        data_fits(g),
    ensures
        sponge_nbt(g, m, t, version) == document_bytes(
            ""@,
            seq![("Schematic"@, TagV::Compound(schematic_fields(g, m, t, version)))],
        ),
        fields_writable(
            seq![("Schematic"@, TagV::Compound(schematic_fields(g, m, t, version)))],
            1,
        ),
{
    lemma_sponge_literals_fit();
    lemma_field_parts(g, m, t, version, 2);
    let f = schematic_fields(g, m, t, version);
    let pal = file_palette(views(g.names@));
    let data = block_data(g, g.volume_spec());
    let p0 = int_tag("Version"@, version);
    let p1 = int_tag("DataVersion"@, t.data_version);
    let p2 = sponge_metadata(m, true);
    let p3 = short_tag("Width"@, g.size[0] as u16 as i16);
    let p4 = short_tag("Height"@, g.size[1] as u16 as i16);
    let p5 = short_tag("Length"@, g.size[2] as u16 as i16);
    let p6 = int_array_tag("Offset"@, seq![0i32, 0, 0]);
    let p7 = compound_start("Blocks"@) + palette_compound(pal) + byte_array_tag("Data"@, data)
        + list_start("BlockEntities"@, TAG_COMPOUND, 0) + end_tag();
    let p8 = list_start("Entities"@, TAG_COMPOUND, 0);
    lemma_nine_fields(f, p0, p1, p2, p3, p4, p5, p6, p7, p8);
    lemma_writer_tags_are_named_payloads("Schematic"@, 0, 0, 0, seq![], seq![], seq![], seq![]);
    lemma_writer_tags_are_named_payloads(""@, 0, 0, 0, seq![], seq![], seq![], seq![]);
    let sf = seq![("Schematic"@, TagV::Compound(f))];
    crate::litematic::lemma_fields_bytes_list(sf);
    assert(sf.drop_last() =~= Seq::<(Seq<char>, TagV)>::empty());
    crate::litematic::lemma_fields_bytes_list(sf.drop_last());
    assert(fields_bytes(sf) == Seq::<u8>::empty() + field_bytes(sf[0]));
    assert(Seq::<u8>::empty() + field_bytes(sf[0]) =~= field_bytes(sf[0]));
    let h = compound_start(""@);
    let sc = compound_start("Schematic"@);
    lemma_regroup_v3(h, sc, p0, p1, p2, p3, p4, p5, p6, p7, p8, end_tag());
    assert(sponge_nbt(g, m, t, version) == h + sc + p0 + p1 + p2 + (p3 + p4 + p5 + p6) + p7 + (p8
        + end_tag() + end_tag()));
    lemma_all_fields_writable(f, 2);
    lemma_all_fields_writable(sf, 1);
}

/// Where the sides sit among the schematic's fields.
proof fn lemma_schematic_sides(g: BlockGrid, m: Metadata, t: Target, version: i32)
    ensures
        ({
            let c = TagV::Compound(schematic_fields(g, m, t, version));
            &&& get_spec(c, "Width"@) == Some(TagV::Short(g.size[0] as u16 as i16))
            &&& get_spec(c, "Height"@) == Some(TagV::Short(g.size[1] as u16 as i16))
            &&& get_spec(c, "Length"@) == Some(TagV::Short(g.size[2] as u16 as i16))
        }),
{
    let f = schematic_fields(g, m, t, version);
    reveal_strlit("Version");
    reveal_strlit("DataVersion");
    reveal_strlit("Metadata");
    reveal_strlit("Width");
    reveal_strlit("Height");
    reveal_strlit("Length");
    assert(f[3].0 == "Width"@ && f[4].0 == "Height"@ && f[5].0 == "Length"@);
    assert forall|j: int| 0 <= j < 3 implies (#[trigger] f[j]).0 != "Width"@ by {
        assert(f[j].0.len() != "Width"@.len());
    }
    assert forall|j: int| 0 <= j < 4 implies (#[trigger] f[j]).0 != "Height"@ by {
        if j == 1 || j == 3 {
            assert(f[j].0[0] != "Height"@[0]);
        } else {
            assert(f[j].0.len() != "Height"@.len());
        }
    }
    assert forall|j: int| 0 <= j < 5 implies (#[trigger] f[j]).0 != "Length"@ by {
        if j == 1 || j == 3 || j == 4 {
            assert(f[j].0[0] != "Length"@[0]);
        } else {
            assert(f[j].0.len() != "Length"@.len());
        }
    }
    lemma_field_index_first(f, "Width"@, 3);
    lemma_field_index_first(f, "Height"@, 4);
    lemma_field_index_first(f, "Length"@, 5);
}

/// The sides a Sponge schematic states are the grid's: its `Width`,
/// `Height` and `Length` read back as the grid's sides along x, y and z,
/// each as an unsigned short; at the root in version 2, under `Schematic`
/// in version 3 and up.
pub proof fn lemma_sponge_sides(g: BlockGrid, m: Metadata, t: Target, version: i32, doc: Seq<u8>)
    requires
        encodable(g),
        sides_fit(g),
        strings_fit(g, m),
        data_fits(g),
        doc == sponge_nbt(g, m, t, version),
    ensures
        document(doc) matches Ok(r) && ({
            let c = if version >= 3 {
                get_spec(r.1, "Schematic"@)
            } else {
                Some(r.1)
            };
            c matches Some(c) && {
                &&& get_spec(c, "Width"@) == Some(TagV::Short(g.size[0] as u16 as i16))
                &&& get_spec(c, "Height"@) == Some(TagV::Short(g.size[1] as u16 as i16))
                &&& get_spec(c, "Length"@) == Some(TagV::Short(g.size[2] as u16 as i16))
            }
        }),
{
    lemma_sponge_literals_fit();
    lemma_schematic_sides(g, m, t, version);
    let f = schematic_fields(g, m, t, version);
    if version >= 3 {
        lemma_sponge_document_v3(g, m, t, version);
        let sf = seq![("Schematic"@, TagV::Compound(f))];
        lemma_document_round_trip(""@, sf);
        lemma_field_index_first(sf, "Schematic"@, 0);
    } else {
        lemma_sponge_document_v2(g, m, t, version);
        lemma_document_round_trip("Schematic"@, f);
    }
}

} // verus!
