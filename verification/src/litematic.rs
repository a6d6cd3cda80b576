//! Litematica `.litematic`: gzip-compressed NBT with one region.
//!
//! `BlockStates` bit-packs palette indices as one continuous stream, a value
//! possibly straddling two longs: Litematica's `LitematicaBitArray`, not the
//! padded per-long packing of chunk sections.
use vstd::prelude::*;
use crate::grid::{lemma_extent_bound, str_views, views, BlockGrid};
use crate::formats::{
    clamp_i32, clamped, compress, count_placed, file_palette, file_palette_of, gzip_of,
    palette_slot, placed_count, put_compound, put_end, put_int, put_list, put_long, put_string,
    FormatError, Metadata,
};
use crate::nbt::{
    compound_start, end_tag, int_tag, lemma_short_string_fits, list_start, long_array_tag, long_tag,
    string_fits, string_tag, NbtError, NbtWriter, TAG_COMPOUND,
};
use crate::reader::TagV;
use crate::reader::{at_spec, document, get_spec, lemma_field_index_first};
use crate::roundtrip::{
    document_bytes, lemma_document_round_trip, field_bytes, fields_bytes, fields_writable, items_bytes, items_writable, lemma_fields_bytes_push,
    lemma_fields_writable_push, lemma_items_bytes_push, lemma_items_writable_push,
    lemma_writer_tags_are_named_payloads, longs_as_bits, payload_bytes, writable,
};
use crate::targets::Target;
use crate::text::{trim, trimmed};

verus! {

// ── The bit stream ───────────────────────────────────────────────────────

/// Cell order: x fastest, then z, then y.
pub open spec fn cell_index(size: [u32; 3], c: [i32; 3]) -> int {
    c[0] + c[2] * size[0] + c[1] * size[0] * size[2]
}

/// No coordinate below zero.
pub open spec fn nonneg_coords(coords: Seq<[i32; 3]>) -> bool {
    forall|i: int, a: int| 0 <= i < coords.len() && 0 <= a < 3 ==> #[trigger] coords[i][a] >= 0
}

/// Bit `k` of `v`.
pub open spec fn value_bit(v: u64, k: int) -> bool {
    0 <= k < 64 && (v >> (k as u64)) & 1u64 == 1u64
}

/// Bit `j` of a stream of words, least significant bit of word 0 first.
pub open spec fn stream_bit(words: Seq<u64>, j: int) -> bool {
    value_bit(words[j / 64], j % 64)
}

/// The low `bits` bits of `v` (for `1 <= bits <= 64`).
pub open spec fn low_bits(v: u64, bits: nat) -> u64 {
    v & (u64::MAX >> ((64 - bits) as u64))
}

/// Bit `j` of a stream set by a value of `bits` bits placed at `start`.
pub open spec fn slot_bit(start: int, bits: int, v: u64, j: int) -> bool {
    start <= j < start + bits && value_bit(v, j - start)
}

/// What block `i` of the grid stores: its file palette index, cut to `bits`.
pub open spec fn cell_value(g: BlockGrid, to_palette: Seq<u64>, bits: nat, i: int) -> u64 {
    low_bits(to_palette[g.blocks@[i] as int], bits)
}

/// Where block `i`'s value starts in the stream.
pub open spec fn cell_start(g: BlockGrid, bits: nat, i: int) -> int {
    cell_index(g.size, g.coords@[i]) * bits
}

/// Whether one of the first `n` blocks sets bit `j`.
pub open spec fn set_by_cells(g: BlockGrid, to_palette: Seq<u64>, bits: nat, n: int, j: int) -> bool
    decreases n,
{
    if n <= 0 {
        false
    } else {
        set_by_cells(g, to_palette, bits, n - 1, j) || slot_bit(
            cell_start(g, bits, n - 1),
            bits as int,
            cell_value(g, to_palette, bits, n - 1),
            j,
        )
    }
}

/// `words` is the packed stream of `g`: one `bits`-wide slot per cell of the
/// box, each block's value in its slot, every other bit clear.
pub open spec fn packs(g: BlockGrid, to_palette: Seq<u64>, bits: nat, words: Seq<u64>) -> bool {
    &&& words.len() == (g.volume_spec() * bits + 63) / 64
    &&& forall|j: int|
        0 <= j < 64 * words.len() ==> #[trigger] stream_bit(words, j) == set_by_cells(
            g,
            to_palette,
            bits,
            g.coords@.len() as int,
            j,
        )
}

/// The fewest bits from `b` on that hold `m`.
pub open spec fn bits_from(m: u64, b: nat) -> nat
    decreases 64 - b,
{
    if b >= 64 || (m >> (b as u64)) == 0 {
        b
    } else {
        bits_from(m, b + 1)
    }
}

/// Bits per palette index: enough for the largest index, and at least 2,
/// as Litematica requires.
pub open spec fn bits_needed(palette_len: nat) -> nat {
    bits_from(
        if palette_len < 2 {
            1u64
        } else {
            (palette_len - 1) as u64
        },
        2,
    )
}

proof fn lemma_bits_small(m: u64, b: nat)
    requires
        m < 65536,
        b <= 16,
    ensures
        b <= bits_from(m, b) <= 16,
    decreases 16 - b,
{
    assert(m >> 16u64 == 0) by (bit_vector)
        requires
            m < 65536,
    ;
    if (m >> (b as u64)) != 0 {
        lemma_bits_small(m, b + 1);
    }
}

/// Bits per palette index: at least 2, as Litematica requires.
pub fn bits_for(palette_len: usize) -> (res: usize)
    ensures
        res == bits_needed(palette_len as nat),
        2 <= res <= 64,
{
    let m: u64 = if palette_len < 2 {
        1
    } else {
        (palette_len - 1) as u64
    };
    let mut b: u64 = 2;
    while b < 64 && (m >> b) != 0
        invariant
            2 <= b <= 64,
            bits_from(m, b as nat) == bits_from(m, 2),
        decreases 64 - b,
    {
        b += 1;
    }
    b as usize
}

proof fn lemma_or_bit(x: u64, y: u64, k: u64)
    by (bit_vector)
    requires
        k < 64,
    ensures
        ((x | y) >> k) & 1u64 == 1u64 <==> ((x >> k) & 1u64 == 1u64 || (y >> k) & 1u64 == 1u64),
{
}

proof fn lemma_shl_bit(v: u64, b: u64, k: u64)
    by (bit_vector)
    requires
        b < 64,
        k < 64,
    ensures
        ((v << b) >> k) & 1u64 == 1u64 <==> (k >= b && (v >> ((k - b) as u64)) & 1u64 == 1u64),
{
}

proof fn lemma_shr_bit(v: u64, s: u64, k: u64)
    by (bit_vector)
    requires
        s < 64,
        k < 64,
    ensures
        ((v >> s) >> k) & 1u64 == 1u64 <==> (s + k < 64 && (v >> ((s + k) as u64)) & 1u64 == 1u64),
{
}

proof fn lemma_high_bit_clear(v: u64, bits: u64, k: u64)
    by (bit_vector)
    requires
        1 <= bits <= 64,
        bits <= k < 64,
        v == v & (u64::MAX >> ((64 - bits) as u64)),
    ensures
        (v >> k) & 1u64 == 0u64,
{
}

proof fn lemma_zero_bit(k: u64)
    by (bit_vector)
    requires
        k < 64,
    ensures
        (0u64 >> k) & 1u64 == 0u64,
{
}

proof fn lemma_low_bits_idem(v: u64, bits: u64)
    by (bit_vector)
    requires
        1 <= bits <= 64,
    ensures
        (v & (u64::MAX >> ((64 - bits) as u64))) == (v & (u64::MAX >> ((64 - bits) as u64))) & (
        u64::MAX >> ((64 - bits) as u64)),
{
}

/// OR-ing a value into its slot, over one word or two, sets exactly the
/// slot's bits of the value and keeps every other bit.
proof fn lemma_write_slot(
    before: Seq<u64>,
    after: Seq<u64>,
    word: int,
    bit: int,
    bits: int,
    v: u64,
)
    requires
        0 <= word,
        0 <= bit < 64,
        2 <= bits <= 16,
        64 * word + bit + bits <= 64 * before.len(),
        after.len() == before.len(),
        v == low_bits(v, bits as nat),
        after[word] == before[word] | (v << (bit as u64)),
        bit + bits > 64 ==> after[word + 1] == before[word + 1] | (v >> ((64 - bit) as u64)),
        forall|k: int|
            0 <= k < before.len() && k != word && !(bit + bits > 64 && k == word + 1) ==> #[trigger] after[k]
                == before[k],
    ensures
        forall|j: int|
            0 <= j < 64 * before.len() ==> #[trigger] stream_bit(after, j) == (stream_bit(before, j)
                || slot_bit(64 * word + bit, bits, v, j)),
{
    let start = 64 * word + bit;
    assert forall|j: int| 0 <= j < 64 * before.len() implies #[trigger] stream_bit(after, j) == (
    stream_bit(before, j) || slot_bit(start, bits, v, j)) by {
        let q = j / 64;
        let k = j % 64;
        assert(j == 64 * q + k);
        assert(0 <= q < before.len());
        if q == word {
            lemma_or_bit(before[q], v << (bit as u64), k as u64);
            lemma_shl_bit(v, bit as u64, k as u64);
            if k >= bit && k - bit >= bits {
                lemma_high_bit_clear(v, bits as u64, (k - bit) as u64);
            }
        } else if q == word + 1 && bit + bits > 64 {
            lemma_or_bit(before[q], v >> ((64 - bit) as u64), k as u64);
            lemma_shr_bit(v, (64 - bit) as u64, k as u64);
            if 64 - bit + k < 64 && 64 - bit + k >= bits {
                lemma_high_bit_clear(v, bits as u64, (64 - bit + k) as u64);
            }
        } else {
            assert(after[q] == before[q]);
        }
    }
}

proof fn lemma_cell_in_box(x: int, y: int, z: int, sx: int, sy: int, sz: int)
    by (nonlinear_arith)
    requires
        0 <= x < sx,
        0 <= y < sy,
        0 <= z < sz,
    ensures
        z * sx <= sx * sy * sz,
        y * sx <= sx * sy * sz,
        y * sx * sz <= sx * sy * sz,
        x + z * sx + y * sx * sz < sx * sy * sz,
{
    assert(z * sx <= (sz - 1) * sx);
    assert(y * sx * sz <= (sy - 1) * sx * sz);
    assert(sx * sy * sz == sx * sz * sy);
}

/// Cell index of block `i`, inside the box.
pub(crate) fn cell_index_of(grid: &BlockGrid, i: usize) -> (res: usize)
    requires
        encodable(*grid),
        i < grid.coords@.len(),
    ensures
        res == cell_index(grid.size, grid.coords@[i as int]),
        res < grid.volume_spec(),
{
    let c = grid.coords[i];
    proof {
        assert(grid.coords@[i as int][0] >= 0 && grid.coords@[i as int][1] >= 0
            && grid.coords@[i as int][2] >= 0);
        lemma_extent_bound(grid.coords@, i as int, 0);
        lemma_extent_bound(grid.coords@, i as int, 1);
        lemma_extent_bound(grid.coords@, i as int, 2);
    }
    let sx = grid.size[0] as usize;
    let sy = grid.size[1] as usize;
    let sz = grid.size[2] as usize;
    let x = c[0] as usize;
    let y = c[1] as usize;
    let z = c[2] as usize;
    proof {
        lemma_cell_in_box(x as int, y as int, z as int, sx as int, sy as int, sz as int);
        assert(sx * sy * sz <= sx * sy * sz * 16) by (nonlinear_arith)
            requires
                sx * sy * sz >= 0,
        ;
    }
    x + z * sx + y * sx * sz
}

/// Pack every block's file palette index into Litematica's continuous bit
/// stream, cells ordered x fastest, then z, then y.
pub fn pack_block_states(grid: &BlockGrid, to_palette: &Vec<u64>, palette_len: usize) -> (words: Vec<u64>)
    requires
        grid.wf(),
        nonneg_coords(grid.coords@),
        to_palette@.len() == grid.names@.len(),
        palette_len <= 65536,
        grid.volume_spec() * 16 <= usize::MAX,
    ensures
        packs(*grid, to_palette@, bits_needed(palette_len as nat), words@),
{
    let bits = bits_for(palette_len);
    proof {
        lemma_bits_small(
            if palette_len < 2 {
                1u64
            } else {
                (palette_len - 1) as u64
            },
            2,
        );
    }
    let ghost nbits: nat = bits as nat;
    let mask: u64 = u64::MAX >> (64 - bits as u64);
    let sx = grid.size[0] as usize;
    let sy = grid.size[1] as usize;
    let sz = grid.size[2] as usize;
    assert(grid.volume_spec() == sx * sy * sz);
    assert(sx * sy * sz * bits <= sx * sy * sz * 16) by (nonlinear_arith)
        requires
            bits <= 16,
            sx * sy * sz >= 0,
    ;
    let total = grid.volume() as usize;
    let stream_len = total * bits;
    let nwords = stream_len / 64 + if stream_len % 64 != 0 {
        1
    } else {
        0
    };
    assert(nwords == (stream_len + 63) / 64);
    let mut words: Vec<u64> = Vec::new();
    let mut n: usize = 0;
    while n < nwords
        invariant
            n <= nwords,
            words@.len() == n,
            forall|k: int| 0 <= k < n ==> #[trigger] words@[k] == 0,
        decreases nwords - n,
    {
        words.push(0);
        n += 1;
    }
    assert forall|j: int| 0 <= j < 64 * words@.len() implies #[trigger] stream_bit(words@, j)
        == set_by_cells(*grid, to_palette@, nbits, 0, j) by {
        lemma_zero_bit((j % 64) as u64);
    }
    let mut i: usize = 0;
    while i < grid.coords.len()
        invariant
            grid.wf(),
            nonneg_coords(grid.coords@),
            to_palette@.len() == grid.names@.len(),
            2 <= bits <= 16,
            nbits == bits,
            mask == u64::MAX >> ((64 - bits) as u64),
            sx == grid.size[0],
            sy == grid.size[1],
            sz == grid.size[2],
            total == sx * sy * sz,
            total * bits <= usize::MAX,
            nwords == (total * bits + 63) / 64,
            words@.len() == nwords,
            i <= grid.coords@.len(),
            forall|j: int|
                0 <= j < 64 * words@.len() ==> #[trigger] stream_bit(words@, j) == set_by_cells(
                    *grid,
                    to_palette@,
                    nbits,
                    i as int,
                    j,
                ),
        decreases grid.coords.len() - i,
    {
        let c = grid.coords[i];
        proof {
            assert(grid.coords@[i as int][0] >= 0 && grid.coords@[i as int][1] >= 0
                && grid.coords@[i as int][2] >= 0);
            lemma_extent_bound(grid.coords@, i as int, 0);
            lemma_extent_bound(grid.coords@, i as int, 1);
            lemma_extent_bound(grid.coords@, i as int, 2);
        }
        let x = c[0] as usize;
        let y = c[1] as usize;
        let z = c[2] as usize;
        proof {
            lemma_cell_in_box(x as int, y as int, z as int, sx as int, sy as int, sz as int);
        }
        let index = x + z * sx + y * sx * sz;
        assert(index * bits + bits <= total * bits) by (nonlinear_arith)
            requires
                index < total,
                bits >= 0,
        ;
        let b = grid.blocks[i] as usize;
        let value = to_palette[b] & mask;
        let start = index * bits;
        let word = start / 64;
        let bit = start % 64;
        let ghost before = words@;
        let old_word = words[word];
        words.set(word, old_word | (value << (bit as u64)));
        if bit + bits > 64 {
            let next = words[word + 1];
            words.set(word + 1, next | (value >> ((64 - bit) as u64)));
        }
        proof {
            lemma_low_bits_idem(to_palette@[b as int], bits as u64);
            lemma_write_slot(before, words@, word as int, bit as int, bits as int, value);
            assert(start == cell_start(*grid, nbits, i as int));
            assert(value == cell_value(*grid, to_palette@, nbits, i as int));
            assert forall|j: int| 0 <= j < 64 * words@.len() implies #[trigger] stream_bit(words@, j)
                == set_by_cells(*grid, to_palette@, nbits, i + 1, j) by {
                assert(stream_bit(before, j) == set_by_cells(*grid, to_palette@, nbits, i as int, j));
            }
        }
        i += 1;
    }
    words
}

// ── The document ─────────────────────────────────────────────────────────

/// Litematica's `SubVersion`, bumped with its sleeping-entity position fix.
pub const SUB_VERSION: i32 = 1;

/// A compound of three ints named `x`, `y`, `z`.
pub open spec fn xyz_compound(name: Seq<char>, x: i32, y: i32, z: i32) -> Seq<u8> {
    compound_start(name) + int_tag("x"@, x) + int_tag("y"@, y) + int_tag("z"@, z) + end_tag()
}

/// The elements of the palette list: one compound `{Name}` per block ID.
pub open spec fn palette_entries(pal: Seq<Seq<char>>) -> Seq<u8>
    decreases pal.len(),
{
    if pal.len() == 0 {
        seq![]
    } else {
        palette_entries(pal.drop_last()) + string_tag("Name"@, pal.last()) + end_tag()
    }
}

/// The region is named after the schematic, `main` when the name is blank.
pub open spec fn region_name_of(name: Seq<char>) -> Seq<char> {
    if trimmed(name).len() == 0 {
        "main"@
    } else {
        name
    }
}

/// Each grid palette entry's index in the file palette.
pub open spec fn palette_slots(names: Seq<Seq<char>>) -> Seq<u64> {
    Seq::new(names.len(), |k: int| palette_slot(names, k) as u64)
}

/// The `Metadata` compound's opening and its strings.
pub open spec fn metadata_head(m: Metadata) -> Seq<u8> {
    compound_start("Metadata"@) + string_tag("Name"@, m.name@) + string_tag("Author"@, m.author@)
        + string_tag("Description"@, m.description@)
}

/// The rest of the `Metadata` compound: times, size and counts.
pub open spec fn metadata_tail(g: BlockGrid, m: Metadata) -> Seq<u8> {
    long_tag("TimeCreated"@, m.time_ms) + long_tag("TimeModified"@, m.time_ms) + xyz_compound(
        "EnclosingSize"@,
        g.size[0] as i32,
        g.size[1] as i32,
        g.size[2] as i32,
    ) + int_tag("RegionCount"@, 1) + int_tag(
        "TotalBlocks"@,
        clamped(placed_count(views(g.names@), g.blocks@) as int),
    ) + int_tag("TotalVolume"@, clamped(g.volume_spec())) + end_tag()
}

/// The `Metadata` compound.
pub open spec fn metadata_part(g: BlockGrid, m: Metadata) -> Seq<u8> {
    metadata_head(m) + metadata_tail(g, m)
}

/// The root compound's opening and its version fields.
pub open spec fn litematic_head(t: Target) -> Seq<u8> {
    compound_start(""@) + int_tag("Version"@, t.schematic_version) + int_tag("SubVersion"@, 1)
        + int_tag("MinecraftDataVersion"@, t.data_version)
}

/// The opening of the `Regions` compound, up to the palette's entries.
pub open spec fn regions_open(g: BlockGrid, m: Metadata) -> Seq<u8> {
    let pal = file_palette(views(g.names@));
    compound_start("Regions"@) + compound_start(region_name_of(m.name@)) + xyz_compound(
        "Position"@,
        0,
        0,
        0,
    ) + xyz_compound("Size"@, g.size[0] as i32, g.size[1] as i32, g.size[2] as i32) + list_start(
        "BlockStatePalette"@,
        TAG_COMPOUND,
        pal.len(),
    ) + palette_entries(pal)
}

/// The rest of the `Regions` compound: block states and empty lists.
pub open spec fn regions_close(words: Seq<u64>) -> Seq<u8> {
    long_array_tag("BlockStates"@, words) + list_start("PendingBlockTicks"@, TAG_COMPOUND, 0)
        + list_start("PendingFluidTicks"@, TAG_COMPOUND, 0) + list_start(
        "TileEntities"@,
        TAG_COMPOUND,
        0,
    ) + list_start("Entities"@, TAG_COMPOUND, 0) + end_tag() + end_tag()
}

/// The `Regions` compound with its one region.
pub open spec fn regions_part(g: BlockGrid, m: Metadata, words: Seq<u64>) -> Seq<u8> {
    regions_open(g, m) + regions_close(words)
}

/// The uncompressed document for `g`, with `words` its packed block states.
pub open spec fn litematic_nbt(g: BlockGrid, m: Metadata, t: Target, words: Seq<u64>) -> Seq<u8> {
    litematic_head(t) + metadata_part(g, m) + regions_part(g, m, words) + end_tag()
}

/// Bits per cell for `g`: its file palette's width.
pub open spec fn grid_bits(g: BlockGrid) -> nat {
    bits_needed(file_palette(views(g.names@)).len())
}

/// Number of longs in `g`'s packed block states.
pub open spec fn packed_len(g: BlockGrid) -> int {
    (g.volume_spec() * grid_bits(g) + 63) / 64
}

/// Every string the document holds fits NBT's length prefix.
pub open spec fn strings_fit(g: BlockGrid, m: Metadata) -> bool {
    let pal = file_palette(views(g.names@));
    &&& string_fits(m.name@)
    &&& string_fits(m.author@)
    &&& string_fits(m.description@)
    &&& forall|k: int| 0 <= k < pal.len() ==> string_fits(#[trigger] pal[k])
}

/// `bytes` is the uncompressed `.litematic` of `g`.
pub open spec fn is_litematic_nbt(g: BlockGrid, m: Metadata, t: Target, bytes: Seq<u8>) -> bool {
    exists|words: Seq<u64>|
        #[trigger] packs(g, palette_slots(views(g.names@)), grid_bits(g), words) && bytes
            == litematic_nbt(g, m, t, words)
}

/// `bytes` is the `.litematic` file of `g`.
pub open spec fn is_litematic(g: BlockGrid, m: Metadata, t: Target, bytes: Seq<u8>) -> bool {
    exists|doc: Seq<u8>| #[trigger] is_litematic_nbt(g, m, t, doc) && bytes == gzip_of(doc)
}

/// What the writer needs of a grid: no negative coordinate, and a box
/// whose bit stream fits in memory.
pub open spec fn encodable(g: BlockGrid) -> bool {
    &&& g.wf()
    &&& nonneg_coords(g.coords@)
    &&& g.volume_spec() * 16 <= usize::MAX
}

fn put_xyz(w: &mut NbtWriter, name: &str, x: i32, y: i32, z: i32)
    requires
        name@.len() <= 10922,
    ensures
        final(w)@ == old(w)@ + xyz_compound(name@, x, y, z),
{
    proof {
        reveal_strlit("x");
        reveal_strlit("y");
        reveal_strlit("z");
    }
    put_compound(w, name);
    put_int(w, "x", x);
    put_int(w, "y", y);
    put_int(w, "z", z);
    put_end(w);
    assert(w@ =~= old(w)@ + xyz_compound(name@, x, y, z));
}

fn put_metadata_head(w: &mut NbtWriter, meta: &Metadata) -> (res: Result<(), FormatError>)
    ensures
        res is Ok <==> string_fits(meta.name@) && string_fits(meta.author@) && string_fits(
            meta.description@,
        ),
        res is Ok ==> final(w)@ == old(w)@ + metadata_head(*meta),
        res is Err ==> res == Err::<(), FormatError>(FormatError::Nbt(NbtError::StringTooLong)),
{
    proof {
        reveal_strlit("Metadata");
        reveal_strlit("Name");
        reveal_strlit("Author");
        reveal_strlit("Description");
    }
    put_compound(w, "Metadata");
    let r = put_string(w, "Name", meta.name.as_str());
    if r.is_err() {
        return r;
    }
    let r = put_string(w, "Author", meta.author.as_str());
    if r.is_err() {
        return r;
    }
    let r = put_string(w, "Description", meta.description.as_str());
    if r.is_err() {
        return r;
    }
    Ok(())
}

fn put_metadata_tail(w: &mut NbtWriter, grid: &BlockGrid, meta: &Metadata, placed: u64, volume: u64)
    requires
        placed == placed_count(views(grid.names@), grid.blocks@),
        volume == grid.volume_spec(),
    ensures
        final(w)@ == old(w)@ + metadata_tail(*grid, *meta),
{
    proof {
        reveal_strlit("TimeCreated");
        reveal_strlit("TimeModified");
        reveal_strlit("EnclosingSize");
        reveal_strlit("RegionCount");
        reveal_strlit("TotalBlocks");
        reveal_strlit("TotalVolume");
    }
    put_long(w, "TimeCreated", meta.time_ms);
    put_long(w, "TimeModified", meta.time_ms);
    put_xyz(w, "EnclosingSize", grid.size[0] as i32, grid.size[1] as i32, grid.size[2] as i32);
    put_int(w, "RegionCount", 1);
    put_int(w, "TotalBlocks", clamp_i32(placed));
    put_int(w, "TotalVolume", clamp_i32(volume));
    put_end(w);
}

fn put_metadata(w: &mut NbtWriter, grid: &BlockGrid, meta: &Metadata, placed: u64, volume: u64) -> (res: Result<
    (),
    FormatError,
>)
    requires
        placed == placed_count(views(grid.names@), grid.blocks@),
        volume == grid.volume_spec(),
    ensures
        res is Ok <==> string_fits(meta.name@) && string_fits(meta.author@) && string_fits(
            meta.description@,
        ),
        res is Ok ==> final(w)@ == old(w)@ + metadata_part(*grid, *meta),
        res is Err ==> res == Err::<(), FormatError>(FormatError::Nbt(NbtError::StringTooLong)),
{
    let r = put_metadata_head(w, meta);
    if r.is_err() {
        return r;
    }
    let ghost mid = w@;
    put_metadata_tail(w, grid, meta, placed, volume);
    assert(w@ =~= old(w)@ + metadata_part(*grid, *meta));
    Ok(())
}

/// The palette list's elements; `Err` where a block ID does not fit.
fn put_palette(w: &mut NbtWriter, pal: &Vec<&str>) -> (res: Result<(), FormatError>)
    ensures
        res is Ok <==> forall|k: int| 0 <= k < pal@.len() ==> string_fits(#[trigger] pal@[k]@),
        res is Ok ==> final(w)@ == old(w)@ + palette_entries(str_views(pal@)),
        res is Err ==> res == Err::<(), FormatError>(FormatError::Nbt(NbtError::StringTooLong)),
{
    proof {
        reveal_strlit("Name");
    }
    let ghost pv = str_views(pal@);
    let mut k: usize = 0;
    while k < pal.len()
        invariant
            pv == str_views(pal@),
            k <= pal@.len(),
            forall|j: int| 0 <= j < k ==> string_fits(#[trigger] pal@[j]@),
            w@ == old(w)@ + palette_entries(pv.take(k as int)),
        decreases pal.len() - k,
    {
        proof {
            reveal_strlit("Name");
        }
        let r = put_string(w, "Name", pal[k]);
        if r.is_err() {
            return r;
        }
        put_end(w);
        k += 1;
        assert(pv.take(k as int).drop_last() == pv.take(k - 1));
        assert(w@ =~= old(w)@ + palette_entries(pv.take(k as int)));
    }
    assert(pv.take(pal@.len() as int) == pv);
    Ok(())
}

/// The region's name: the schematic's, or `main` when that is blank.
pub fn region_name(name: &str) -> (res: &str)
    ensures
        res@ == region_name_of(name@),
{
    proof {
        reveal_strlit("main");
    }
    if trim(name).unicode_len() == 0 {
        "main"
    } else {
        name
    }
}

fn put_head(w: &mut NbtWriter, target: &Target)
    ensures
        final(w)@ == old(w)@ + litematic_head(*target),
{
    proof {
        reveal_strlit("");
        reveal_strlit("Version");
        reveal_strlit("SubVersion");
        reveal_strlit("MinecraftDataVersion");
    }
    put_compound(w, "");
    put_int(w, "Version", target.schematic_version);
    put_int(w, "SubVersion", SUB_VERSION);
    put_int(w, "MinecraftDataVersion", target.data_version);
    assert(w@ =~= old(w)@ + litematic_head(*target));
}

/// Whether every entry of a file palette fits NBT's length prefix.
pub open spec fn palette_fits(pal: Seq<Seq<char>>) -> bool {
    forall|k: int| 0 <= k < pal.len() ==> string_fits(#[trigger] pal[k])
}

/// The field names of the `Regions` compound are short.
proof fn lemma_region_names_fit()
    ensures
        "Regions"@.len() <= 10922,
        "Position"@.len() <= 10922,
        "Size"@.len() <= 10922,
        "BlockStatePalette"@.len() <= 10922,
        "PendingBlockTicks"@.len() <= 10922,
        "PendingFluidTicks"@.len() <= 10922,
        "TileEntities"@.len() <= 10922,
        "Entities"@.len() <= 10922,
        string_fits("main"@),
        string_fits("BlockStates"@),
{
    reveal_strlit("Regions");
    reveal_strlit("Position");
    reveal_strlit("Size");
    reveal_strlit("BlockStatePalette");
    reveal_strlit("BlockStates");
    reveal_strlit("PendingBlockTicks");
    reveal_strlit("PendingFluidTicks");
    reveal_strlit("TileEntities");
    reveal_strlit("Entities");
    reveal_strlit("main");
    lemma_short_string_fits("main"@);
    lemma_short_string_fits("BlockStates"@);
}

fn put_regions_open(w: &mut NbtWriter, grid: &BlockGrid, meta: &Metadata, palette: &Vec<&str>) -> (res:
    Result<(), FormatError>)
    requires
        str_views(palette@) == file_palette(views(grid.names@)),
        palette@.len() <= i32::MAX,
        string_fits(meta.name@),
    ensures
        res is Ok <==> palette_fits(str_views(palette@)),
        res is Ok ==> final(w)@ == old(w)@ + regions_open(*grid, *meta),
        res is Err ==> res == Err::<(), FormatError>(FormatError::Nbt(NbtError::StringTooLong)),
{
    let ghost pal = str_views(palette@);
    proof {
        lemma_region_names_fit();
    }
    put_compound(w, "Regions");
    let region = region_name(meta.name.as_str());
    assert(string_fits(region@));
    let ghost before_region = w@;
    let _ = w.begin_compound(region);
    assert(w@ =~= before_region + compound_start(region@));
    put_xyz(w, "Position", 0, 0, 0);
    put_xyz(w, "Size", grid.size[0] as i32, grid.size[1] as i32, grid.size[2] as i32);
    put_list(w, "BlockStatePalette", TAG_COMPOUND, palette.len());
    let r = put_palette(w, palette);
    if r.is_err() {
        proof {
            let k = choose|k: int| 0 <= k < palette@.len() && !string_fits(#[trigger] palette@[k]@);
            assert(pal[k] == palette@[k]@);
        }
        return r;
    }
    assert forall|k: int| 0 <= k < pal.len() implies string_fits(#[trigger] pal[k]) by {
        assert(pal[k] == palette@[k]@);
    }
    assert(w@ =~= old(w)@ + regions_open(*grid, *meta));
    Ok(())
}

fn put_regions_close(w: &mut NbtWriter, block_states: &Vec<u64>) -> (res: Result<(), FormatError>)
    ensures
        res is Ok <==> block_states@.len() <= i32::MAX,
        res is Ok ==> final(w)@ == old(w)@ + regions_close(block_states@),
        res is Err ==> res == Err::<(), FormatError>(FormatError::Nbt(NbtError::ArrayTooLong)),
{
    proof {
        lemma_region_names_fit();
    }
    let r = w.long_array("BlockStates", block_states.as_slice());
    if r.is_err() {
        return Err(FormatError::Nbt(NbtError::ArrayTooLong));
    }
    let ghost mid = w@;
    assert(mid =~= old(w)@ + long_array_tag("BlockStates"@, block_states@));
    put_list(w, "PendingBlockTicks", TAG_COMPOUND, 0);
    put_list(w, "PendingFluidTicks", TAG_COMPOUND, 0);
    put_list(w, "TileEntities", TAG_COMPOUND, 0);
    put_list(w, "Entities", TAG_COMPOUND, 0);
    put_end(w);
    put_end(w);
    assert(w@ =~= old(w)@ + regions_close(block_states@));
    Ok(())
}

fn put_regions(
    w: &mut NbtWriter,
    grid: &BlockGrid,
    meta: &Metadata,
    palette: &Vec<&str>,
    block_states: &Vec<u64>,
) -> (res: Result<(), FormatError>)
    requires
        str_views(palette@) == file_palette(views(grid.names@)),
        palette@.len() <= i32::MAX,
        string_fits(meta.name@),
    ensures
        res is Ok <==> palette_fits(str_views(palette@)) && block_states@.len() <= i32::MAX,
        res is Ok ==> final(w)@ == old(w)@ + regions_part(*grid, *meta, block_states@),
        !palette_fits(str_views(palette@)) ==> res == Err::<(), FormatError>(
            FormatError::Nbt(NbtError::StringTooLong),
        ),
        palette_fits(str_views(palette@)) && block_states@.len() > i32::MAX ==> res == Err::<
            (),
            FormatError,
        >(FormatError::Nbt(NbtError::ArrayTooLong)),
{
    let r = put_regions_open(w, grid, meta, palette);
    if r.is_err() {
        return r;
    }
    let r = put_regions_close(w, block_states);
    if r.is_err() {
        return r;
    }
    assert(w@ =~= old(w)@ + regions_part(*grid, *meta, block_states@));
    Ok(())
}

/// Encode `grid` as uncompressed Litematica NBT.
pub fn encode_nbt(grid: &BlockGrid, meta: &Metadata, target: &Target) -> (res: Result<
    Vec<u8>,
    FormatError,
>)
    requires
        encodable(*grid),
    ensures
        grid.coords@.len() == 0 ==> res == Err::<Vec<u8>, FormatError>(FormatError::Empty),
        grid.coords@.len() > 0 && !strings_fit(*grid, *meta) ==> res == Err::<Vec<u8>, FormatError>(
            FormatError::Nbt(NbtError::StringTooLong),
        ),
        grid.coords@.len() > 0 && strings_fit(*grid, *meta) && packed_len(*grid) > i32::MAX
            ==> res == Err::<Vec<u8>, FormatError>(FormatError::Nbt(NbtError::ArrayTooLong)),
        res is Ok <==> grid.coords@.len() > 0 && strings_fit(*grid, *meta) && packed_len(*grid)
            <= i32::MAX,
        res matches Ok(v) ==> is_litematic_nbt(*grid, *meta, *target, v@),
{
    if grid.is_empty() {
        return Err(FormatError::Empty);
    }
    let volume = grid.volume();
    let ghost nv = views(grid.names@);
    let (palette, slots) = file_palette_of(&grid.names);
    let mut to_palette: Vec<u64> = Vec::new();
    let mut k: usize = 0;
    while k < slots.len()
        invariant
            k <= slots@.len(),
            to_palette@.len() == k,
            forall|j: int| 0 <= j < k ==> #[trigger] to_palette@[j] == slots@[j] as u64,
        decreases slots.len() - k,
    {
        to_palette.push(slots[k] as u64);
        k += 1;
    }
    assert(to_palette@ =~= palette_slots(nv));
    let placed = count_placed(grid);
    assert(palette@.len() <= grid.names@.len() + 1) by {
        assert(str_views(palette@).len() == palette@.len());
        crate::formats::lemma_file_palette_len(nv);
    }
    let block_states = pack_block_states(grid, &to_palette, palette.len());
    let mut w = NbtWriter::new(Vec::new());
    put_head(&mut w, target);
    assert(w@ =~= litematic_head(*target));
    let r = put_metadata(&mut w, grid, meta, placed, volume);
    if r.is_err() {
        return Err(FormatError::Nbt(NbtError::StringTooLong));
    }
    let r = put_regions(&mut w, grid, meta, &palette, &block_states);
    if r.is_err() {
        return Err(r.unwrap_err());
    }
    put_end(&mut w);
    assert(packs(*grid, palette_slots(views(grid.names@)), grid_bits(*grid), block_states@));
    assert(w@ == litematic_nbt(*grid, *meta, *target, block_states@));
    Ok(w.into_inner())
}

/// Encode `grid` as a gzip-compressed `.litematic`.
pub fn encode(grid: &BlockGrid, meta: &Metadata, target: &Target) -> (res: Result<
    Vec<u8>,
    FormatError,
>)
    requires
        encodable(*grid),
    ensures
        grid.coords@.len() == 0 ==> res == Err::<Vec<u8>, FormatError>(FormatError::Empty),
        grid.coords@.len() > 0 && !strings_fit(*grid, *meta) ==> res == Err::<Vec<u8>, FormatError>(
            FormatError::Nbt(NbtError::StringTooLong),
        ),
        grid.coords@.len() > 0 && strings_fit(*grid, *meta) && packed_len(*grid) > i32::MAX
            ==> res == Err::<Vec<u8>, FormatError>(FormatError::Nbt(NbtError::ArrayTooLong)),
        grid.coords@.len() > 0 && strings_fit(*grid, *meta) && packed_len(*grid) <= i32::MAX
            ==> res is Ok,
        res matches Ok(v) ==> is_litematic(*grid, *meta, *target, v@),
{
    let doc = encode_nbt(grid, meta, target)?;
    let ghost d = doc@;
    let res = compress(doc);
    proof {
        if res is Ok {
            assert(is_litematic_nbt(*grid, *meta, *target, d));
        }
    }
    res
}

// ── Reading the stream back ──────────────────────────────────────────────

/// No two blocks share a position.
pub open spec fn distinct_coords(coords: Seq<[i32; 3]>) -> bool {
    forall|a: int, b: int|
        0 <= a < coords.len() && 0 <= b < coords.len() && a != b ==> !(#[trigger] coords[a][0]
            == #[trigger] coords[b][0] && coords[a][1] == coords[b][1] && coords[a][2] == coords[b][2])
}

proof fn lemma_digits_unique(a1: int, b1: int, a2: int, b2: int, m: int)
    by (nonlinear_arith)
    requires
        0 <= a1 < m,
        0 <= a2 < m,
        a1 + m * b1 == a2 + m * b2,
    ensures
        a1 == a2,
        b1 == b2,
{
    if b1 > b2 {
        assert(m * b1 >= m * (b2 + 1));
    } else if b1 < b2 {
        assert(m * b2 >= m * (b1 + 1));
    }
}

/// Distinct positions in the box have distinct cell indices.
proof fn lemma_cell_index_injective(c1: [i32; 3], c2: [i32; 3], size: [u32; 3])
    requires
        0 <= c1[0] < size[0],
        0 <= c1[1] < size[1],
        0 <= c1[2] < size[2],
        0 <= c2[0] < size[0],
        0 <= c2[1] < size[1],
        0 <= c2[2] < size[2],
        cell_index(size, c1) == cell_index(size, c2),
    ensures
        c1[0] == c2[0] && c1[1] == c2[1] && c1[2] == c2[2],
{
    let sx = size[0] as int;
    let sz = size[2] as int;
    assert(c1[1] * sx * sz == sx * (c1[1] * sz)) by (nonlinear_arith);
    assert(c2[1] * sx * sz == sx * (c2[1] * sz)) by (nonlinear_arith);
    assert(c1[2] * sx == sx * c1[2]) by (nonlinear_arith);
    assert(c2[2] * sx == sx * c2[2]) by (nonlinear_arith);
    assert(c1[0] + sx * (c1[2] + c1[1] * sz) == c2[0] + sx * (c2[2] + c2[1] * sz)) by (nonlinear_arith)
        requires
            c1[0] + c1[2] * sx + c1[1] * sx * sz == c2[0] + c2[2] * sx + c2[1] * sx * sz,
            c1[1] * sx * sz == sx * (c1[1] * sz),
            c2[1] * sx * sz == sx * (c2[1] * sz),
            c1[2] * sx == sx * c1[2],
            c2[2] * sx == sx * c2[2],
    ;
    lemma_digits_unique(c1[0] as int, c1[2] + c1[1] * sz, c2[0] as int, c2[2] + c2[1] * sz, sx);
    assert(c1[2] + sz * c1[1] == c2[2] + sz * c2[1]) by (nonlinear_arith)
        requires
            c1[2] + c1[1] * sz == c2[2] + c2[1] * sz,
    ;
    lemma_digits_unique(c1[2] as int, c1[1] as int, c2[2] as int, c2[1] as int, sz);
}

proof fn lemma_slots_disjoint(ia: int, ib: int, bits: int, j: int)
    by (nonlinear_arith)
    requires
        ia != ib,
        bits >= 1,
        ib * bits <= j < ib * bits + bits,
    ensures
        !(ia * bits <= j < ia * bits + bits),
{
    if ia < ib {
        assert(ia * bits + bits <= ib * bits);
    } else {
        assert(ia * bits >= ib * bits + bits);
    }
}

/// Within block `i`'s slot, only block `i` sets bits.
proof fn lemma_only_own_slot(g: BlockGrid, to_palette: Seq<u64>, bits: nat, n: int, i: int, j: int)
    requires
        0 <= i < g.coords@.len(),
        0 <= n <= g.coords@.len(),
        bits >= 1,
        forall|a: int|
            0 <= a < g.coords@.len() && a != i ==> cell_index(g.size, #[trigger] g.coords@[a])
                != cell_index(g.size, g.coords@[i]),
        cell_start(g, bits, i) <= j < cell_start(g, bits, i) + bits,
    ensures
        set_by_cells(g, to_palette, bits, n, j) == (i < n && slot_bit(
            cell_start(g, bits, i),
            bits as int,
            cell_value(g, to_palette, bits, i),
            j,
        )),
    decreases n,
{
    if n > 0 {
        lemma_only_own_slot(g, to_palette, bits, n - 1, i, j);
        if n - 1 != i {
            lemma_slots_disjoint(
                cell_index(g.size, g.coords@[n - 1]),
                cell_index(g.size, g.coords@[i]),
                bits as int,
                j,
            );
        }
    }
}

/// Reading a block's slot back gives the value written for it: no other
/// block writes there when no two blocks share a position.
pub proof fn lemma_slot_reads_back(
    g: BlockGrid,
    to_palette: Seq<u64>,
    bits: nat,
    words: Seq<u64>,
    i: int,
    k: int,
)
    requires
        g.wf(),
        nonneg_coords(g.coords@),
        distinct_coords(g.coords@),
        1 <= bits <= 64,
        packs(g, to_palette, bits, words),
        0 <= i < g.coords@.len(),
        0 <= k < bits,
    ensures
        stream_bit(words, cell_start(g, bits, i) + k) == value_bit(
            cell_value(g, to_palette, bits, i),
            k,
        ),
{
    let n = g.coords@.len() as int;
    let c = g.coords@[i];
    assert(c[0] >= 0 && c[1] >= 0 && c[2] >= 0);
    lemma_extent_bound(g.coords@, i, 0);
    lemma_extent_bound(g.coords@, i, 1);
    lemma_extent_bound(g.coords@, i, 2);
    lemma_cell_in_box(
        c[0] as int,
        c[1] as int,
        c[2] as int,
        g.size[0] as int,
        g.size[1] as int,
        g.size[2] as int,
    );
    let idx = cell_index(g.size, c);
    let vol = g.volume_spec();
    assert(idx * bits + bits <= vol * bits) by (nonlinear_arith)
        requires
            idx < vol,
            bits >= 1,
    ;
    assert(64 * words.len() >= vol * bits);
    assert forall|a: int| 0 <= a < n && a != i implies cell_index(g.size, #[trigger] g.coords@[a])
        != cell_index(g.size, g.coords@[i]) by {
        let d = g.coords@[a];
        assert(d[0] >= 0 && d[1] >= 0 && d[2] >= 0);
        lemma_extent_bound(g.coords@, a, 0);
        lemma_extent_bound(g.coords@, a, 1);
        lemma_extent_bound(g.coords@, a, 2);
        if cell_index(g.size, d) == cell_index(g.size, c) {
            lemma_cell_index_injective(d, c, g.size);
            assert(g.coords@[a][0] == g.coords@[i][0]);
        }
    }
    let j = cell_start(g, bits, i) + k;
    lemma_only_own_slot(g, to_palette, bits, n, i, j);
    assert(stream_bit(words, j) == set_by_cells(g, to_palette, bits, n, j));
}

proof fn lemma_unset_outside_slots(g: BlockGrid, to_palette: Seq<u64>, bits: nat, n: int, j: int)
    requires
        0 <= n <= g.coords@.len(),
        forall|i: int|
            0 <= i < g.coords@.len() ==> !(cell_start(g, bits, i) <= j < #[trigger] cell_start(
                g,
                bits,
                i,
            ) + bits),
    ensures
        !set_by_cells(g, to_palette, bits, n, j),
    decreases n,
{
    if n > 0 {
        lemma_unset_outside_slots(g, to_palette, bits, n - 1, j);
        assert(!(cell_start(g, bits, n - 1) <= j < cell_start(g, bits, n - 1) + bits));
    }
}

/// A bit in no block's slot reads as zero: cells without a block are air.
pub proof fn lemma_gaps_read_zero(
    g: BlockGrid,
    to_palette: Seq<u64>,
    bits: nat,
    words: Seq<u64>,
    j: int,
)
    requires
        packs(g, to_palette, bits, words),
        0 <= j < 64 * words.len(),
        forall|i: int|
            0 <= i < g.coords@.len() ==> !(cell_start(g, bits, i) <= j < #[trigger] cell_start(
                g,
                bits,
                i,
            ) + bits),
    ensures
        !stream_bit(words, j),
{
    lemma_unset_outside_slots(g, to_palette, bits, g.coords@.len() as int, j);
}

// ── Reading a `.litematic` back ──────────────────────────────────────────

/// The fields of an `x`/`y`/`z` compound.
pub open spec fn xyz_fields(x: i32, y: i32, z: i32) -> Seq<(Seq<char>, TagV)> {
    seq![("x"@, TagV::Int(x)), ("y"@, TagV::Int(y)), ("z"@, TagV::Int(z))]
}

/// A palette entry as the file holds it: a compound naming the block.
pub open spec fn palette_item(name: Seq<char>) -> TagV {
    TagV::Compound(seq![("Name"@, TagV::Str(name))])
}

pub open spec fn palette_items(pal: Seq<Seq<char>>) -> Seq<TagV> {
    pal.map_values(|p: Seq<char>| palette_item(p))
}

/// The packed block states as the file's signed longs.
pub open spec fn words_as_longs(words: Seq<u64>) -> Seq<i64> {
    words.map_values(|w: u64| w as i64)
}

/// The region's fields: where it sits, its size, its palette, its packed
/// block states, and the empty lists of ticks, block entities and
/// entities.
pub open spec fn region_fields(g: BlockGrid, words: Seq<u64>) -> Seq<(Seq<char>, TagV)> {
    seq![
        ("Position"@, TagV::Compound(xyz_fields(0, 0, 0))),
        ("Size"@, TagV::Compound(xyz_fields(g.size[0] as i32, g.size[1] as i32, g.size[2] as i32))),
        ("BlockStatePalette"@, TagV::List(palette_items(file_palette(views(g.names@))))),
        ("BlockStates"@, TagV::LongArray(words_as_longs(words))),
        ("PendingBlockTicks"@, TagV::List(seq![])),
        ("PendingFluidTicks"@, TagV::List(seq![])),
        ("TileEntities"@, TagV::List(seq![])),
        ("Entities"@, TagV::List(seq![])),
    ]
}

/// The `Metadata` compound's fields.
pub open spec fn metadata_fields(g: BlockGrid, m: Metadata) -> Seq<(Seq<char>, TagV)> {
    seq![
        ("Name"@, TagV::Str(m.name@)),
        ("Author"@, TagV::Str(m.author@)),
        ("Description"@, TagV::Str(m.description@)),
        ("TimeCreated"@, TagV::Long(m.time_ms)),
        ("TimeModified"@, TagV::Long(m.time_ms)),
        ("EnclosingSize"@, TagV::Compound(xyz_fields(g.size[0] as i32, g.size[1] as i32, g.size[2] as i32))),
        ("RegionCount"@, TagV::Int(1)),
        ("TotalBlocks"@, TagV::Int(clamped(placed_count(views(g.names@), g.blocks@) as int))),
        ("TotalVolume"@, TagV::Int(clamped(g.volume_spec()))),
    ]
}

/// The tree a `.litematic` of `g` holds, `words` its packed block states:
/// the format and data versions, the metadata, and one region named after
/// the schematic.
pub open spec fn litematic_fields(g: BlockGrid, m: Metadata, t: Target, words: Seq<u64>) -> Seq<(Seq<char>, TagV)> {
    seq![
        ("Version"@, TagV::Int(t.schematic_version)),
        ("SubVersion"@, TagV::Int(1)),
        ("MinecraftDataVersion"@, TagV::Int(t.data_version)),
        ("Metadata"@, TagV::Compound(metadata_fields(g, m))),
        ("Regions"@, TagV::Compound(seq![(region_name_of(m.name@), TagV::Compound(region_fields(g, words)))])),
    ]
}

pub(crate) proof fn lemma_tag_fields()
    ensures
        forall|n: Seq<char>, v: i32| #[trigger] int_tag(n, v) == field_bytes((n, TagV::Int(v))),
        forall|n: Seq<char>, v: i64| #[trigger] long_tag(n, v) == field_bytes((n, TagV::Long(v))),
        forall|n: Seq<char>, v: Seq<char>| #[trigger] string_tag(n, v) == field_bytes((n, TagV::Str(v))),
{
    assert forall|n: Seq<char>, v: i32| #[trigger] int_tag(n, v) == field_bytes((n, TagV::Int(v))) by {
        lemma_writer_tags_are_named_payloads(n, 0, v, 0, seq![], seq![], seq![], seq![]);
    }
    assert forall|n: Seq<char>, v: i64| #[trigger] long_tag(n, v) == field_bytes((n, TagV::Long(v))) by {
        lemma_writer_tags_are_named_payloads(n, 0, 0, v, seq![], seq![], seq![], seq![]);
    }
    assert forall|n: Seq<char>, v: Seq<char>| #[trigger] string_tag(n, v) == field_bytes((n, TagV::Str(v))) by {
        lemma_writer_tags_are_named_payloads(n, 0, 0, 0, v, seq![], seq![], seq![]);
    }
}

pub(crate) proof fn lemma_literal_names_fit()
    ensures
        string_fits(""@),
        string_fits("x"@),
        string_fits("y"@),
        string_fits("z"@),
        string_fits("Name"@),
        string_fits("Author"@),
        string_fits("Description"@),
        string_fits("TimeCreated"@),
        string_fits("TimeModified"@),
        string_fits("EnclosingSize"@),
        string_fits("RegionCount"@),
        string_fits("TotalBlocks"@),
        string_fits("TotalVolume"@),
        string_fits("Version"@),
        string_fits("SubVersion"@),
        string_fits("MinecraftDataVersion"@),
        string_fits("Metadata"@),
        string_fits("Regions"@),
        string_fits("Position"@),
        string_fits("Size"@),
        string_fits("BlockStatePalette"@),
        string_fits("BlockStates"@),
        string_fits("PendingBlockTicks"@),
        string_fits("PendingFluidTicks"@),
        string_fits("TileEntities"@),
        string_fits("Entities"@),
        string_fits("main"@),
{
    reveal_strlit("");
    reveal_strlit("x");
    reveal_strlit("y");
    reveal_strlit("z");
    reveal_strlit("Name");
    reveal_strlit("Author");
    reveal_strlit("Description");
    reveal_strlit("TimeCreated");
    reveal_strlit("TimeModified");
    reveal_strlit("EnclosingSize");
    reveal_strlit("RegionCount");
    reveal_strlit("TotalBlocks");
    reveal_strlit("TotalVolume");
    reveal_strlit("Version");
    reveal_strlit("SubVersion");
    reveal_strlit("MinecraftDataVersion");
    reveal_strlit("Metadata");
    lemma_region_names_fit();
    lemma_short_string_fits(""@);
    lemma_short_string_fits("x"@);
    lemma_short_string_fits("y"@);
    lemma_short_string_fits("z"@);
    lemma_short_string_fits("Name"@);
    lemma_short_string_fits("Author"@);
    lemma_short_string_fits("Description"@);
    lemma_short_string_fits("TimeCreated"@);
    lemma_short_string_fits("TimeModified"@);
    lemma_short_string_fits("EnclosingSize"@);
    lemma_short_string_fits("RegionCount"@);
    lemma_short_string_fits("TotalBlocks"@);
    lemma_short_string_fits("TotalVolume"@);
    lemma_short_string_fits("Version"@);
    lemma_short_string_fits("SubVersion"@);
    lemma_short_string_fits("MinecraftDataVersion"@);
    lemma_short_string_fits("Metadata"@);
    lemma_short_string_fits("Regions"@);
    lemma_short_string_fits("Position"@);
    lemma_short_string_fits("Size"@);
    lemma_short_string_fits("BlockStatePalette"@);
    lemma_short_string_fits("PendingBlockTicks"@);
    lemma_short_string_fits("PendingFluidTicks"@);
    lemma_short_string_fits("TileEntities"@);
    lemma_short_string_fits("Entities"@);
}

/// A field list's bytes: those of all but its last field, then the last.
pub(crate) proof fn lemma_fields_bytes_list(fs: Seq<(Seq<char>, TagV)>)
    requires
        fs.len() <= 9,
    ensures
        fs.len() == 0 ==> fields_bytes(fs) == Seq::<u8>::empty(),
        fs.len() > 0 ==> fields_bytes(fs) == fields_bytes(fs.drop_last()) + field_bytes(fs.last()),
{
    if fs.len() > 0 {
        assert(fs.drop_last().push(fs.last()) =~= fs);
        lemma_fields_bytes_push(fs.drop_last(), fs.last());
    } else {
        assert(fields_bytes(fs) == Seq::<u8>::empty());
    }
}

proof fn lemma_xyz_reads(name: Seq<char>, x: i32, y: i32, z: i32, d: int)
    requires
        0 <= d <= 500,
    ensures
        xyz_compound(name, x, y, z) == field_bytes((name, TagV::Compound(xyz_fields(x, y, z)))),
        writable(TagV::Compound(xyz_fields(x, y, z)), d),
{
    lemma_tag_fields();
    lemma_literal_names_fit();
    let f = xyz_fields(x, y, z);
    lemma_fields_bytes_list(f);
    lemma_fields_bytes_list(f.drop_last());
    lemma_fields_bytes_list(f.drop_last().drop_last());
    lemma_fields_bytes_list(f.drop_last().drop_last().drop_last());
    assert(f.drop_last().drop_last().drop_last() =~= Seq::<(Seq<char>, TagV)>::empty());
    assert(fields_bytes(f) =~= int_tag("x"@, x) + int_tag("y"@, y) + int_tag("z"@, z));
    assert(xyz_compound(name, x, y, z) =~= field_bytes((name, TagV::Compound(f))));
    let e = Seq::<(Seq<char>, TagV)>::empty();
    lemma_fields_writable_push(e, ("x"@, TagV::Int(x)), d + 1);
    lemma_fields_writable_push(e.push(("x"@, TagV::Int(x))), ("y"@, TagV::Int(y)), d + 1);
    lemma_fields_writable_push(
        e.push(("x"@, TagV::Int(x))).push(("y"@, TagV::Int(y))),
        ("z"@, TagV::Int(z)),
        d + 1,
    );
    assert(e.push(("x"@, TagV::Int(x))).push(("y"@, TagV::Int(y))).push(("z"@, TagV::Int(z))) =~= f);
}

pub(crate) proof fn lemma_palette_reads(pal: Seq<Seq<char>>, d: int)
    requires
        0 <= d <= 500,
        palette_fits(pal),
    ensures
        palette_entries(pal) == items_bytes(palette_items(pal)),
        items_writable(palette_items(pal), TAG_COMPOUND, d),
    decreases pal.len(),
{
    lemma_tag_fields();
    lemma_literal_names_fit();
    if pal.len() == 0 {
        assert(palette_items(pal) =~= Seq::<TagV>::empty());
        assert(items_bytes(palette_items(pal)) == Seq::<u8>::empty());
    } else {
        let init = pal.drop_last();
        assert(palette_fits(init)) by {
            assert forall|k: int| 0 <= k < init.len() implies string_fits(#[trigger] init[k]) by {
                assert(init[k] == pal[k]);
            }
        }
        lemma_palette_reads(init, d);
        let item = palette_item(pal.last());
        assert(palette_items(init).push(item) =~= palette_items(pal));
        lemma_items_bytes_push(palette_items(init), item);
        lemma_items_writable_push(palette_items(init), item, TAG_COMPOUND, d);
        let nf = seq![("Name"@, TagV::Str(pal.last()))];
        lemma_fields_bytes_list(nf);
        assert(nf.drop_last() =~= Seq::<(Seq<char>, TagV)>::empty());
        lemma_fields_bytes_list(nf.drop_last());
        assert(payload_bytes(item) =~= string_tag("Name"@, pal.last()) + end_tag());
        assert(string_fits(pal.last()));
        lemma_fields_writable_push(Seq::empty(), ("Name"@, TagV::Str(pal.last())), d + 1);
        assert(Seq::<(Seq<char>, TagV)>::empty().push(("Name"@, TagV::Str(pal.last()))) =~= nf);
        assert(writable(item, d));
        assert(palette_entries(pal) =~= items_bytes(palette_items(pal)));
    }
}

pub(crate) proof fn lemma_empty_list_reads(name: Seq<char>, d: int)
    requires
        0 <= d <= 500,
    ensures
        list_start(name, TAG_COMPOUND, 0) == field_bytes((name, TagV::List(seq![]))),
        writable(TagV::List(seq![]), d),
{
    assert(items_bytes(Seq::<TagV>::empty()) == Seq::<u8>::empty());
    assert(list_start(name, TAG_COMPOUND, 0) =~= field_bytes((name, TagV::List(seq![]))));
}

proof fn lemma_block_states_read(words: Seq<u64>, d: int)
    requires
        0 <= d <= 500,
        words.len() <= i32::MAX,
    ensures
        long_array_tag("BlockStates"@, words) == field_bytes(
            ("BlockStates"@, TagV::LongArray(words_as_longs(words))),
        ),
        writable(TagV::LongArray(words_as_longs(words)), d),
{
    let longs = words_as_longs(words);
    assert forall|k: int| 0 <= k < words.len() implies ((#[trigger] words[k]) as i64) as u64
        == words[k] by {
        let w = words[k];
        assert((w as i64) as u64 == w) by (bit_vector);
    }
    assert(longs_as_bits(longs) =~= words);
    lemma_writer_tags_are_named_payloads("BlockStates"@, 0, 0, 0, seq![], seq![], seq![], longs);
}

/// A field list is writable when each of its fields is.
pub(crate) proof fn lemma_all_fields_writable(f: Seq<(Seq<char>, TagV)>, d: int)
    requires
        forall|i: int| 0 <= i < f.len() ==> string_fits((#[trigger] f[i]).0) && writable(f[i].1, d),
    ensures
        fields_writable(f, d),
    decreases f.len(),
{
    if f.len() == 0 {
        assert(fields_writable(f, d));
    } else {
        let init = f.drop_last();
        assert forall|i: int| 0 <= i < init.len() implies string_fits((#[trigger] init[i]).0)
            && writable(init[i].1, d) by {
            assert(init[i] == f[i]);
        }
        lemma_all_fields_writable(init, d);
        lemma_fields_writable_push(init, f.last(), d);
        assert(init.push(f.last()) =~= f);
    }
}

/// The bytes of the first `k` fields: those of the first `k - 1`, then
/// field `k - 1`.
pub(crate) proof fn lemma_fields_bytes_take(f: Seq<(Seq<char>, TagV)>, k: int)
    requires
        1 <= k <= f.len(),
    ensures
        fields_bytes(f.take(k)) == fields_bytes(f.take(k - 1)) + field_bytes(f[k - 1]),
{
    assert(f.take(k - 1).push(f[k - 1]) =~= f.take(k));
    lemma_fields_bytes_push(f.take(k - 1), f[k - 1]);
}

#[verifier::rlimit(100)]
#[verifier::spinoff_prover]
proof fn lemma_metadata_reads(g: BlockGrid, m: Metadata, d: int)
    requires
        0 <= d <= 400,
        strings_fit(g, m),
    ensures
        metadata_part(g, m) == field_bytes(("Metadata"@, TagV::Compound(metadata_fields(g, m)))),
        writable(TagV::Compound(metadata_fields(g, m)), d),
{
    let f = metadata_fields(g, m);
    let (sx, sy, sz) = (g.size[0] as i32, g.size[1] as i32, g.size[2] as i32);
    let tb = clamped(placed_count(views(g.names@), g.blocks@) as int);
    let tv = clamped(g.volume_spec());
    assert(f.take(0) =~= Seq::<(Seq<char>, TagV)>::empty());
    assert(fields_bytes(f.take(0)) == Seq::<u8>::empty());
    assert(fields_bytes(f.take(1)) == fields_bytes(f.take(0)) + string_tag("Name"@, m.name@)) by {
        lemma_fields_bytes_take(f, 1);
        lemma_writer_tags_are_named_payloads("Name"@, 0, 0, 0, m.name@, seq![], seq![], seq![]);
    }
    assert(fields_bytes(f.take(2)) == fields_bytes(f.take(1)) + string_tag("Author"@, m.author@)) by {
        lemma_fields_bytes_take(f, 2);
        lemma_writer_tags_are_named_payloads("Author"@, 0, 0, 0, m.author@, seq![], seq![], seq![]);
    }
    assert(fields_bytes(f.take(3)) == fields_bytes(f.take(2)) + string_tag("Description"@, m.description@)) by {
        lemma_fields_bytes_take(f, 3);
        lemma_writer_tags_are_named_payloads("Description"@, 0, 0, 0, m.description@, seq![], seq![], seq![]);
    }
    assert(fields_bytes(f.take(4)) == fields_bytes(f.take(3)) + long_tag("TimeCreated"@, m.time_ms)) by {
        lemma_fields_bytes_take(f, 4);
        lemma_writer_tags_are_named_payloads("TimeCreated"@, 0, 0, m.time_ms, seq![], seq![], seq![], seq![]);
    }
    assert(fields_bytes(f.take(5)) == fields_bytes(f.take(4)) + long_tag("TimeModified"@, m.time_ms)) by {
        lemma_fields_bytes_take(f, 5);
        lemma_writer_tags_are_named_payloads("TimeModified"@, 0, 0, m.time_ms, seq![], seq![], seq![], seq![]);
    }
    assert(fields_bytes(f.take(6)) == fields_bytes(f.take(5)) + xyz_compound("EnclosingSize"@, sx, sy, sz)) by {
        lemma_fields_bytes_take(f, 6);
        lemma_xyz_reads("EnclosingSize"@, sx, sy, sz, d + 1);
    }
    assert(fields_bytes(f.take(7)) == fields_bytes(f.take(6)) + int_tag("RegionCount"@, 1)) by {
        lemma_fields_bytes_take(f, 7);
        lemma_writer_tags_are_named_payloads("RegionCount"@, 0, 1, 0, seq![], seq![], seq![], seq![]);
    }
    assert(fields_bytes(f.take(8)) == fields_bytes(f.take(7)) + int_tag("TotalBlocks"@, tb)) by {
        lemma_fields_bytes_take(f, 8);
        lemma_writer_tags_are_named_payloads("TotalBlocks"@, 0, tb, 0, seq![], seq![], seq![], seq![]);
    }
    assert(fields_bytes(f.take(9)) == fields_bytes(f.take(8)) + int_tag("TotalVolume"@, tv)) by {
        lemma_fields_bytes_take(f, 9);
        lemma_writer_tags_are_named_payloads("TotalVolume"@, 0, tv, 0, seq![], seq![], seq![], seq![]);
    }
    assert(f.take(9) =~= f);
    let body = string_tag("Name"@, m.name@) + string_tag("Author"@, m.author@) + string_tag("Description"@, m.description@) + long_tag("TimeCreated"@, m.time_ms) + long_tag("TimeModified"@, m.time_ms) + xyz_compound("EnclosingSize"@, sx, sy, sz) + int_tag("RegionCount"@, 1) + int_tag("TotalBlocks"@, tb) + int_tag("TotalVolume"@, tv);
    assert(fields_bytes(f) =~= body);
    assert(metadata_part(g, m) =~= compound_start("Metadata"@) + body + end_tag());
    assert(fields_writable(f, d + 1)) by {
        lemma_literal_names_fit();
        lemma_xyz_reads("EnclosingSize"@, sx, sy, sz, d + 1);
        lemma_all_fields_writable(f, d + 1);
    }
}

#[verifier::rlimit(60)]
#[verifier::spinoff_prover]
proof fn lemma_region_fields_read(g: BlockGrid, m: Metadata, words: Seq<u64>, d: int)
    requires
        0 <= d <= 400,
        g.wf(),
        strings_fit(g, m),
        words.len() <= i32::MAX,
    ensures
        ({
            let pal = file_palette(views(g.names@));
            let (sx, sy, sz) = (g.size[0] as i32, g.size[1] as i32, g.size[2] as i32);
            let pal_bytes = list_start("BlockStatePalette"@, TAG_COMPOUND, pal.len())
                + palette_entries(pal);
            fields_bytes(region_fields(g, words)) == xyz_compound("Position"@, 0, 0, 0) + xyz_compound("Size"@, sx, sy, sz) + pal_bytes + long_array_tag("BlockStates"@, words) + list_start("PendingBlockTicks"@, TAG_COMPOUND, 0) + list_start("PendingFluidTicks"@, TAG_COMPOUND, 0) + list_start("TileEntities"@, TAG_COMPOUND, 0) + list_start("Entities"@, TAG_COMPOUND, 0)
        }),
        fields_writable(region_fields(g, words), d + 2),
{
    let pal = file_palette(views(g.names@));
    let f = region_fields(g, words);
    let (sx, sy, sz) = (g.size[0] as i32, g.size[1] as i32, g.size[2] as i32);
    let items = palette_items(pal);
    let pal_bytes = list_start("BlockStatePalette"@, TAG_COMPOUND, pal.len()) + palette_entries(pal);
    assert(pal_bytes == field_bytes(("BlockStatePalette"@, TagV::List(items))) && writable(
        TagV::List(items),
        d + 2,
    )) by {
        crate::formats::lemma_file_palette_len(views(g.names@));
        lemma_palette_reads(pal, d + 3);
        assert(items[0] == palette_item(pal[0]));
        assert(pal_bytes =~= field_bytes(("BlockStatePalette"@, TagV::List(items))));
    }
    assert(f.take(0) =~= Seq::<(Seq<char>, TagV)>::empty());
    assert(fields_bytes(f.take(0)) == Seq::<u8>::empty());
    assert(fields_bytes(f.take(1)) == fields_bytes(f.take(0)) + xyz_compound("Position"@, 0, 0, 0)) by {
        lemma_fields_bytes_take(f, 1);
        lemma_xyz_reads("Position"@, 0, 0, 0, d + 2);
    }
    assert(fields_bytes(f.take(2)) == fields_bytes(f.take(1)) + xyz_compound("Size"@, sx, sy, sz)) by {
        lemma_fields_bytes_take(f, 2);
        lemma_xyz_reads("Size"@, sx, sy, sz, d + 2);
    }
    assert(fields_bytes(f.take(3)) == fields_bytes(f.take(2)) + pal_bytes) by {
        lemma_fields_bytes_take(f, 3);
        assert(pal_bytes == field_bytes(f[2]));
    }
    assert(fields_bytes(f.take(4)) == fields_bytes(f.take(3)) + long_array_tag("BlockStates"@, words)) by {
        lemma_fields_bytes_take(f, 4);
        lemma_block_states_read(words, d + 2);
    }
    assert(fields_bytes(f.take(5)) == fields_bytes(f.take(4)) + list_start("PendingBlockTicks"@, TAG_COMPOUND, 0)) by {
        lemma_fields_bytes_take(f, 5);
        lemma_empty_list_reads("PendingBlockTicks"@, d + 2);
    }
    assert(fields_bytes(f.take(6)) == fields_bytes(f.take(5)) + list_start("PendingFluidTicks"@, TAG_COMPOUND, 0)) by {
        lemma_fields_bytes_take(f, 6);
        lemma_empty_list_reads("PendingFluidTicks"@, d + 2);
    }
    assert(fields_bytes(f.take(7)) == fields_bytes(f.take(6)) + list_start("TileEntities"@, TAG_COMPOUND, 0)) by {
        lemma_fields_bytes_take(f, 7);
        lemma_empty_list_reads("TileEntities"@, d + 2);
    }
    assert(fields_bytes(f.take(8)) == fields_bytes(f.take(7)) + list_start("Entities"@, TAG_COMPOUND, 0)) by {
        lemma_fields_bytes_take(f, 8);
        lemma_empty_list_reads("Entities"@, d + 2);
    }
    assert(f.take(8) =~= f);
    let body2 = xyz_compound("Position"@, 0, 0, 0) + xyz_compound("Size"@, sx, sy, sz) + pal_bytes + long_array_tag("BlockStates"@, words) + list_start("PendingBlockTicks"@, TAG_COMPOUND, 0) + list_start("PendingFluidTicks"@, TAG_COMPOUND, 0) + list_start("TileEntities"@, TAG_COMPOUND, 0) + list_start("Entities"@, TAG_COMPOUND, 0);
    assert(fields_bytes(f) =~= body2);
    assert(fields_writable(f, d + 2)) by {
        lemma_literal_names_fit();
        lemma_xyz_reads("Position"@, 0, 0, 0, d + 2);
        lemma_xyz_reads("Size"@, sx, sy, sz, d + 2);
        lemma_block_states_read(words, d + 2);
        lemma_empty_list_reads("Entities"@, d + 2);
        lemma_all_fields_writable(f, d + 2);
    }
}

#[verifier::rlimit(60)]
#[verifier::spinoff_prover]
proof fn lemma_region_reads(g: BlockGrid, m: Metadata, words: Seq<u64>, d: int)
    requires
        0 <= d <= 400,
        g.wf(),
        strings_fit(g, m),
        words.len() <= i32::MAX,
    ensures
        regions_part(g, m, words) == field_bytes(
            (
                "Regions"@,
                TagV::Compound(
                    seq![(region_name_of(m.name@), TagV::Compound(region_fields(g, words)))],
                ),
            ),
        ),
        writable(
            TagV::Compound(
                seq![(region_name_of(m.name@), TagV::Compound(region_fields(g, words)))],
            ),
            d,
        ),
{
    lemma_region_fields_read(g, m, words, d);
    let f = region_fields(g, words);
    let pal = file_palette(views(g.names@));
    let (sx, sy, sz) = (g.size[0] as i32, g.size[1] as i32, g.size[2] as i32);
    let pal_bytes = list_start("BlockStatePalette"@, TAG_COMPOUND, pal.len()) + palette_entries(pal);
    let body = xyz_compound("Position"@, 0, 0, 0) + xyz_compound("Size"@, sx, sy, sz) + pal_bytes + long_array_tag("BlockStates"@, words) + list_start("PendingBlockTicks"@, TAG_COMPOUND, 0) + list_start("PendingFluidTicks"@, TAG_COMPOUND, 0) + list_start("TileEntities"@, TAG_COMPOUND, 0) + list_start("Entities"@, TAG_COMPOUND, 0);
    let rn = region_name_of(m.name@);
    let outer = seq![(rn, TagV::Compound(f))];
    assert(fields_bytes(outer) == field_bytes(outer[0])) by {
        lemma_fields_bytes_list(outer);
        lemma_fields_bytes_list(outer.drop_last());
        assert(outer.drop_last() =~= Seq::<(Seq<char>, TagV)>::empty());
    }
    assert(regions_part(g, m, words) =~= compound_start("Regions"@) + compound_start(rn) + body
        + end_tag() + end_tag());
    assert(regions_part(g, m, words) =~= field_bytes(("Regions"@, TagV::Compound(outer))));
    assert(fields_writable(outer, d + 1)) by {
        lemma_literal_names_fit();
        assert(string_fits(rn));
        lemma_all_fields_writable(outer, d + 1);
    }
}

pub(crate) proof fn lemma_concat_root(h: Seq<u8>, a: Seq<u8>, b: Seq<u8>, c: Seq<u8>, d: Seq<u8>, e: Seq<u8>)
    ensures
        h + a + b + c + d + e + end_tag() == h + ((Seq::<u8>::empty() + a + b + c + d + e) + seq![
            crate::nbt::TAG_END,
        ]),
{
    assert(h + a + b + c + d + e + end_tag() =~= h + ((Seq::<u8>::empty() + a + b + c + d + e)
        + seq![crate::nbt::TAG_END]));
}

#[verifier::rlimit(100)]
#[verifier::spinoff_prover]
proof fn lemma_litematic_document(g: BlockGrid, m: Metadata, t: Target, words: Seq<u64>)
    requires
        g.wf(),
        strings_fit(g, m),
        words.len() <= i32::MAX,
    ensures
        litematic_nbt(g, m, t, words) == document_bytes(""@, litematic_fields(g, m, t, words)),
        fields_writable(litematic_fields(g, m, t, words), 1),
{
    let f = litematic_fields(g, m, t, words);
    lemma_metadata_reads(g, m, 1);
    lemma_region_reads(g, m, words, 1);
    assert(f.take(0) =~= Seq::<(Seq<char>, TagV)>::empty());
    assert(fields_bytes(f.take(0)) == Seq::<u8>::empty());
    assert(fields_bytes(f.take(1)) == fields_bytes(f.take(0)) + int_tag("Version"@, t.schematic_version)) by {
        lemma_fields_bytes_take(f, 1);
        lemma_writer_tags_are_named_payloads("Version"@, 0, t.schematic_version, 0, seq![], seq![], seq![], seq![]);
    }
    assert(fields_bytes(f.take(2)) == fields_bytes(f.take(1)) + int_tag("SubVersion"@, 1)) by {
        lemma_fields_bytes_take(f, 2);
        lemma_writer_tags_are_named_payloads("SubVersion"@, 0, 1, 0, seq![], seq![], seq![], seq![]);
    }
    assert(fields_bytes(f.take(3)) == fields_bytes(f.take(2)) + int_tag("MinecraftDataVersion"@, t.data_version)) by {
        lemma_fields_bytes_take(f, 3);
        lemma_writer_tags_are_named_payloads("MinecraftDataVersion"@, 0, t.data_version, 0, seq![], seq![], seq![], seq![]);
    }
    assert(fields_bytes(f.take(4)) == fields_bytes(f.take(3)) + metadata_part(g, m)) by {
        lemma_fields_bytes_take(f, 4);
    }
    assert(fields_bytes(f.take(5)) == fields_bytes(f.take(4)) + regions_part(g, m, words)) by {
        lemma_fields_bytes_take(f, 5);
    }
    assert(f.take(5) =~= f);
    let h = compound_start(""@);
    let (x1, x2, x3) = (
        int_tag("Version"@, t.schematic_version),
        int_tag("SubVersion"@, 1),
        int_tag("MinecraftDataVersion"@, t.data_version),
    );
    let (mp, rp) = (metadata_part(g, m), regions_part(g, m, words));
    assert(fields_bytes(f) == Seq::<u8>::empty() + x1 + x2 + x3 + mp + rp);
    lemma_concat_root(h, x1, x2, x3, mp, rp);
    assert(litematic_nbt(g, m, t, words) == h + x1 + x2 + x3 + mp + rp + end_tag());
    assert(document_bytes(""@, f) == h + (fields_bytes(f) + seq![crate::nbt::TAG_END]));
    assert(fields_writable(f, 1)) by {
        lemma_literal_names_fit();
        lemma_all_fields_writable(f, 1);
    }
}

/// A `.litematic`'s document reads back as the schematic it was written
/// from: the format and data versions of the target, the metadata (name,
/// author, description, times, enclosing size, one region, the count of
/// placed blocks and the volume) and one region named after the schematic
/// holding the file palette (air first) and the packed block states; and
/// reading each block's slot out of those states gives its palette index.
#[verifier::rlimit(100)]
#[verifier::spinoff_prover]
pub proof fn lemma_litematic_reads_back(g: BlockGrid, m: Metadata, t: Target, doc: Seq<u8>)
    requires
        encodable(g),
        distinct_coords(g.coords@),
        strings_fit(g, m),
        packed_len(g) <= i32::MAX,
        is_litematic_nbt(g, m, t, doc),
    ensures
        exists|words: Seq<u64>|
            #![trigger packs(g, palette_slots(views(g.names@)), grid_bits(g), words)]
            packs(g, palette_slots(views(g.names@)), grid_bits(g), words) && document(doc) == Ok::<
                (Seq<char>, TagV),
                NbtError,
            >((""@, TagV::Compound(litematic_fields(g, m, t, words)))) && forall|i: int, k: int|
                0 <= i < g.coords@.len() && 0 <= k < grid_bits(g) ==> stream_bit(
                    words,
                    cell_start(g, grid_bits(g), i) + k,
                ) == value_bit(cell_value(g, palette_slots(views(g.names@)), grid_bits(g), i), k),
{
    let slots = palette_slots(views(g.names@));
    let bits = grid_bits(g);
    let words = choose|words: Seq<u64>|
        #[trigger] packs(g, slots, bits, words) && doc == litematic_nbt(g, m, t, words);
    assert(words.len() == packed_len(g));
    lemma_litematic_document(g, m, t, words);
    lemma_literal_names_fit();
    lemma_document_round_trip(""@, litematic_fields(g, m, t, words));
    crate::formats::lemma_file_palette_len(views(g.names@));
    let pl = file_palette(views(g.names@)).len();
    lemma_bits_small(if pl < 2 { 1u64 } else { (pl - 1) as u64 }, 2);
    assert forall|i: int, k: int| 0 <= i < g.coords@.len() && 0 <= k < bits implies stream_bit(
        words,
        cell_start(g, bits, i) + k,
    ) == value_bit(cell_value(g, slots, bits, i), k) by {
        lemma_slot_reads_back(g, slots, bits, words, i, k);
    }
}

/// The compound of a box's sides as Litematica stores it.
pub open spec fn sides_compound(x: i32, y: i32, z: i32) -> TagV {
    TagV::Compound(seq![("x"@, TagV::Int(x)), ("y"@, TagV::Int(y)), ("z"@, TagV::Int(z))])
}

/// Where the two boxes sit in the tree a `.litematic` holds.
#[verifier::spinoff_prover]
proof fn lemma_litematic_tree_sizes(g: BlockGrid, m: Metadata, t: Target, words: Seq<u64>)
    ensures
        ({
            let root = TagV::Compound(litematic_fields(g, m, t, words));
            let sides = sides_compound(g.size[0] as i32, g.size[1] as i32, g.size[2] as i32);
            &&& at_spec(root, seq!["Metadata"@, "EnclosingSize"@]) == Some(sides)
            &&& at_spec(root, seq!["Regions"@, region_name_of(m.name@), "Size"@]) == Some(sides)
        }),
{
    let root = litematic_fields(g, m, t, words);
    let meta = metadata_fields(g, m);
    let regions = seq![(region_name_of(m.name@), TagV::Compound(region_fields(g, words)))];
    let region = region_fields(g, words);
    let sides = sides_compound(g.size[0] as i32, g.size[1] as i32, g.size[2] as i32);
    assert(get_spec(TagV::Compound(root), "Metadata"@) == Some(TagV::Compound(meta))) by {
        reveal_strlit("Version");
        reveal_strlit("SubVersion");
        reveal_strlit("MinecraftDataVersion");
        reveal_strlit("Metadata");
        assert forall|j: int| 0 <= j < 3 implies (#[trigger] root[j]).0 != "Metadata"@ by {
            assert(root[j].0.len() != "Metadata"@.len());
        }
        lemma_field_index_first(root, "Metadata"@, 3);
    }
    assert(get_spec(TagV::Compound(root), "Regions"@) == Some(TagV::Compound(regions))) by {
        reveal_strlit("Version");
        reveal_strlit("SubVersion");
        reveal_strlit("MinecraftDataVersion");
        reveal_strlit("Metadata");
        reveal_strlit("Regions");
        assert forall|j: int| 0 <= j < 4 implies (#[trigger] root[j]).0 != "Regions"@ by {
            if j == 0 {
                assert(root[j].0[0] != "Regions"@[0]);
            } else {
                assert(root[j].0.len() != "Regions"@.len());
            }
        }
        lemma_field_index_first(root, "Regions"@, 4);
    }
    assert(get_spec(TagV::Compound(meta), "EnclosingSize"@) == Some(sides)) by {
        reveal_strlit("Name");
        reveal_strlit("Author");
        reveal_strlit("Description");
        reveal_strlit("TimeCreated");
        reveal_strlit("TimeModified");
        reveal_strlit("EnclosingSize");
        assert forall|j: int| 0 <= j < 5 implies (#[trigger] meta[j]).0 != "EnclosingSize"@ by {
            assert(meta[j].0.len() != "EnclosingSize"@.len());
        }
        lemma_field_index_first(meta, "EnclosingSize"@, 5);
    }
    assert(get_spec(TagV::Compound(regions), region_name_of(m.name@)) == Some(
        TagV::Compound(region),
    )) by {
        lemma_field_index_first(regions, region_name_of(m.name@), 0);
    }
    assert(get_spec(TagV::Compound(region), "Size"@) == Some(sides)) by {
        reveal_strlit("Position");
        reveal_strlit("Size");
        assert(region[0].0.len() != "Size"@.len());
        lemma_field_index_first(region, "Size"@, 1);
    }
    reveal_with_fuel(at_spec, 4);
    let p1 = seq!["Metadata"@, "EnclosingSize"@];
    assert(p1.drop_first() =~= seq!["EnclosingSize"@]);
    assert(p1.drop_first().drop_first() =~= Seq::<Seq<char>>::empty());
    let p2 = seq!["Regions"@, region_name_of(m.name@), "Size"@];
    assert(p2.drop_first() =~= seq![region_name_of(m.name@), "Size"@]);
    assert(p2.drop_first().drop_first() =~= seq!["Size"@]);
    assert(p2.drop_first().drop_first().drop_first() =~= Seq::<Seq<char>>::empty());
}

/// A `.litematic` states the grid's own box twice: the metadata's
/// `EnclosingSize` and the region's `Size` both read back as `x`, `y` and
/// `z` equal to the grid's sides along x, y and z, in that order.
pub proof fn lemma_litematic_sizes(g: BlockGrid, m: Metadata, t: Target, doc: Seq<u8>)
    requires
        encodable(g),
        distinct_coords(g.coords@),
        strings_fit(g, m),
        packed_len(g) <= i32::MAX,
        is_litematic_nbt(g, m, t, doc),
    ensures
        document(doc) matches Ok(r) && {
            let sides = sides_compound(g.size[0] as i32, g.size[1] as i32, g.size[2] as i32);
            &&& at_spec(r.1, seq!["Metadata"@, "EnclosingSize"@]) == Some(sides)
            &&& at_spec(r.1, seq!["Regions"@, region_name_of(m.name@), "Size"@]) == Some(sides)
        },
{
    lemma_litematic_reads_back(g, m, t, doc);
    let words = choose|words: Seq<u64>|
        #![trigger packs(g, palette_slots(views(g.names@)), grid_bits(g), words)]
        packs(g, palette_slots(views(g.names@)), grid_bits(g), words) && document(doc) == Ok::<
            (Seq<char>, TagV),
            NbtError,
        >((""@, TagV::Compound(litematic_fields(g, m, t, words))));
    lemma_litematic_tree_sizes(g, m, t, words);
}

/// Cells are numbered x fastest, then z, then y: the corner is cell 0, a
/// step along x adds one, a step along z adds a row of the box's width,
/// and a step along y adds a whole layer of width times length.
pub proof fn lemma_cell_order(size: [u32; 3], x: i32, y: i32, z: i32)
    requires
        x < i32::MAX,
        y < i32::MAX,
        z < i32::MAX,
    ensures
        cell_index(size, [0, 0, 0]) == 0,
        cell_index(size, [(x + 1) as i32, y, z]) == cell_index(size, [x, y, z]) + 1,
        cell_index(size, [x, y, (z + 1) as i32]) == cell_index(size, [x, y, z]) + size[0],
        cell_index(size, [x, (y + 1) as i32, z]) == cell_index(size, [x, y, z]) + size[0] * size[2],
{
    let (sx, sz) = (size[0] as int, size[2] as int);
    let o: [i32; 3] = [0, 0, 0];
    assert(o[0] == 0 && o[1] == 0 && o[2] == 0);
    assert(0 * sx == 0 && 0 * sx * sz == 0) by (nonlinear_arith);
    assert((z + 1) * sx == z * sx + sx) by (nonlinear_arith);
    assert((y + 1) * sx * sz == y * sx * sz + sx * sz) by (nonlinear_arith);
}

} // verus!
