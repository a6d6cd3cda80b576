//! Vanilla structure files (`.nbt`), what structure blocks and
//! `/place template` load, no mod needed.
//!
//! Only placed blocks are listed. A position left out is a structure void:
//! placing the structure keeps whatever was there, which is what a hollow
//! statue wants. Structure blocks load at most 48 x 48 x 48; `/place
//! template` takes larger ones.
use vstd::prelude::*;
use crate::formats::{
    compress, gzip_of, put_compound, put_end, put_int, put_list, put_string, FormatError,
    Metadata,
};
use crate::grid::{views, BlockGrid};
use crate::litematic::{
    cell_index, cell_index_of, encodable, lemma_all_fields_writable, lemma_concat_root,
    lemma_empty_list_reads, lemma_fields_bytes_list, lemma_fields_bytes_take, lemma_palette_reads,
    palette_entries, palette_fits, palette_items,
};
use crate::nbt::{
    be32, compound_start, end_tag, int_tag, lemma_short_string_fits, list_start, string_fits,
    NbtError, NbtWriter, TAG_COMPOUND, TAG_INT,
};
use crate::order::{keys_sorted, sort_by_key};
use crate::reader::{at_spec, document, get_spec, lemma_field_index_first, TagV};
use crate::roundtrip::{
    document_bytes, field_bytes, fields_bytes, fields_writable, items_bytes, items_writable,
    lemma_document_round_trip, lemma_fields_writable_push, lemma_items_bytes_push,
    lemma_items_writable_push, lemma_writer_tags_are_named_payloads, payload_bytes, writable,
};
use crate::targets::Target;

verus! {

/// Largest structure a structure block can load, per axis.
pub const STRUCTURE_BLOCK_LIMIT: u32 = 48;

/// Each block with its cell index as key: the order the game saves blocks
/// in is the order of cell indices, y first, then z, then x.
pub open spec fn keyed_blocks(g: BlockGrid) -> Seq<(u64, usize)> {
    Seq::new(
        g.coords@.len(),
        |i: int| (cell_index(g.size, g.coords@[i]) as u64, i as usize),
    )
}

/// `order` lists every block once, layer by layer, row by row; blocks
/// sharing a cell in the order they were given.
pub open spec fn block_order(g: BlockGrid, order: Seq<(u64, usize)>) -> bool {
    &&& keys_sorted(order)
    &&& order.to_multiset() == keyed_blocks(g).to_multiset()
}

/// One element of the `blocks` list: `{pos: [x, y, z], state}`.
pub open spec fn block_entry(g: BlockGrid, i: int) -> Seq<u8> {
    let c = g.coords@[i];
    list_start("pos"@, TAG_INT, 3) + be32(c[0] as u32) + be32(c[1] as u32) + be32(c[2] as u32)
        + int_tag("state"@, g.blocks@[i] as i32) + end_tag()
}

/// The first `n` entries of the `blocks` list, in `order`.
pub open spec fn block_entries(g: BlockGrid, order: Seq<(u64, usize)>, n: int) -> Seq<u8>
    decreases n,
{
    if n <= 0 {
        seq![]
    } else {
        block_entries(g, order, n - 1) + block_entry(g, order[n - 1].1 as int)
    }
}

/// The uncompressed structure file of `g`, blocks listed in `order`.
pub open spec fn structure_nbt(g: BlockGrid, t: Target, order: Seq<(u64, usize)>) -> Seq<u8> {
    compound_start(""@) + int_tag("DataVersion"@, t.data_version) + list_start("size"@, TAG_INT, 3)
        + be32(g.size[0]) + be32(g.size[1]) + be32(g.size[2]) + list_start(
        "palette"@,
        TAG_COMPOUND,
        g.names@.len(),
    ) + palette_entries(views(g.names@)) + list_start("blocks"@, TAG_COMPOUND, g.coords@.len())
        + block_entries(g, order, order.len() as int) + list_start("entities"@, TAG_COMPOUND, 0)
        + end_tag()
}

/// `bytes` is the uncompressed structure file of `g`.
pub open spec fn is_structure_nbt(g: BlockGrid, t: Target, bytes: Seq<u8>) -> bool {
    exists|order: Seq<(u64, usize)>| #[trigger] block_order(g, order) && bytes == structure_nbt(g, t, order)
}

/// `bytes` is the structure file of `g`.
pub open spec fn is_structure(g: BlockGrid, t: Target, bytes: Seq<u8>) -> bool {
    exists|doc: Seq<u8>| #[trigger] is_structure_nbt(g, t, doc) && bytes == gzip_of(doc)
}

/// Every block ID fits NBT's length prefix.
pub open spec fn names_fit(g: BlockGrid) -> bool {
    forall|k: int| 0 <= k < g.names@.len() ==> string_fits(#[trigger] views(g.names@)[k])
}

fn put_block_entry(w: &mut NbtWriter, grid: &BlockGrid, i: usize)
    requires
        grid.wf(),
        i < grid.coords@.len(),
    ensures
        final(w)@ == old(w)@ + block_entry(*grid, i as int),
{
    proof {
        reveal_strlit("pos");
        reveal_strlit("state");
    }
    put_list(w, "pos", TAG_INT, 3);
    let c = grid.coords[i];
    let _ = w.list_int(c[0]);
    let _ = w.list_int(c[1]);
    let _ = w.list_int(c[2]);
    put_int(w, "state", grid.blocks[i] as i32);
    put_end(w);
    assert(w@ =~= old(w)@ + block_entry(*grid, i as int));
}

fn put_names(w: &mut NbtWriter, grid: &BlockGrid) -> (res: Result<(), FormatError>)
    ensures
        res is Ok <==> names_fit(*grid),
        res is Ok ==> final(w)@ == old(w)@ + palette_entries(views(grid.names@)),
        res is Err ==> res == Err::<(), FormatError>(FormatError::Nbt(NbtError::StringTooLong)),
{
    let ghost nv = views(grid.names@);
    let mut k: usize = 0;
    while k < grid.names.len()
        invariant
            nv == views(grid.names@),
            k <= grid.names@.len(),
            forall|j: int| 0 <= j < k ==> string_fits(#[trigger] nv[j]),
            w@ == old(w)@ + palette_entries(nv.take(k as int)),
        decreases grid.names.len() - k,
    {
        proof {
            reveal_strlit("Name");
        }
        let r = put_string(w, "Name", grid.names[k].as_str());
        if r.is_err() {
            assert(nv[k as int] == grid.names@[k as int]@);
            return r;
        }
        put_end(w);
        k += 1;
        assert(nv.take(k as int).drop_last() == nv.take(k - 1));
        assert(w@ =~= old(w)@ + palette_entries(nv.take(k as int)));
    }
    assert(nv.take(grid.names@.len() as int) == nv);
    Ok(())
}

/// Encode `grid` as an uncompressed structure file.
pub fn encode_nbt(grid: &BlockGrid, meta: &Metadata, target: &Target) -> (res: Result<
    Vec<u8>,
    FormatError,
>)
    requires
        encodable(*grid),
    ensures
        grid.coords@.len() == 0 ==> res == Err::<Vec<u8>, FormatError>(FormatError::Empty),
        grid.coords@.len() > 0 && !names_fit(*grid) ==> res == Err::<Vec<u8>, FormatError>(
            FormatError::Nbt(NbtError::StringTooLong),
        ),
        grid.coords@.len() > 0 && names_fit(*grid) && grid.coords@.len() > i32::MAX ==> res == Err::<
            Vec<u8>,
            FormatError,
        >(FormatError::Nbt(NbtError::ArrayTooLong)),
        res is Ok <==> grid.coords@.len() > 0 && names_fit(*grid) && grid.coords@.len() <= i32::MAX,
        res matches Ok(v) ==> is_structure_nbt(*grid, *target, v@),
{
    if grid.is_empty() {
        return Err(FormatError::Empty);
    }
    let n = grid.coords.len();
    let mut keyed: Vec<(u64, usize)> = Vec::new();
    let mut i: usize = 0;
    while i < n
        invariant
            encodable(*grid),
            n == grid.coords@.len(),
            i <= n,
            keyed@ == keyed_blocks(*grid).take(i as int),
        decreases n - i,
    {
        let index = cell_index_of(grid, i);
        keyed.push((index as u64, i));
        i += 1;
        assert(keyed@ =~= keyed_blocks(*grid).take(i as int));
    }
    assert(keyed_blocks(*grid).take(n as int) == keyed_blocks(*grid));
    let order = sort_by_key(&keyed);
    assert(block_order(*grid, order@));
    assert forall|p: int| 0 <= p < order@.len() implies (#[trigger] order@[p]).1 < n by {
        broadcast use vstd::seq_lib::group_to_multiset_ensures;

        assert(order@.contains(order@[p]));
        assert(keyed@.to_multiset().count(order@[p]) > 0);
        let q = choose|q: int| 0 <= q < keyed@.len() && keyed@[q] == order@[p];
        assert(keyed@[q].1 == q);
    }
    let mut w = NbtWriter::new(Vec::new());
    proof {
        reveal_strlit("");
        reveal_strlit("DataVersion");
        reveal_strlit("size");
        reveal_strlit("palette");
        reveal_strlit("blocks");
        reveal_strlit("entities");
    }
    put_compound(&mut w, "");
    assert(w@ =~= compound_start(""@));
    put_int(&mut w, "DataVersion", target.data_version);
    put_list(&mut w, "size", TAG_INT, 3);
    let sx = grid.size[0];
    let sy = grid.size[1];
    let sz = grid.size[2];
    assert((sx as i32) as u32 == sx && (sy as i32) as u32 == sy && (sz as i32) as u32 == sz)
        by (bit_vector);
    let _ = w.list_int(sx as i32);
    let _ = w.list_int(sy as i32);
    let _ = w.list_int(sz as i32);
    put_list(&mut w, "palette", TAG_COMPOUND, grid.names.len());
    let r = put_names(&mut w, grid);
    if r.is_err() {
        return r.map(|_u: ()| Vec::new());
    }
    if n > i32::MAX as usize {
        return Err(FormatError::Nbt(NbtError::ArrayTooLong));
    }
    put_list(&mut w, "blocks", TAG_COMPOUND, n);
    let ghost start = w@;
    let mut p: usize = 0;
    while p < order.len()
        invariant
            grid.wf(),
            n == grid.coords@.len(),
            p <= order@.len(),
            forall|q: int| 0 <= q < order@.len() ==> (#[trigger] order@[q]).1 < n,
            w@ == start + block_entries(*grid, order@, p as int),
        decreases order.len() - p,
    {
        put_block_entry(&mut w, grid, order[p].1);
        p += 1;
        assert(w@ =~= start + block_entries(*grid, order@, p as int));
    }
    put_list(&mut w, "entities", TAG_COMPOUND, 0);
    put_end(&mut w);
    assert(order@.len() == n) by {
        broadcast use vstd::seq_lib::group_to_multiset_ensures;

        assert(order@.to_multiset().len() == keyed@.to_multiset().len());
    }
    assert(w@ == structure_nbt(*grid, *target, order@));
    Ok(w.into_inner())
}

/// Encode `grid` as a gzip-compressed structure file.
pub fn encode(grid: &BlockGrid, meta: &Metadata, target: &Target) -> (res: Result<
    Vec<u8>,
    FormatError,
>)
    requires
        encodable(*grid),
    ensures
        grid.coords@.len() == 0 ==> res == Err::<Vec<u8>, FormatError>(FormatError::Empty),
        grid.coords@.len() > 0 && !names_fit(*grid) ==> res == Err::<Vec<u8>, FormatError>(
            FormatError::Nbt(NbtError::StringTooLong),
        ),
        grid.coords@.len() > 0 && names_fit(*grid) && grid.coords@.len() > i32::MAX ==> res == Err::<
            Vec<u8>,
            FormatError,
        >(FormatError::Nbt(NbtError::ArrayTooLong)),
        grid.coords@.len() > 0 && names_fit(*grid) && grid.coords@.len() <= i32::MAX ==> res is Ok,
        res matches Ok(v) ==> is_structure(*grid, *target, v@),
{
    let doc = encode_nbt(grid, meta, target)?;
    let ghost d = doc@;
    let res = compress(doc);
    proof {
        if res is Ok {
            assert(is_structure_nbt(*grid, *target, d));
        }
    }
    res
}

// ── Reading a structure file back ────────────────────────────────────────

/// A list of three ints, as `pos` and `size` are.
pub open spec fn int_triple(a: i32, b: i32, c: i32) -> TagV {
    TagV::List(seq![TagV::Int(a), TagV::Int(b), TagV::Int(c)])
}

/// An element of the `blocks` list as the file holds it.
pub open spec fn block_item(g: BlockGrid, i: int) -> TagV {
    let c = g.coords@[i];
    TagV::Compound(seq![("pos"@, int_triple(c[0], c[1], c[2])), ("state"@, TagV::Int(g.blocks@[i] as i32))])
}

pub open spec fn block_items(g: BlockGrid, order: Seq<(u64, usize)>) -> Seq<TagV> {
    Seq::new(order.len(), |k: int| block_item(g, order[k].1 as int))
}

/// The tree a structure file of `g` holds, blocks listed in `order`.
pub open spec fn structure_fields(g: BlockGrid, t: Target, order: Seq<(u64, usize)>) -> Seq<
    (Seq<char>, TagV),
> {
    seq![
        ("DataVersion"@, TagV::Int(t.data_version)),
        ("size"@, int_triple(g.size[0] as i32, g.size[1] as i32, g.size[2] as i32)),
        ("palette"@, TagV::List(palette_items(views(g.names@)))),
        ("blocks"@, TagV::List(block_items(g, order))),
        ("entities"@, TagV::List(seq![])),
    ]
}

proof fn lemma_triple_reads(name: Seq<char>, a: i32, b: i32, c: i32, d: int)
    requires
        0 <= d <= 500,
    ensures
        list_start(name, TAG_INT, 3) + be32(a as u32) + be32(b as u32) + be32(c as u32)
            == field_bytes((name, int_triple(a, b, c))),
        writable(int_triple(a, b, c), d),
{
    let e = Seq::<TagV>::empty();
    let (x, y, z) = (TagV::Int(a), TagV::Int(b), TagV::Int(c));
    assert(items_bytes(e) == Seq::<u8>::empty());
    lemma_items_bytes_push(e, x);
    lemma_items_bytes_push(e.push(x), y);
    lemma_items_bytes_push(e.push(x).push(y), z);
    lemma_items_writable_push(e, x, TAG_INT, d + 1);
    lemma_items_writable_push(e.push(x), y, TAG_INT, d + 1);
    lemma_items_writable_push(e.push(x).push(y), z, TAG_INT, d + 1);
    let items = seq![x, y, z];
    assert(e.push(x).push(y).push(z) =~= items);
    assert(items_bytes(items) =~= be32(a as u32) + be32(b as u32) + be32(c as u32));
    assert(list_start(name, TAG_INT, 3) + be32(a as u32) + be32(b as u32) + be32(c as u32)
        =~= field_bytes((name, int_triple(a, b, c))));
}

proof fn lemma_block_item_reads(g: BlockGrid, i: int, d: int)
    requires
        0 <= d <= 400,
        0 <= i < g.coords@.len(),
        g.wf(),
    ensures
        block_entry(g, i) == payload_bytes(block_item(g, i)),
        writable(block_item(g, i), d),
{
    reveal_strlit("pos");
    reveal_strlit("state");
    lemma_short_string_fits("pos"@);
    lemma_short_string_fits("state"@);
    let c = g.coords@[i];
    let v = g.blocks@[i] as i32;
    let f = seq![("pos"@, int_triple(c[0], c[1], c[2])), ("state"@, TagV::Int(v))];
    lemma_triple_reads("pos"@, c[0], c[1], c[2], d + 1);
    lemma_writer_tags_are_named_payloads("state"@, 0, v, 0, seq![], seq![], seq![], seq![]);
    lemma_fields_bytes_list(f);
    lemma_fields_bytes_list(f.drop_last());
    assert(f.drop_last().drop_last() =~= Seq::<(Seq<char>, TagV)>::empty());
    assert(fields_bytes(f) =~= field_bytes(f[0]) + field_bytes(f[1]));
    assert(block_entry(g, i) =~= payload_bytes(block_item(g, i)));
    lemma_all_fields_writable(f, d + 1);
}

proof fn lemma_block_items_read(g: BlockGrid, order: Seq<(u64, usize)>, n: int, d: int)
    requires
        0 <= d <= 400,
        0 <= n <= order.len(),
        g.wf(),
        forall|q: int| 0 <= q < order.len() ==> (#[trigger] order[q]).1 < g.coords@.len(),
    ensures
        block_entries(g, order, n) == items_bytes(block_items(g, order).take(n)),
        items_writable(block_items(g, order).take(n), TAG_COMPOUND, d),
    decreases n,
{
    let items = block_items(g, order);
    if n == 0 {
        assert(items.take(0) =~= Seq::<TagV>::empty());
        assert(items_bytes(items.take(0)) == Seq::<u8>::empty());
    } else {
        lemma_block_items_read(g, order, n - 1, d);
        let x = items[n - 1];
        assert(items.take(n - 1).push(x) =~= items.take(n));
        lemma_items_bytes_push(items.take(n - 1), x);
        lemma_items_writable_push(items.take(n - 1), x, TAG_COMPOUND, d);
        assert(order[n - 1].1 < g.coords@.len());
        lemma_block_item_reads(g, order[n - 1].1 as int, d);
    }
}

#[verifier::rlimit(100)]
#[verifier::spinoff_prover]
proof fn lemma_structure_document(g: BlockGrid, t: Target, order: Seq<(u64, usize)>)
    requires
        g.wf(),
        names_fit(g),
        g.coords@.len() <= i32::MAX,
        block_order(g, order),
    ensures
        structure_nbt(g, t, order) == document_bytes(""@, structure_fields(g, t, order)),
        fields_writable(structure_fields(g, t, order), 1),
{
    broadcast use vstd::seq_lib::group_to_multiset_ensures;

    reveal_strlit("");
    reveal_strlit("DataVersion");
    reveal_strlit("size");
    reveal_strlit("palette");
    reveal_strlit("blocks");
    reveal_strlit("entities");
    lemma_short_string_fits(""@);
    lemma_short_string_fits("DataVersion"@);
    lemma_short_string_fits("size"@);
    lemma_short_string_fits("palette"@);
    lemma_short_string_fits("blocks"@);
    lemma_short_string_fits("entities"@);
    let f = structure_fields(g, t, order);
    let pal = views(g.names@);
    let items = block_items(g, order);
    assert(order.len() == g.coords@.len()) by {
        assert(order.to_multiset().len() == keyed_blocks(g).to_multiset().len());
    }
    assert forall|q: int| 0 <= q < order.len() implies (#[trigger] order[q]).1 < g.coords@.len() by {
        assert(order.contains(order[q]));
        assert(keyed_blocks(g).to_multiset().count(order[q]) > 0);
        let w = choose|w: int| 0 <= w < keyed_blocks(g).len() && keyed_blocks(g)[w] == order[q];
    }
    let (sx, sy, sz) = (g.size[0] as i32, g.size[1] as i32, g.size[2] as i32);
    assert((sx as u32) == g.size[0] && (sy as u32) == g.size[1] && (sz as u32) == g.size[2]) by {
        let (a, b, c) = (g.size[0], g.size[1], g.size[2]);
        assert((a as i32) as u32 == a && (b as i32) as u32 == b && (c as i32) as u32 == c)
            by (bit_vector);
    }
    let size_bytes = list_start("size"@, TAG_INT, 3) + be32(g.size[0]) + be32(g.size[1]) + be32(
        g.size[2],
    );
    let pal_bytes = list_start("palette"@, TAG_COMPOUND, g.names@.len()) + palette_entries(pal);
    let block_bytes = list_start("blocks"@, TAG_COMPOUND, g.coords@.len()) + block_entries(
        g,
        order,
        order.len() as int,
    );
    let ent_bytes = list_start("entities"@, TAG_COMPOUND, 0);
    assert(size_bytes == field_bytes(f[1]) && writable(f[1].1, 1)) by {
        lemma_triple_reads("size"@, sx, sy, sz, 1);
    }
    assert(pal_bytes == field_bytes(f[2]) && writable(f[2].1, 1)) by {
        assert(palette_fits(pal));
        lemma_palette_reads(pal, 2);
        if pal.len() > 0 {
            assert(palette_items(pal)[0] == crate::litematic::palette_item(pal[0]));
        }
        assert(pal_bytes =~= field_bytes(f[2]));
    }
    assert(block_bytes == field_bytes(f[3]) && writable(f[3].1, 1)) by {
        lemma_block_items_read(g, order, order.len() as int, 2);
        assert(items.take(order.len() as int) =~= items);
        if items.len() > 0 {
            assert(items[0] == block_item(g, order[0].1 as int));
        }
        assert(block_bytes =~= field_bytes(f[3]));
    }
    assert(ent_bytes == field_bytes(f[4]) && writable(f[4].1, 1)) by {
        lemma_empty_list_reads("entities"@, 1);
    }
    let dv = int_tag("DataVersion"@, t.data_version);
    assert(dv == field_bytes(f[0])) by {
        lemma_writer_tags_are_named_payloads("DataVersion"@, 0, t.data_version, 0, seq![], seq![], seq![], seq![]);
    }
    assert(f.take(0) =~= Seq::<(Seq<char>, TagV)>::empty());
    assert(fields_bytes(f.take(0)) == Seq::<u8>::empty());
    lemma_fields_bytes_take(f, 1);
    lemma_fields_bytes_take(f, 2);
    lemma_fields_bytes_take(f, 3);
    lemma_fields_bytes_take(f, 4);
    lemma_fields_bytes_take(f, 5);
    assert(f.take(5) =~= f);
    assert(fields_bytes(f) == Seq::<u8>::empty() + dv + size_bytes + pal_bytes + block_bytes
        + ent_bytes);
    let h = compound_start(""@);
    lemma_concat_root(h, dv, size_bytes, pal_bytes, block_bytes, ent_bytes);
    assert(structure_nbt(g, t, order) =~= h + dv + size_bytes + pal_bytes + block_bytes + ent_bytes
        + end_tag());
    assert(document_bytes(""@, f) == h + (fields_bytes(f) + seq![crate::nbt::TAG_END]));
    lemma_all_fields_writable(f, 1);
}

/// Each entry of the `blocks` list is a block of the grid: its position
/// and its palette index.
proof fn lemma_block_items_are_blocks(g: BlockGrid, order: Seq<(u64, usize)>)
    requires
        g.wf(),
        g.coords@.len() <= i32::MAX,
        block_order(g, order),
    ensures
        forall|k: int|
            #![trigger block_items(g, order)[k]]
            0 <= k < block_items(g, order).len() ==> exists|i: int|
                #![trigger g.coords@[i]]
                0 <= i < g.coords@.len() && get_spec(block_items(g, order)[k], "pos"@) == Some(
                    int_triple(g.coords@[i][0], g.coords@[i][1], g.coords@[i][2]),
                ) && get_spec(block_items(g, order)[k], "state"@) == Some(
                    TagV::Int(g.blocks@[i] as i32),
                ),
{
    broadcast use vstd::seq_lib::group_to_multiset_ensures;

    let items = block_items(g, order);
    reveal_strlit("pos");
    reveal_strlit("state");
    assert forall|k: int| #![trigger items[k]] 0 <= k < items.len() implies exists|i: int|
        #![trigger g.coords@[i]]
        0 <= i < g.coords@.len() && get_spec(items[k], "pos"@) == Some(
            int_triple(g.coords@[i][0], g.coords@[i][1], g.coords@[i][2]),
        ) && get_spec(items[k], "state"@) == Some(TagV::Int(g.blocks@[i] as i32)) by {
        assert(order.contains(order[k]));
        assert(keyed_blocks(g).to_multiset().count(order[k]) > 0);
        let w = choose|w: int| 0 <= w < keyed_blocks(g).len() && keyed_blocks(g)[w] == order[k];
        let i = order[k].1 as int;
        assert(keyed_blocks(g)[w].1 == w as usize);
        assert(i == w);
        let bf = seq![("pos"@, int_triple(g.coords@[i][0], g.coords@[i][1], g.coords@[i][2])), ("state"@, TagV::Int(g.blocks@[i] as i32))];
        assert(items[k] == TagV::Compound(bf));
        lemma_field_index_first(bf, "pos"@, 0);
        assert(bf[0].0 != "state"@) by {
            assert(bf[0].0.len() != "state"@.len());
        }
        lemma_field_index_first(bf, "state"@, 1);
        assert(g.coords@[i] == g.coords@[i]);
    }
}

/// Where `size` and `blocks` sit in the tree.
proof fn lemma_structure_tree(g: BlockGrid, t: Target, order: Seq<(u64, usize)>)
    ensures
        at_spec(TagV::Compound(structure_fields(g, t, order)), seq!["size"@]) == Some(
            int_triple(g.size[0] as i32, g.size[1] as i32, g.size[2] as i32),
        ),
        at_spec(TagV::Compound(structure_fields(g, t, order)), seq!["blocks"@]) == Some(
            TagV::List(block_items(g, order)),
        ),
{
    let f = structure_fields(g, t, order);
    reveal_strlit("DataVersion");
    reveal_strlit("size");
    reveal_strlit("palette");
    reveal_strlit("blocks");
    assert(f[0].0 != "size"@) by {
        assert(f[0].0.len() != "size"@.len());
    }
    lemma_field_index_first(f, "size"@, 1);
    assert forall|j: int| 0 <= j < 3 implies (#[trigger] f[j]).0 != "blocks"@ by {
        if j == 1 {
            assert(f[j].0[0] != "blocks"@[0]);
        } else {
            assert(f[j].0.len() != "blocks"@.len());
        }
    }
    lemma_field_index_first(f, "blocks"@, 3);
    reveal_with_fuel(at_spec, 2);
    assert(seq!["size"@].drop_first() =~= Seq::<Seq<char>>::empty());
    assert(seq!["blocks"@].drop_first() =~= Seq::<Seq<char>>::empty());
}

/// A structure file holds the grid's own box and its blocks inside it: its
/// `size` reads back as the grid's sides along x, y and z, in that order,
/// and its `blocks` list holds one entry per block of the grid, each with
/// that block's position and palette index.
pub proof fn lemma_structure_reads_back(g: BlockGrid, t: Target, doc: Seq<u8>)
    requires
        encodable(g),
        names_fit(g),
        g.coords@.len() <= i32::MAX,
        is_structure_nbt(g, t, doc),
    ensures
        document(doc) matches Ok(r) && {
            &&& at_spec(r.1, seq!["size"@]) == Some(
                int_triple(g.size[0] as i32, g.size[1] as i32, g.size[2] as i32),
            )
            &&& at_spec(r.1, seq!["blocks"@]) matches Some(TagV::List(items)) && {
                &&& items.len() == g.coords@.len()
                &&& forall|k: int|
                    #![trigger items[k]]
                    0 <= k < items.len() ==> exists|i: int|
                        #![trigger g.coords@[i]]
                        0 <= i < g.coords@.len() && get_spec(items[k], "pos"@) == Some(
                            int_triple(g.coords@[i][0], g.coords@[i][1], g.coords@[i][2]),
                        ) && get_spec(items[k], "state"@) == Some(TagV::Int(g.blocks@[i] as i32))
            }
        },
{
    let order = choose|order: Seq<(u64, usize)>|
        #[trigger] block_order(g, order) && doc == structure_nbt(g, t, order);
    lemma_structure_document(g, t, order);
    reveal_strlit("");
    lemma_short_string_fits(""@);
    lemma_document_round_trip(""@, structure_fields(g, t, order));
    lemma_structure_tree(g, t, order);
    lemma_block_items_are_blocks(g, order);
    assert(order.len() == g.coords@.len()) by {
        broadcast use vstd::seq_lib::group_to_multiset_ensures;

        assert(order.to_multiset().len() == keyed_blocks(g).to_multiset().len());
    }
}

} // verus!
