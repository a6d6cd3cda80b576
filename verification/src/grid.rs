//! The pipeline's result: which block goes where. Positions are block
//! coordinates with the model's minimum corner at the origin; `names` is the
//! per-grid palette (sorted, no duplicates) and `blocks` indexes it once per
//! position. Every schematic writer is built from this.
use vstd::prelude::*;
use crate::order::{compare_chars, lemma_lex_irreflexive, lemma_lex_transitive, lex_lt, strictly_sorted};
use crate::text::{chars_of, string_of};

verus! {

/// A voxelized, block-matched model.
#[derive(Debug, Clone, PartialEq, Eq)]
pub struct BlockGrid {
    /// Tight extent: one past the largest coordinate on each axis.
    pub size: [u32; 3],
    pub coords: Vec<[i32; 3]>,
    /// Index into `names`, one per entry of `coords`.
    pub blocks: Vec<u16>,
    /// Distinct block IDs, sorted.
    pub names: Vec<String>,
}

/// One row of a material list.
#[derive(Debug, Clone, PartialEq, Eq)]
pub struct Material {
    pub name: String,
    pub count: u64,
}

/// The block IDs of a list of strings.
pub open spec fn views(v: Seq<String>) -> Seq<Seq<char>> {
    v.map_values(|s: String| s@)
}

pub open spec fn str_views(v: Seq<&str>) -> Seq<Seq<char>> {
    v.map_values(|s: &str| s@)
}

pub open spec fn char_views(v: Seq<Vec<char>>) -> Seq<Seq<char>> {
    v.map_values(|s: Vec<char>| s@)
}

/// One past the largest coordinate (clamped at 0) on `axis`; 0 for none.
pub open spec fn extent_axis(coords: Seq<[i32; 3]>, axis: int) -> u32
    decreases coords.len(),
{
    if coords.len() == 0 {
        0
    } else {
        let rest = extent_axis(coords.drop_last(), axis);
        let c = coords.last()[axis];
        let past = (if c < 0 {
            0
        } else {
            c
        }) + 1;
        if rest >= past {
            rest
        } else {
            past as u32
        }
    }
}

/// Every coordinate lies below the extent on its axis.
pub proof fn lemma_extent_bound(coords: Seq<[i32; 3]>, i: int, axis: int)
    requires
        0 <= i < coords.len(),
        0 <= axis < 3,
    ensures
        coords[i][axis] < extent_axis(coords, axis),
    decreases coords.len(),
{
    if i < coords.len() - 1 {
        lemma_extent_bound(coords.drop_last(), i, axis);
        assert(coords.drop_last()[i] == coords[i]);
    }
}

/// How many entries of `blocks` are `k`.
pub open spec fn count_of(blocks: Seq<u16>, k: int) -> nat
    decreases blocks.len(),
{
    if blocks.len() == 0 {
        0
    } else {
        count_of(blocks.drop_last(), k) + if blocks.last() == k {
            1nat
        } else {
            0nat
        }
    }
}

/// Material-list order: most used first, then by name.
pub open spec fn material_before(a: (Seq<char>, u64), b: (Seq<char>, u64)) -> bool {
    a.1 > b.1 || (a.1 == b.1 && lex_lt(a.0, b.0))
}

pub open spec fn material_view(m: Material) -> (Seq<char>, u64) {
    (m.name@, m.count)
}

impl BlockGrid {
    /// The grid's invariant: one palette index per position, every index
    /// naming an entry of the sorted, duplicate-free palette, and the size
    /// the tight extent of the positions.
    pub open spec fn wf(&self) -> bool {
        &&& self.coords@.len() == self.blocks@.len()
        &&& forall|i: int| 0 <= i < self.blocks@.len() ==> (#[trigger] self.blocks@[i]) < self.names@.len()
        &&& strictly_sorted(views(self.names@))
        &&& self.names@.len() <= 65535
        &&& forall|a: int| 0 <= a < 3 ==> #[trigger] self.size[a] == extent_axis(self.coords@, a)
    }

    /// The block ID placed at position `i`.
    pub open spec fn name_view(&self, i: int) -> Seq<char> {
        views(self.names@)[self.blocks@[i] as int]
    }

    /// Volume of the enclosing box.
    pub open spec fn volume_spec(&self) -> int {
        self.size[0] * self.size[1] * self.size[2]
    }
}

// ── Sorted palettes ──────────────────────────────────────────────────────

/// Binary search in a strictly sorted palette: where `key` is, or where it
/// would go.
fn search(u: &Vec<Vec<char>>, key: &[char]) -> (res: Result<usize, usize>)
    requires
        strictly_sorted(char_views(u@)),
    ensures
        match res {
            Ok(i) => i < u@.len() && char_views(u@)[i as int] == key@,
            Err(p) => p <= u@.len() && (forall|j: int|
                0 <= j < p ==> lex_lt(#[trigger] char_views(u@)[j], key@)) && (forall|j: int|
                p <= j < u@.len() ==> lex_lt(key@, #[trigger] char_views(u@)[j])),
        },
{
    let ghost v = char_views(u@);
    let mut lo: usize = 0;
    let mut hi: usize = u.len();
    while lo < hi
        invariant
            v == char_views(u@),
            strictly_sorted(v),
            lo <= hi <= u@.len(),
            forall|j: int| 0 <= j < lo ==> lex_lt(#[trigger] v[j], key@),
            forall|j: int| hi <= j < u@.len() ==> lex_lt(key@, #[trigger] v[j]),
        decreases hi - lo,
    {
        let mid = lo + (hi - lo) / 2;
        let c = compare_chars(u[mid].as_slice(), key);
        assert(v[mid as int] == u@[mid as int]@);
        if c == 0 {
            return Ok(mid);
        } else if c == -1 {
            assert forall|j: int| 0 <= j < mid + 1 implies lex_lt(#[trigger] v[j], key@) by {
                if j < mid {
                    lemma_lex_transitive(v[j], v[mid as int], key@);
                }
            }
            lo = mid + 1;
        } else {
            assert forall|j: int| mid <= j < u@.len() implies lex_lt(key@, #[trigger] v[j]) by {
                if j > mid {
                    lemma_lex_transitive(key@, v[mid as int], v[j]);
                }
            }
            hi = mid;
        }
    }
    Err(lo)
}

/// Add `key` to a strictly sorted palette unless it is there.
fn insert_sorted(u: &mut Vec<Vec<char>>, key: Vec<char>)
    requires
        strictly_sorted(char_views(old(u)@)),
    ensures
        strictly_sorted(char_views(final(u)@)),
        char_views(final(u)@).to_set() == char_views(old(u)@).to_set().insert(key@),
{
    let ghost before = char_views(u@);
    match search(u, key.as_slice()) {
        Ok(i) => {
            assert(before.to_set().insert(key@) =~= before.to_set()) by {
                assert(before.contains(key@) ==> before.to_set().contains(key@));
                assert(before[i as int] == key@);
            }
        },
        Err(p) => {
            let ghost k = key@;
            u.insert(p, key);
            let ghost after = char_views(u@);
            assert(after =~= before.insert(p as int, k));
            assert forall|i: int, j: int| 0 <= i < j < after.len() implies lex_lt(
                #[trigger] after[i],
                #[trigger] after[j],
            ) by {
                if j < p {
                } else if j == p {
                } else if i < p {
                    lemma_lex_transitive(after[i], k, after[j]);
                } else if i == p {
                } else {
                }
            }
            assert(after.to_set() =~= before.to_set().insert(k)) by {
                assert forall|x: Seq<char>| after.to_set().contains(x) implies before.to_set().insert(
                    k,
                ).contains(x) by {
                    let w = choose|w: int| 0 <= w < after.len() && after[w] == x;
                    if w < p {
                        assert(before[w] == x);
                    } else if w > p {
                        assert(before[w - 1] == x);
                    }
                }
                assert forall|x: Seq<char>| before.to_set().insert(k).contains(x) implies after.to_set().contains(
                    x,
                ) by {
                    if x == k {
                        assert(after[p as int] == x);
                    } else {
                        let w = choose|w: int| 0 <= w < before.len() && before[w] == x;
                        if w < p {
                            assert(after[w] == x);
                        } else {
                            assert(after[w + 1] == x);
                        }
                    }
                }
            }
        },
    }
}

proof fn lemma_strictly_sorted_no_dup(s: Seq<Seq<char>>)
    requires
        strictly_sorted(s),
    ensures
        s.no_duplicates(),
        s.len() == s.to_set().len(),
{
    assert forall|i: int, j: int| 0 <= i < s.len() && 0 <= j < s.len() && i != j implies s[i]
        != s[j] by {
        if i < j {
            lemma_lex_irreflexive(s[i]);
        } else {
            lemma_lex_irreflexive(s[j]);
        }
    }
    s.unique_seq_to_set();
}

// ── Construction ─────────────────────────────────────────────────────────

/// One past the largest coordinate on each axis; zero for an empty grid.
fn extent(coords: &Vec<[i32; 3]>) -> (res: [u32; 3])
    ensures
        forall|a: int| 0 <= a < 3 ==> #[trigger] res[a] == extent_axis(coords@, a),
{
    let mut size = [0u32; 3];
    let mut i: usize = 0;
    while i < coords.len()
        invariant
            i <= coords@.len(),
            forall|a: int| 0 <= a < 3 ==> #[trigger] size[a] == extent_axis(coords@.take(i as int), a),
        decreases coords.len() - i,
    {
        let c = coords[i];
        let mut axis: usize = 0;
        let ghost prev = size;
        while axis < 3
            invariant
                axis <= 3,
                c == coords@[i as int],
                i < coords@.len(),
                forall|a: int| 0 <= a < 3 ==> #[trigger] prev[a] == extent_axis(coords@.take(i as int), a),
                forall|a: int| axis <= a < 3 ==> #[trigger] size[a] == prev[a],
                forall|a: int|
                    0 <= a < axis ==> #[trigger] size[a] == extent_axis(coords@.take(i + 1), a),
            decreases 3 - axis,
        {
            let v = c[axis];
            let past: u32 = (if v < 0 {
                0
            } else {
                v as u32
            }) + 1;
            assert(coords@.take(i + 1).drop_last() == coords@.take(i as int));
            if size[axis] < past {
                size[axis] = past;
            }
            axis += 1;
        }
        i += 1;
    }
    assert(coords@.take(coords@.len() as int) == coords@);
    size
}

impl BlockGrid {
    /// Build a grid from coordinates and the block ID chosen for each: the
    /// palette is the sorted set of IDs and each position indexes its own.
    pub fn from_names(coords: Vec<[i32; 3]>, names_per_block: &[&str]) -> (res: BlockGrid)
        requires
            names_per_block@.len() == coords@.len(),
            str_views(names_per_block@).to_set().len() <= 65535,
        ensures
            res.wf(),
            res.coords@ == coords@,
            views(res.names@).to_set() == str_views(names_per_block@).to_set(),
            forall|i: int| 0 <= i < coords@.len() ==> res.name_view(i) == (#[trigger] names_per_block@[i])@,
    {
        let ghost input = str_views(names_per_block@);
        let mut unique: Vec<Vec<char>> = Vec::new();
        let mut i: usize = 0;
        while i < names_per_block.len()
            invariant
                i <= names_per_block@.len(),
                input == str_views(names_per_block@),
                strictly_sorted(char_views(unique@)),
                char_views(unique@).to_set() == input.take(i as int).to_set(),
            decreases names_per_block.len() - i,
        {
            let key = chars_of(names_per_block[i]);
            insert_sorted(&mut unique, key);
            i += 1;
            assert(input.take(i as int) == input.take(i - 1).push(input[i - 1]));
            proof {
                input.take(i - 1).lemma_push_to_set_commute(input[i - 1]);
            }
        }
        assert(input.take(input.len() as int) == input);
        proof {
            lemma_strictly_sorted_no_dup(char_views(unique@));
        }
        let mut blocks: Vec<u16> = Vec::new();
        let mut i: usize = 0;
        while i < names_per_block.len()
            invariant
                i <= names_per_block@.len(),
                input == str_views(names_per_block@),
                strictly_sorted(char_views(unique@)),
                char_views(unique@).to_set() == input.to_set(),
                unique@.len() <= 65535,
                blocks@.len() == i,
                forall|j: int| 0 <= j < i ==> (#[trigger] blocks@[j]) < unique@.len() && char_views(unique@)[blocks@[j] as int] == input[j],
            decreases names_per_block.len() - i,
        {
            let key = chars_of(names_per_block[i]);
            assert(input[i as int] == key@);
            assert(input.to_set().contains(key@)) by {
                assert(input[i as int] == key@);
            }
            match search(&unique, key.as_slice()) {
                Ok(k) => {
                    blocks.push(k as u16);
                },
                Err(p) => {
                    proof {
                        let w = choose|w: int| 0 <= w < char_views(unique@).len() && char_views(unique@)[w] == key@;
                        if w < p {
                            lemma_lex_irreflexive(key@);
                        } else {
                            lemma_lex_irreflexive(key@);
                        }
                    }
                    blocks.push(0);
                },
            }
            i += 1;
        }
        let mut names: Vec<String> = Vec::new();
        let mut k: usize = 0;
        while k < unique.len()
            invariant
                k <= unique@.len(),
                views(names@) == char_views(unique@).take(k as int),
            decreases unique.len() - k,
        {
            let ghost prev = names@;
            let s = string_of(unique[k].as_slice());
            names.push(s);
            k += 1;
            assert(names@ == prev.push(s));
            assert(views(names@) =~= views(prev).push(s@));
            assert(char_views(unique@).take(k as int) =~= char_views(unique@).take(k - 1).push(
                unique@[k - 1]@,
            ));
        }
        assert(char_views(unique@).take(unique@.len() as int) == char_views(unique@));
        let size = extent(&coords);
        BlockGrid { size, coords, blocks, names }
    }

    /// Build a grid from coordinates and a palette index per block; several
    /// indices naming the same block collapse to one grid entry.
    pub fn from_indices(coords: Vec<[i32; 3]>, indices: &[u32], palette: &[&str]) -> (res: BlockGrid)
        requires
            indices@.len() == coords@.len(),
            forall|i: int| 0 <= i < indices@.len() ==> (#[trigger] indices@[i]) < palette@.len(),
            str_views(palette@).to_set().len() <= 65535,
        ensures
            res.wf(),
            res.coords@ == coords@,
            views(res.names@).to_set() == indices@.map_values(|i: u32| palette@[i as int]@).to_set(),
            forall|i: int| 0 <= i < coords@.len() ==> res.name_view(i) == palette@[(#[trigger] indices@[i]) as int]@,
    {
        let mut per: Vec<&str> = Vec::new();
        let mut i: usize = 0;
        while i < indices.len()
            invariant
                i <= indices@.len(),
                forall|j: int| 0 <= j < indices@.len() ==> (#[trigger] indices@[j]) < palette@.len(),
                per@.len() == i,
                forall|j: int| 0 <= j < i ==> (#[trigger] per@[j]) == palette@[indices@[j] as int],
            decreases indices.len() - i,
        {
            per.push(palette[indices[i] as usize]);
            i += 1;
        }
        proof {
            assert(str_views(per@) =~= indices@.map_values(|i: u32| palette@[i as int]@));
            assert(str_views(per@).to_set().subset_of(str_views(palette@).to_set())) by {
                assert forall|x: Seq<char>| str_views(per@).to_set().contains(x) implies str_views(palette@).to_set().contains(x) by {
                    let w = choose|w: int| 0 <= w < str_views(per@).len() && str_views(per@)[w] == x;
                    assert(str_views(palette@)[indices@[w] as int] == x);
                }
            }
            vstd::set_lib::lemma_len_subset(str_views(per@).to_set(), str_views(palette@).to_set());
        }
        let res = BlockGrid::from_names(coords, per.as_slice());
        assert forall|i: int| 0 <= i < res.coords@.len() implies res.name_view(i) == palette@[(
        #[trigger] indices@[i]) as int]@ by {
            assert(res.name_view(i) == per@[i]@);
        }
        res
    }

    /// Number of placed blocks.
    pub fn len(&self) -> (res: usize)
        ensures
            res == self.coords@.len(),
    {
        self.coords.len()
    }

    pub fn is_empty(&self) -> (res: bool)
        ensures
            res == (self.coords@.len() == 0),
    {
        self.coords.len() == 0
    }

    /// Volume of the enclosing box.
    pub fn volume(&self) -> (res: u64)
        requires
            self.volume_spec() <= u64::MAX,
        ensures
            res == self.volume_spec(),
    {
        let a = self.size[0] as u64;
        let b = self.size[1] as u64;
        let c = self.size[2] as u64;
        assert(a * b <= a * b * c || c == 0) by (nonlinear_arith);
        if c == 0 {
            assert(a * b * c == 0) by (nonlinear_arith) requires c == 0;
            return 0;
        }
        assert(a * b <= a * b * c) by (nonlinear_arith) requires c >= 1;
        a * b * c
    }

    /// Placed count of each entry of `names`.
    pub fn counts(&self) -> (res: Vec<u64>)
        requires
            self.wf(),
        ensures
            res@.len() == self.names@.len(),
            forall|k: int| 0 <= k < res@.len() ==> #[trigger] res@[k] == count_of(self.blocks@, k),
    {
        let mut counts: Vec<u64> = Vec::new();
        let mut k: usize = 0;
        while k < self.names.len()
            invariant
                k <= self.names@.len(),
                counts@.len() == k,
                forall|j: int| 0 <= j < k ==> #[trigger] counts@[j] == 0,
            decreases self.names.len() - k,
        {
            counts.push(0);
            k += 1;
        }
        let mut i: usize = 0;
        while i < self.blocks.len()
            invariant
                self.wf(),
                i <= self.blocks@.len(),
                counts@.len() == self.names@.len(),
                forall|j: int| 0 <= j < counts@.len() ==> #[trigger] counts@[j] == count_of(self.blocks@.take(i as int), j),
                forall|j: int| 0 <= j < counts@.len() ==> #[trigger] counts@[j] <= i,
            decreases self.blocks.len() - i,
        {
            let b = self.blocks[i] as usize;
            assert(self.blocks@.take(i + 1).drop_last() == self.blocks@.take(i as int));
            let c = counts[b];
            counts.set(b, c + 1);
            i += 1;
        }
        assert(self.blocks@.take(self.blocks@.len() as int) == self.blocks@);
        counts
    }

    /// The block at position `i`, as an ID.
    pub fn name_at(&self, i: usize) -> (res: &str)
        requires
            self.wf(),
            i < self.coords@.len(),
        ensures
            res@ == self.name_view(i as int),
    {
        self.names[self.blocks[i] as usize].as_str()
    }

    /// Material list: every block used and how many, most used first, ties
    /// by name.
    pub fn materials(&self) -> (res: Vec<Material>)
        requires
            self.wf(),
        ensures
            res@.len() == self.names@.len(),
            forall|i: int, j: int| 0 <= i < j < res@.len() ==> material_before(
                material_view(#[trigger] res@[i]),
                material_view(#[trigger] res@[j]),
            ),
            forall|k: int| 0 <= k < self.names@.len() ==> #[trigger] lists_material(
                res@,
                views(self.names@)[k],
                count_of(self.blocks@, k),
            ),
            forall|i: int| 0 <= i < res@.len() ==> #[trigger] palette_material(
                views(self.names@),
                self.blocks@,
                res@[i],
            ),
    {
        let counts = self.counts();
        let n = self.names.len();
        // Names are sorted, so ties broken by name are ties broken by index.
        let order = material_order(&counts);
        let ghost nv = views(self.names@);
        let mut list: Vec<Material> = Vec::new();
        let mut i: usize = 0;
        while i < n
            invariant
                self.wf(),
                nv == views(self.names@),
                n == self.names@.len(),
                n == counts@.len(),
                order@.len() == n,
                forall|j: int| 0 <= j < n ==> #[trigger] counts@[j] == count_of(self.blocks@, j),
                forall|j: int| 0 <= j < order@.len() ==> (#[trigger] order@[j]) < n,
                i <= n,
                list@.len() == i,
                forall|j: int| 0 <= j < i ==> (#[trigger] list@[j]).name@ == nv[order@[j] as int]
                    && list@[j].count == counts@[order@[j] as int],
            decreases n - i,
        {
            let o = order[i];
            list.push(Material { name: self.names[o].clone(), count: counts[o] });
            i += 1;
        }
        proof {
            lemma_materials_sorted(list@, order@, counts@, nv);
            lemma_materials_cover(list@, order@, counts@, nv, self.blocks@);
        }
        list
    }
}

/// The material list is in material order when the indices it was taken
/// from are in count-then-index order and the palette is sorted.
proof fn lemma_materials_sorted(
    list: Seq<Material>,
    order: Seq<usize>,
    counts: Seq<u64>,
    nv: Seq<Seq<char>>,
)
    requires
        strictly_sorted(nv),
        counts.len() == nv.len(),
        order.len() == list.len(),
        forall|j: int| 0 <= j < order.len() ==> (#[trigger] order[j]) < nv.len(),
        forall|i: int, j: int| 0 <= i < j < order.len() ==> index_before(
            counts,
            #[trigger] order[i] as int,
            #[trigger] order[j] as int,
        ),
        forall|j: int| 0 <= j < list.len() ==> (#[trigger] list[j]).name@ == nv[order[j] as int]
            && list[j].count == counts[order[j] as int],
    ensures
        forall|i: int, j: int| 0 <= i < j < list.len() ==> material_before(
            material_view(#[trigger] list[i]),
            material_view(#[trigger] list[j]),
        ),
{
    assert forall|i: int, j: int| 0 <= i < j < list.len() implies material_before(
        material_view(#[trigger] list[i]),
        material_view(#[trigger] list[j]),
    ) by {
        let a = order[i] as int;
        let b = order[j] as int;
        assert(index_before(counts, a, b));
        assert(list[i].name@ == nv[a] && list[j].name@ == nv[b]);
        if counts[a] == counts[b] {
            assert(lex_lt(nv[a], nv[b]));
        }
    }
}

/// Palette indices ordered by count, highest first, ties by index.
fn material_order(counts: &Vec<u64>) -> (order: Vec<usize>)
    ensures
        order@.len() == counts@.len(),
        forall|i: int| 0 <= i < order@.len() ==> (#[trigger] order@[i]) < counts@.len(),
        forall|i: int, j: int| 0 <= i < j < order@.len() ==> index_before(
            counts@,
            #[trigger] order@[i] as int,
            #[trigger] order@[j] as int,
        ),
        forall|j: int| 0 <= j < counts@.len() ==> #[trigger] listed(order@, j),
{
    let n = counts.len();
    let mut order: Vec<usize> = Vec::new();
    let mut k: usize = 0;
    while k < n
        invariant
            n == counts@.len(),
            k <= n,
            order@.len() == k,
            forall|i: int| 0 <= i < order@.len() ==> (#[trigger] order@[i]) < k,
            forall|i: int, j: int| 0 <= i < j < order@.len() ==> index_before(
                counts@,
                #[trigger] order@[i] as int,
                #[trigger] order@[j] as int,
            ),
            forall|j: int| 0 <= j < k ==> #[trigger] listed(order@, j),
        decreases n - k,
    {
        let c = counts[k];
        let mut p: usize = 0;
        while p < order.len() && counts[order[p]] >= c
            invariant
                n == counts@.len(),
                p <= order@.len(),
                forall|i: int| 0 <= i < order@.len() ==> (#[trigger] order@[i]) < k,
                k < n,
                c == counts@[k as int],
                forall|i: int| 0 <= i < p ==> counts@[#[trigger] order@[i] as int] >= c,
            decreases order.len() - p,
        {
            p += 1;
        }
        let ghost before = order@;
        order.insert(p, k);
        proof {
            assert(order@ == before.insert(p as int, k));
            assert forall|i: int, j: int| 0 <= i < j < order@.len() implies index_before(
                counts@,
                #[trigger] order@[i] as int,
                #[trigger] order@[j] as int,
            ) by {
                if j < p {
                    assert(order@[i] == before[i] && order@[j] == before[j]);
                } else if j == p {
                    assert(order@[i] == before[i]);
                } else if i < p {
                    assert(order@[i] == before[i] && order@[j] == before[j - 1]);
                    assert(index_before(counts@, before[i] as int, before[j - 1] as int));
                } else if i == p {
                    assert(order@[j] == before[j - 1]);
                    assert(counts@[before[p as int] as int] < c);
                    if j - 1 > p {
                        assert(index_before(counts@, before[p as int] as int, before[j - 1] as int));
                    }
                } else {
                    assert(order@[i] == before[i - 1] && order@[j] == before[j - 1]);
                }
            }
            assert forall|j: int| 0 <= j < k + 1 implies #[trigger] listed(order@, j) by {
                if j == k {
                    assert(order@[p as int] == j);
                } else {
                    assert(listed(before, j));
                    let w = choose|i: int| 0 <= i < before.len() && before[i] == j;
                    if w < p {
                        assert(order@[w] == j);
                    } else {
                        assert(order@[w + 1] == j);
                    }
                }
            }
        }
        k += 1;
    }
    order
}

/// Every palette entry is listed with its count, and nothing else is.
proof fn lemma_materials_cover(
    list: Seq<Material>,
    order: Seq<usize>,
    counts: Seq<u64>,
    nv: Seq<Seq<char>>,
    blocks: Seq<u16>,
)
    requires
        counts.len() == nv.len(),
        order.len() == list.len(),
        forall|j: int| 0 <= j < nv.len() ==> #[trigger] counts[j] == count_of(blocks, j),
        forall|j: int| 0 <= j < order.len() ==> (#[trigger] order[j]) < nv.len(),
        forall|j: int| 0 <= j < nv.len() ==> #[trigger] listed(order, j),
        forall|j: int| 0 <= j < list.len() ==> (#[trigger] list[j]).name@ == nv[order[j] as int]
            && list[j].count == counts[order[j] as int],
    ensures
        forall|k: int| 0 <= k < nv.len() ==> #[trigger] lists_material(list, nv[k], count_of(blocks, k)),
        forall|i: int| 0 <= i < list.len() ==> #[trigger] palette_material(nv, blocks, list[i]),
{
    assert forall|k: int| 0 <= k < nv.len() implies #[trigger] lists_material(
        list,
        nv[k],
        count_of(blocks, k),
    ) by {
        assert(listed(order, k));
        let w = choose|i: int| 0 <= i < order.len() && order[i] == k;
        assert(list[w].name@ == nv[k] && list[w].count == counts[k]);
    }
    assert forall|i: int| 0 <= i < list.len() implies #[trigger] palette_material(nv, blocks, list[i]) by {
        let k = order[i] as int;
        assert(list[i].name@ == nv[k] && list[i].count == counts[k]);
    }
}

/// Some entry of `list` is `name` with `count`.
pub open spec fn lists_material(list: Seq<Material>, name: Seq<char>, count: nat) -> bool {
    exists|i: int| 0 <= i < list.len() && list[i].name@ == name && list[i].count == count
}

/// `m` is some palette entry with its count.
pub open spec fn palette_material(names: Seq<Seq<char>>, blocks: Seq<u16>, m: Material) -> bool {
    exists|k: int| 0 <= k < names.len() && m.name@ == names[k] && m.count == count_of(blocks, k)
}

/// `j` occurs in `order`.
pub open spec fn listed(order: Seq<usize>, j: int) -> bool {
    exists|i: int| 0 <= i < order.len() && order[i] == j
}

/// Insertion-sort order of palette indices: higher count first, then lower
/// index.
pub open spec fn index_before(counts: Seq<u64>, a: int, b: int) -> bool {
    counts[a] > counts[b] || (counts[a] == counts[b] && a < b)
}

} // verus!
