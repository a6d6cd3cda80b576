//! Block textures for the web UI's preview, out of the user's own
//! Minecraft: a client jar (an ordinary zip) read through its central
//! directory, stored or deflated entries, and the newest release jar the
//! launchers keep.
use vstd::prelude::*;
use crate::text::{concat3, parse_u32, push_char, split_parts, str_eq, unsigned_value};

verus! {

/// Texture names are file stems: lowercase letters, digits and underscores,
/// at most 64 of them.
pub open spec fn stem_char(c: char) -> bool {
    ('a' <= c && c <= 'z') || ('0' <= c && c <= '9') || c == '_'
}

pub open spec fn valid_stem(name: Seq<char>) -> bool {
    0 < name.len() <= 64 && forall|i: int| 0 <= i < name.len() ==> stem_char(#[trigger] name[i])
}

/// Whether `name` is a texture name.
pub fn valid_name(name: &str) -> (res: bool)
    ensures
        res == valid_stem(name@),
{
    let n = name.unicode_len();
    if n == 0 || n > 64 {
        return false;
    }
    let mut i: usize = 0;
    while i < n
        invariant
            n == name@.len(),
            i <= n,
            forall|j: int| 0 <= j < i ==> stem_char(#[trigger] name@[j]),
        decreases n - i,
    {
        let c = name.get_char(i);
        if !(('a' <= c && c <= 'z') || ('0' <= c && c <= '9') || c == '_') {
            return false;
        }
        i += 1;
    }
    true
}

// ── A minimal zip reader ─────────────────────────────────────────────────

/// One entry of a zip's central directory.
#[derive(Debug, Clone, Copy, PartialEq, Eq, Structural)]
pub struct ZipEntry {
    pub method: u16,
    pub compressed: u64,
    pub size: u64,
    pub header_offset: u64,
}

pub open spec fn le16(b: Seq<u8>, at: int) -> u16 {
    (b[at] as u16) | ((b[at + 1] as u16) << 8u16)
}

pub open spec fn le32(b: Seq<u8>, at: int) -> u32 {
    (b[at] as u32) | ((b[at + 1] as u32) << 8u32) | ((b[at + 2] as u32) << 16u32) | ((b[at + 3]
        as u32) << 24u32)
}

fn le16_of(b: &[u8], at: usize) -> (res: u16)
    requires
        at + 2 <= b@.len(),
    ensures
        res == le16(b@, at as int),
{
    (b[at] as u16) | ((b[at + 1] as u16) << 8)
}

fn le32_of(b: &[u8], at: usize) -> (res: u32)
    requires
        at + 4 <= b@.len(),
    ensures
        res == le32(b@, at as int),
{
    (b[at] as u32) | ((b[at + 1] as u32) << 8) | ((b[at + 2] as u32) << 16) | ((b[at + 3] as u32)
        << 24)
}

/// The end-of-central-directory signature starts at `i`, with the whole
/// 22-byte record in `tail`.
pub open spec fn eocd_at(tail: Seq<u8>, i: int) -> bool {
    0 <= i && i + 22 <= tail.len() && le32(tail, i) == 0x0605_4b50
}

/// How many bytes at the end of a file of `len` bytes can hold the
/// end-of-central-directory record: its 22 bytes and a comment of at most
/// 65535.
pub fn tail_len(len: u64) -> (res: u64)
    ensures
        res == if len < 22 + 65535 {
            len
        } else {
            65557u64
        },
{
    if len < 22 + 65535 {
        len
    } else {
        22 + 65535
    }
}

/// Where a zip's central directory lies, from the last bytes of the file
/// (`tail`, the end of a file of `len` bytes): the last end record in
/// `tail`, and the directory's offset and size from it, which must lie
/// within the file.
pub open spec fn directory_of(tail: Seq<u8>, len: u64) -> Result<(u64, u64), Seq<char>> {
    if exists|i: int| eocd_at(tail, i) {
        let i = choose|i: int| eocd_at(tail, i) && forall|j: int| i < j ==> !eocd_at(tail, j);
        let size = le32(tail, i + 12) as u64;
        let offset = le32(tail, i + 16) as u64;
        if offset + size > len {
            Err("not a readable jar or zip: central directory out of range"@)
        } else {
            Ok((offset, size))
        }
    } else {
        Err("not a readable jar or zip: no end of central directory"@)
    }
}

/// Where the central directory lies: its offset and size.
pub fn locate_directory(tail: &[u8], len: u64) -> (res: Result<(u64, u64), String>)
    ensures
        match directory_of(tail@, len) {
            Ok(d) => res == Ok::<(u64, u64), String>(d),
            Err(e) => res matches Err(s) && s@ == e,
        },
{
    let n = tail.len();
    if n < 22 {
        assert(!exists|i: int| eocd_at(tail@, i));
        return Err("not a readable jar or zip: no end of central directory".to_owned());
    }
    let mut i: usize = n - 22 + 1;
    while i > 0
        invariant
            n == tail@.len(),
            n >= 22,
            i <= n - 21,
            forall|j: int| i <= j ==> !eocd_at(tail@, j),
        decreases i,
    {
        i -= 1;
        if le32_of(tail, i) == 0x0605_4b50 {
            assert(eocd_at(tail@, i as int));
            let ghost c = choose|c: int| eocd_at(tail@, c) && forall|j: int| c < j ==> !eocd_at(tail@, j);
            assert(c == i) by {
                assert(eocd_at(tail@, i as int) && forall|j: int| i < j ==> !eocd_at(tail@, j));
                if c < i {
                } else if c > i {
                }
            }
            let size = le32_of(tail, i + 12) as u64;
            let offset = le32_of(tail, i + 16) as u64;
            if offset + size > len {
                return Err("not a readable jar or zip: central directory out of range".to_owned());
            }
            return Ok((offset, size));
        }
    }
    Err("not a readable jar or zip: no end of central directory".to_owned())
}

/// The entry described at `at` of a central directory.
pub open spec fn entry_at(dir: Seq<u8>, at: int) -> ZipEntry {
    ZipEntry {
        method: le16(dir, at + 10),
        compressed: le32(dir, at + 20) as u64,
        size: le32(dir, at + 24) as u64,
        header_offset: le32(dir, at + 42) as u64,
    }
}

/// The entries of a central directory from `at` on: each file's name bytes
/// and entry, until a record that does not start with the signature; `None`
/// where a name runs past the end.
pub open spec fn entries_from(dir: Seq<u8>, at: int) -> Option<Seq<(Seq<u8>, ZipEntry)>>
    decreases dir.len() - at,
{
    if at < 0 || at + 46 > dir.len() || le32(dir, at) != 0x0201_4b50 {
        Some(seq![])
    } else {
        let name_end = at + 46 + le16(dir, at + 28);
        if name_end > dir.len() {
            None
        } else {
            let next = name_end + le16(dir, at + 30) + le16(dir, at + 32);
            let here = (dir.subrange(at + 46, name_end), entry_at(dir, at));
            if next > dir.len() {
                Some(seq![here])
            } else {
                match entries_from(dir, next) {
                    Some(rest) => Some(seq![here] + rest),
                    None => None,
                }
            }
        }
    }
}

/// Where block textures sit inside a jar or resource pack.
pub open spec fn block_dir() -> Seq<u8> {
    seq![
        97u8, 115, 115, 101, 116, 115, 47, 109, 105, 110, 101, 99, 114, 97, 102, 116, 47, 116, 101,
        120, 116, 117, 114, 101, 115, 47, 98, 108, 111, 99, 107, 47,
    ]
}

/// The texture name a file of the jar is for: the stem of a `.png` right in
/// the block folder, when it is a texture name.
pub open spec fn texture_of(name: Seq<u8>) -> Option<Seq<char>> {
    let pre = block_dir();
    let suf = seq![0x2eu8, 0x70u8, 0x6eu8, 0x67u8];
    if name.len() >= pre.len() + suf.len() && name.take(pre.len() as int) == pre && name.skip(
        name.len() - 4,
    ) == suf && valid_stem(
        name.subrange(pre.len() as int, name.len() - 4).map_values(|b: u8| b as char),
    ) {
        Some(name.subrange(pre.len() as int, name.len() - 4).map_values(|b: u8| b as char))
    } else {
        None
    }
}

/// Where `t` first appears as a name in `acc`.
pub open spec fn name_pos(acc: Seq<(Seq<char>, ZipEntry)>, t: Seq<char>) -> Option<int>
    decreases acc.len(),
{
    if acc.len() == 0 {
        None
    } else {
        match name_pos(acc.drop_last(), t) {
            Some(i) => Some(i),
            None => if acc.last().0 == t {
                Some(acc.len() - 1)
            } else {
                None
            },
        }
    }
}

/// A found position is in range and holds the name.
pub proof fn lemma_name_pos(acc: Seq<(Seq<char>, ZipEntry)>, t: Seq<char>)
    ensures
        name_pos(acc, t) matches Some(i) ==> 0 <= i < acc.len() && acc[i].0 == t,
    decreases acc.len(),
{
    if acc.len() > 0 {
        lemma_name_pos(acc.drop_last(), t);
    }
}

/// `acc` with texture `t` set to `e`: replaced where it is already listed,
/// added at the end where it is not.
pub open spec fn put_texture(acc: Seq<(Seq<char>, ZipEntry)>, t: Seq<char>, e: ZipEntry) -> Seq<
    (Seq<char>, ZipEntry),
> {
    match name_pos(acc, t) {
        Some(i) => acc.update(i, (t, e)),
        None => acc.push((t, e)),
    }
}

/// The block textures among a directory's entries, each name once, in the
/// order each first appears, with the entry that appears last for it.
pub open spec fn textures_in(entries: Seq<(Seq<u8>, ZipEntry)>) -> Seq<(Seq<char>, ZipEntry)>
    decreases entries.len(),
{
    if entries.len() == 0 {
        seq![]
    } else {
        let rest = textures_in(entries.drop_last());
        match texture_of(entries.last().0) {
            Some(t) => put_texture(rest, t, entries.last().1),
            None => rest,
        }
    }
}

/// What a jar's central directory offers: its block textures, or why it
/// offers none.
pub open spec fn texture_index_of(dir: Seq<u8>) -> Result<Seq<(Seq<char>, ZipEntry)>, Seq<char>> {
    match entries_from(dir, 0) {
        None => Err("not a readable jar or zip: truncated central directory"@),
        Some(es) => if textures_in(es).len() == 0 {
            Err("it has no block textures"@)
        } else {
            Ok(textures_in(es))
        },
    }
}

pub open spec fn texture_views(v: Seq<(String, ZipEntry)>) -> Seq<(Seq<char>, ZipEntry)> {
    v.map_values(|p: (String, ZipEntry)| (p.0@, p.1))
}

/// The first place `t` is listed in `list`.
fn texture_pos(list: &Vec<(String, ZipEntry)>, t: &str) -> (res: Option<usize>)
    ensures
        match name_pos(texture_views(list@), t@) {
            Some(i) => res == Some(i as usize),
            None => res is None,
        },
{
    let ghost vs = texture_views(list@);
    let mut found: Option<usize> = None;
    let mut i: usize = 0;
    while i < list.len()
        invariant
            vs == texture_views(list@),
            i <= list.len(),
            match name_pos(vs.take(i as int), t@) {
                Some(k) => found == Some(k as usize),
                None => found is None,
            },
        decreases list.len() - i,
    {
        assert(vs.take(i + 1).drop_last() =~= vs.take(i as int));
        assert(vs.take(i + 1).last() == vs[i as int]);
        if found.is_none() && str_eq(list[i].0.as_str(), t) {
            found = Some(i);
        }
        i += 1;
    }
    assert(vs.take(list.len() as int) =~= vs);
    found
}

/// The texture name `dir[from..to]` is the file name of, if any.
fn texture_name_at(dir: &[u8], from: usize, to: usize) -> (res: Option<String>)
    requires
        from <= to <= dir@.len(),
    ensures
        match texture_of(dir@.subrange(from as int, to as int)) {
            Some(t) => res matches Some(s) && s@ == t,
            None => res is None,
        },
{
    let ghost name = dir@.subrange(from as int, to as int);
    let pre: [u8; 32] = [
        97u8, 115, 115, 101, 116, 115, 47, 109, 105, 110, 101, 99, 114, 97, 102, 116, 47, 116, 101,
        120, 116, 117, 114, 101, 115, 47, 98, 108, 111, 99, 107, 47,
    ];
    assert(pre@ =~= block_dir());
    if to - from < 36 {
        return None;
    }
    let mut i: usize = 0;
    while i < 32
        invariant
            name == dir@.subrange(from as int, to as int),
            pre@ == block_dir(),
            from + 36 <= to <= dir@.len(),
            i <= 32,
            forall|j: int| 0 <= j < i ==> name[j] == block_dir()[j],
        decreases 32 - i,
    {
        if dir[from + i] != pre[i] {
            assert(name.take(32)[i as int] != block_dir()[i as int]);
            return None;
        }
        i += 1;
    }
    assert(name.take(32) =~= block_dir());
    let suf_ok = dir[to - 4] == 0x2e && dir[to - 3] == 0x70 && dir[to - 2] == 0x6e && dir[to - 1]
        == 0x67;
    if !suf_ok {
        assert(name.skip(name.len() - 4)[0] == dir@[to - 4]);
        assert(name.skip(name.len() - 4)[1] == dir@[to - 3]);
        assert(name.skip(name.len() - 4)[2] == dir@[to - 2]);
        assert(name.skip(name.len() - 4)[3] == dir@[to - 1]);
        return None;
    }
    assert(name.skip(name.len() - 4) =~= seq![0x2eu8, 0x70u8, 0x6eu8, 0x67u8]);
    let ghost stem = name.subrange(32, name.len() - 4).map_values(|b: u8| b as char);
    let n = to - 4 - (from + 32);
    if n == 0 || n > 64 {
        return None;
    }
    let mut out = String::new();
    let mut k: usize = 0;
    while k < n
        invariant
            name == dir@.subrange(from as int, to as int),
            stem == name.subrange(32, name.len() - 4).map_values(|b: u8| b as char),
            n == to - 4 - (from + 32),
            from + 36 <= to <= dir@.len(),
            stem.len() == n,
            k <= n,
            out@ == stem.take(k as int),
            forall|j: int| 0 <= j < k ==> stem_char(#[trigger] stem[j]),
        decreases n - k,
    {
        let c = dir[from + 32 + k] as char;
        assert(stem[k as int] == c);
        if !(('a' <= c && c <= 'z') || ('0' <= c && c <= '9') || c == '_') {
            return None;
        }
        push_char(&mut out, c);
        k += 1;
        assert(stem.take(k as int) =~= stem.take(k - 1).push(c));
    }
    assert(stem.take(n as int) =~= stem);
    Some(out)
}

/// The block textures a jar's central directory lists, each name once.
pub fn texture_index(dir: &[u8]) -> (res: Result<Vec<(String, ZipEntry)>, String>)
    ensures
        match texture_index_of(dir@) {
            Ok(t) => res matches Ok(v) && texture_views(v@) == t,
            Err(e) => res matches Err(s) && s@ == e,
        },
{
    let len = dir.len();
    let mut out: Vec<(String, ZipEntry)> = Vec::new();
    let ghost mut seen: Seq<(Seq<u8>, ZipEntry)> = seq![];
    let mut at: usize = 0;
    let mut done = false;
    while !done && len - at >= 46 && le32_of(dir, at) == 0x0201_4b50
        invariant
            len == dir@.len(),
            at <= len,
            texture_views(out@) == textures_in(seen),
            done ==> entries_from(dir@, 0) == Some(seen),
            !done ==> entries_from(dir@, 0) == match entries_from(dir@, at as int) {
                Some(r) => Some(seen + r),
                None => None::<Seq<(Seq<u8>, ZipEntry)>>,
            },
        decreases len - at, if done {
            0int
        } else {
            1int
        },
    {
        let name_len = le16_of(dir, at + 28) as usize;
        let extra_len = le16_of(dir, at + 30) as usize;
        let comment_len = le16_of(dir, at + 32) as usize;
        if name_len > len - at - 46 {
            return Err("not a readable jar or zip: truncated central directory".to_owned());
        }
        let name_end = at + 46 + name_len;
        let entry = ZipEntry {
            method: le16_of(dir, at + 10),
            compressed: le32_of(dir, at + 20) as u64,
            size: le32_of(dir, at + 24) as u64,
            header_offset: le32_of(dir, at + 42) as u64,
        };
        let ghost here = (dir@.subrange(at + 46, name_end as int), entry);
        assert(entry == entry_at(dir@, at as int));
        let tex = texture_name_at(dir, at + 46, name_end);
        proof {
            assert((seen.push(here)).drop_last() =~= seen);
        }
        match tex {
            Some(t) => {
                let pos = texture_pos(&out, t.as_str());
                let ghost before = texture_views(out@);
                proof {
                    lemma_name_pos(before, t@);
                }
                match pos {
                    Some(i) => {
                        let ghost tv = t@;
                        let ghost k = name_pos(before, tv)->0;
                        assert(0 <= k < before.len());
                        assert(before.len() == out.len());
                        assert(pos == Some(k as usize));
                        assert(name_pos(before, tv) == Some(i as int));
                        out.set(i, (t, entry));
                        assert(texture_views(out@) =~= before.update(i as int, (tv, entry)));
                        assert(texture_of(here.0) == Some(tv));
                        assert(put_texture(before, tv, entry) == before.update(i as int, (tv, entry)));
                    },
                    None => {
                        out.push((t, entry));
                        assert(texture_views(out@) =~= before.push((t@, entry)));
                    },
                }
                assert(texture_views(out@) == textures_in(seen.push(here)));
            },
            None => {
                assert(texture_views(out@) == textures_in(seen.push(here)));
            },
        }
        proof {
            let r = entries_from(dir@, at as int);
            if r is Some {
                assert(seen + r.unwrap() =~= seen.push(here) + entries_from(
                    dir@,
                    (name_end + extra_len + comment_len) as int,
                ).unwrap()) by {
                    if name_end + extra_len + comment_len <= len {
                        assert(r.unwrap() =~= seq![here] + entries_from(
                            dir@,
                            (name_end + extra_len + comment_len) as int,
                        ).unwrap());
                    }
                }
            }
            seen = seen.push(here);
        }
        if extra_len + comment_len > len - name_end {
            done = true;
        } else {
            at = name_end + extra_len + comment_len;
        }
    }
    if out.len() == 0 {
        return Err("it has no block textures".to_owned());
    }
    Ok(out)
}

/// The entry of texture `name`: none for a name that is no texture name,
/// else the one the index lists for it.
pub fn find_texture(index: &Vec<(String, ZipEntry)>, name: &str) -> (res: Option<ZipEntry>)
    ensures
        !valid_stem(name@) ==> res is None,
        valid_stem(name@) ==> match name_pos(texture_views(index@), name@) {
            Some(i) => res == Some(index@[i].1),
            None => res is None,
        },
{
    if !valid_name(name) {
        return None;
    }
    let ghost vs = texture_views(index@);
    proof {
        lemma_name_pos(vs, name@);
    }
    match texture_pos(index, name) {
        Some(i) => {
            let ghost k = name_pos(vs, name@)->0;
            assert(0 <= k < vs.len() && vs.len() == index.len());
            assert(k == i);
            Some(index[i].1)
        },
        None => None,
    }
}

// ── Reading one entry ────────────────────────────────────────────────────

/// Textures are small: an entry that claims more than 16 MiB, packed or
/// unpacked, is not one.
pub open spec fn entry_fits(e: ZipEntry) -> bool {
    e.size <= 16 * 1024 * 1024 && e.compressed <= 16 * 1024 * 1024
}

/// Refuses an entry too large to be a texture.
pub fn check_entry(e: &ZipEntry) -> (res: Result<(), String>)
    ensures
        entry_fits(*e) ==> res is Ok,
        !entry_fits(*e) ==> (res matches Err(s) && s@ == "entry too large"@),
{
    if e.size > 16777216 || e.compressed > 16777216 {
        return Err("entry too large".to_owned());
    }
    Ok(())
}

/// How many bytes of name and extra field follow a local file header
/// before the entry's data; `None` where the header's signature is wrong.
pub open spec fn local_skip(header: Seq<u8>) -> Option<u64> {
    if le32(header, 0) != 0x0403_4b50 {
        None
    } else {
        Some((le16(header, 26) + le16(header, 28)) as u64)
    }
}

/// The bytes between the 30-byte local `header` and the entry's data.
pub fn data_skip(header: &[u8]) -> (res: Result<u64, String>)
    requires
        header@.len() == 30,
    ensures
        match local_skip(header@) {
            Some(n) => res == Ok::<u64, String>(n),
            None => res matches Err(s) && s@ == "bad local header"@,
        },
{
    if le32_of(header, 0) != 0x0403_4b50 {
        return Err("bad local header".to_owned());
    }
    Ok(le16_of(header, 26) as u64 + le16_of(header, 28) as u64)
}

/// What `flate2::read::DeflateDecoder` yields for the raw deflate stream
/// `data` when at most `limit` bytes are read: `None` where it reports an
/// error.
pub uninterp spec fn inflate_of(data: Seq<u8>, limit: u64) -> Option<Seq<u8>>;

/// Inflates a raw deflate stream with `flate2::read::DeflateDecoder`,
/// reading at most `limit` bytes (`Read::take`). The result is named by
/// `inflate_of`; what is stated of it is the bound `take` puts on its
/// length. On an error the text is the decoder's own, which is not stated.
#[verifier::external_body]
fn inflate(data: &[u8], limit: u64) -> (res: Result<Vec<u8>, String>)
    ensures
        res is Ok == inflate_of(data@, limit) is Some,
        res matches Ok(v) ==> inflate_of(data@, limit) == Some(v@) && v@.len() <= limit,
{
    let mut out = Vec::new();
    match std::io::Read::read_to_end(
        &mut std::io::Read::take(flate2::read::DeflateDecoder::new(data), limit),
        &mut out,
    ) {
        Ok(_) => Ok(out),
        Err(e) => Err(e.to_string()),
    }
}

/// What an entry's data holds once unpacked: stored as is, or deflated up
/// to the size the directory gives; `None` for any other method or a
/// stream that does not inflate.
pub open spec fn unpacked(e: ZipEntry, data: Seq<u8>) -> Option<Seq<u8>> {
    if e.method == 0 {
        Some(data)
    } else if e.method == 8 {
        inflate_of(data, e.size)
    } else {
        None
    }
}

/// The contents of entry `e` from its packed `data`.
pub fn unpack(e: &ZipEntry, data: Vec<u8>) -> (res: Result<Vec<u8>, String>)
    ensures
        res is Ok == unpacked(*e, data@) is Some,
        res matches Ok(v) ==> unpacked(*e, data@) == Some(v@),
        e.method != 0 && e.method != 8 ==> (res matches Err(s) && s@ == "unsupported compression"@),
{
    if e.method == 0 {
        Ok(data)
    } else if e.method == 8 {
        inflate(data.as_slice(), e.size)
    } else {
        Err("unsupported compression".to_owned())
    }
}

// ── Finding a client jar ─────────────────────────────────────────────────

/// A plain release version: digits and dots only.
pub open spec fn is_release(v: Seq<char>) -> bool {
    v.len() > 0 && forall|i: int| 0 <= i < v.len() ==> (('0' <= #[trigger] v[i] && v[i] <= '9')
        || v[i] == '.')
}

/// Whether a version folder's name is a plain release.
pub fn release_version(v: &str) -> (res: bool)
    ensures
        res == is_release(v@),
{
    let n = v.unicode_len();
    if n == 0 {
        return false;
    }
    let mut i: usize = 0;
    while i < n
        invariant
            n == v@.len(),
            i <= n,
            forall|j: int| 0 <= j < i ==> (('0' <= #[trigger] v@[j] && v@[j] <= '9') || v@[j]
                == '.'),
        decreases n - i,
    {
        let c = v.get_char(i);
        if !(('0' <= c && c <= '9') || c == '.') {
            return false;
        }
        i += 1;
    }
    true
}

/// The file a launcher keeps for `version`: `<v>.jar` in a version folder,
/// or `minecraft-<v>-client.jar` among the libraries.
pub fn jar_name(version: &str, library: bool) -> (res: String)
    ensures
        res@ == if library {
            "minecraft-"@ + version@ + "-client.jar"@
        } else {
            version@ + ".jar"@ + ""@
        },
{
    if library {
        concat3("minecraft-", version, "-client.jar")
    } else {
        concat3(version, ".jar", "")
    }
}

/// A piece's number, where `str::parse::<u32>` reads one.
pub open spec fn part_value(p: Seq<char>) -> Option<u32> {
    match unsigned_value(p) {
        Some(n) => if n <= u32::MAX {
            Some(n as u32)
        } else {
            None
        },
        None => None,
    }
}

/// The numbers among `parts`, in order.
pub open spec fn part_values(parts: Seq<Seq<char>>) -> Seq<u32>
    decreases parts.len(),
{
    if parts.len() == 0 {
        seq![]
    } else {
        let rest = part_values(parts.drop_last());
        match part_value(parts.last()) {
            Some(n) => rest.push(n),
            None => rest,
        }
    }
}

/// What versions are ordered by: the numbers between the dots.
pub open spec fn version_key(v: Seq<char>) -> Seq<u32> {
    part_values(split_parts(v, '.'))
}

fn push_part_value(out: &mut Vec<u32>, part: &String)
    ensures
        final(out)@ == match part_value(part@) {
            Some(n) => old(out)@.push(n),
            None => old(out)@,
        },
{
    match parse_u32(part.as_str()) {
        Some(n) => out.push(n),
        None => {},
    }
}

/// The numbers of version `v`, in order.
pub fn version_numbers(v: &str) -> (res: Vec<u32>)
    ensures
        res@ == version_key(v@),
{
    let n = v.unicode_len();
    let mut out: Vec<u32> = Vec::new();
    let mut cur = String::new();
    let ghost mut done: Seq<Seq<char>> = seq![];
    let mut i: usize = 0;
    while i < n
        invariant
            n == v@.len(),
            i <= n,
            split_parts(v@.take(i as int), '.') == done.push(cur@),
            out@ == part_values(done),
        decreases n - i,
    {
        let c = v.get_char(i);
        assert(v@.take(i + 1).drop_last() =~= v@.take(i as int));
        if c == '.' {
            push_part_value(&mut out, &cur);
            proof {
                assert(done.push(cur@).drop_last() =~= done);
                done = done.push(cur@);
            }
            cur = String::new();
            assert(split_parts(v@.take(i + 1), '.') =~= done.push(cur@));
        } else {
            let ghost before = cur@;
            push_char(&mut cur, c);
            assert(split_parts(v@.take(i + 1), '.') =~= done.push(cur@));
        }
        i += 1;
    }
    assert(v@.take(n as int) =~= v@);
    push_part_value(&mut out, &cur);
    assert(done.push(cur@).drop_last() =~= done);
    out
}

/// `a` sorts before `b`, as `Vec<u32>` compares: by the first number that
/// differs, and a proper prefix first.
pub open spec fn key_less(a: Seq<u32>, b: Seq<u32>) -> bool
    decreases a.len(),
{
    if b.len() == 0 {
        false
    } else if a.len() == 0 {
        true
    } else if a[0] < b[0] {
        true
    } else if a[0] > b[0] {
        false
    } else {
        key_less(a.drop_first(), b.drop_first())
    }
}

/// No key sorts before itself.
pub proof fn lemma_key_less_irreflexive(a: Seq<u32>)
    ensures
        !key_less(a, a),
    decreases a.len(),
{
    if a.len() > 0 {
        lemma_key_less_irreflexive(a.drop_first());
    }
}

/// Of two different keys, one sorts before the other.
pub proof fn lemma_key_less_total(a: Seq<u32>, b: Seq<u32>)
    ensures
        a == b || key_less(a, b) || key_less(b, a),
    decreases a.len(),
{
    if a.len() > 0 && b.len() > 0 && a[0] == b[0] {
        lemma_key_less_total(a.drop_first(), b.drop_first());
        if a.drop_first() == b.drop_first() {
            assert(a =~= seq![a[0]] + a.drop_first());
            assert(b =~= seq![b[0]] + b.drop_first());
        }
    } else if a.len() == 0 && b.len() == 0 {
        assert(a =~= b);
    }
}

/// Sorting before is transitive.
pub proof fn lemma_key_less_transitive(a: Seq<u32>, b: Seq<u32>, c: Seq<u32>)
    requires
        key_less(a, b),
        key_less(b, c),
    ensures
        key_less(a, c),
    decreases a.len(),
{
    if a.len() > 0 && b.len() > 0 && c.len() > 0 && a[0] == b[0] && b[0] == c[0] {
        lemma_key_less_transitive(a.drop_first(), b.drop_first(), c.drop_first());
    }
}

fn key_less_exec(a: &Vec<u32>, b: &Vec<u32>) -> (res: bool)
    ensures
        res == key_less(a@, b@),
{
    let mut i: usize = 0;
    assert(a@.skip(0) =~= a@);
    assert(b@.skip(0) =~= b@);
    while i < a.len() && i < b.len()
        invariant
            i <= a@.len(),
            i <= b@.len(),
            key_less(a@, b@) == key_less(a@.skip(i as int), b@.skip(i as int)),
        decreases a.len() - i,
    {
        if a[i] < b[i] {
            return true;
        }
        if a[i] > b[i] {
            return false;
        }
        assert(a@.skip(i as int).drop_first() =~= a@.skip(i + 1));
        assert(b@.skip(i as int).drop_first() =~= b@.skip(i + 1));
        i += 1;
    }
    i == a.len() && i < b.len()
}

/// Which of `versions` is the newest: the greatest by its numbers, the last
/// of them where several tie, as `Iterator::max_by` picks.
pub fn newest(versions: &Vec<String>) -> (res: Option<usize>)
    ensures
        res is None <==> versions@.len() == 0,
        res matches Some(i) ==> i < versions@.len() && (forall|k: int|
            0 <= k < versions@.len() ==> !key_less(
                version_key(versions@[i as int]@),
                version_key(#[trigger] versions@[k]@),
            )) && (forall|k: int|
            i < k < versions@.len() ==> key_less(
                version_key(#[trigger] versions@[k]@),
                version_key(versions@[i as int]@),
            )),
{
    if versions.len() == 0 {
        return None;
    }
    let mut best: usize = 0;
    let mut best_key = version_numbers(versions[0].as_str());
    let mut j: usize = 1;
    proof {
        lemma_key_less_irreflexive(best_key@);
    }
    while j < versions.len()
        invariant
            0 < j <= versions@.len(),
            best < j,
            best_key@ == version_key(versions@[best as int]@),
            forall|k: int| 0 <= k < j ==> !key_less(best_key@, version_key(#[trigger] versions@[k]@)),
            forall|k: int|
                best < k < j ==> key_less(version_key(#[trigger] versions@[k]@), best_key@),
        decreases versions.len() - j,
    {
        let key = version_numbers(versions[j].as_str());
        if !key_less_exec(&key, &best_key) {
            proof {
                lemma_key_less_irreflexive(key@);
                assert forall|k: int| 0 <= k < j + 1 implies !key_less(
                    key@,
                    version_key(#[trigger] versions@[k]@),
                ) by {
                    if k < j {
                        let kk = version_key(versions@[k]@);
                        if key_less(key@, kk) {
                            lemma_key_less_total(key@, best_key@);
                            if key_less(best_key@, key@) {
                                lemma_key_less_transitive(best_key@, key@, kk);
                            }
                        }
                    }
                }
            }
            best = j;
            best_key = key;
        } else {
            proof {
                assert forall|k: int| 0 <= k < j + 1 implies !key_less(
                    best_key@,
                    version_key(#[trigger] versions@[k]@),
                ) by {
                    if k == j {
                        lemma_key_less_irreflexive(key@);
                        if key_less(best_key@, key@) {
                            lemma_key_less_transitive(best_key@, key@, best_key@);
                            lemma_key_less_irreflexive(best_key@);
                        }
                    }
                }
            }
        }
        j += 1;
    }
    Some(best)
}

} // verus!
