//! Setting rules the command line, the HTTP API and the web UI share.
use vstd::prelude::*;
use crate::error::Error;
use crate::text::{
    ascii_lowercase, chars_of, control, is_ascii_alphanumeric, is_control, push_char, str_eq,
    string_of, to_ascii_lower, trim, trimmed,
};

verus! {

/// Block placed everywhere when color sampling is off.
pub const DEFAULT_BLOCK: &'static str = "minecraft:white_concrete";

/// Inclusive range of an integer setting.
#[derive(Debug, Clone, Copy)]
pub struct IntRange {
    pub min: u32,
    pub max: u32,
}

/// The accepted range of the longest side, in blocks.
pub open spec fn max_size_range() -> (u32, u32) {
    (1, 2048)
}

/// The range a front end clamps the longest side to.
pub fn max_size_limits() -> (res: IntRange)
    ensures
        (res.min, res.max) == max_size_range(),
{
    IntRange { min: 1, max: 2048 }
}

/// Characters a block ID's namespace may hold.
pub open spec fn namespace_char(c: char) -> bool {
    is_ascii_alphanumeric(c) || c == '_' || c == '-' || c == '.'
}

/// Characters a block ID's path may hold.
pub open spec fn path_char(c: char) -> bool {
    namespace_char(c) || c == '/'
}

/// A `namespace:path` ID, split at its first colon, with both halves
/// non-empty and made of the characters they allow.
pub open spec fn valid_block_id(id: Seq<char>) -> bool {
    exists|k: int|
        #![trigger id[k]]
        0 < k < id.len() - 1 && id[k] == ':' && (forall|j: int| 0 <= j < k ==> id[j] != ':')
            && (forall|j: int| 0 <= j < k ==> namespace_char(#[trigger] id[j])) && (forall|j: int|
            k < j < id.len() ==> path_char(#[trigger] id[j]))
}

/// What a user typed turned into a full ID, before it is validated: the
/// web UI's short names, a bare ID gets the `minecraft:` namespace, and the
/// ID is lowercased.
pub open spec fn block_id_candidate(raw: Seq<char>) -> Seq<char> {
    let t = trimmed(raw);
    if t == Seq::<char>::empty() || t == "white"@ {
        "minecraft:white_concrete"@
    } else if t == "netherrack"@ {
        "minecraft:netherrack"@
    } else if t.contains(':') {
        ascii_lowercase(t)
    } else {
        "minecraft:"@ + ascii_lowercase(t)
    }
}

/// Every character of `s` is its own ASCII lowercase.
pub open spec fn is_lowercase(s: Seq<char>) -> bool {
    forall|i: int| 0 <= i < s.len() ==> crate::text::ascii_lower(#[trigger] s[i]) == s[i]
}

proof fn lemma_lowercase_of(s: Seq<char>)
    ensures
        is_lowercase(ascii_lowercase(s)),
{
    assert forall|i: int| 0 <= i < ascii_lowercase(s).len() implies crate::text::ascii_lower(
        #[trigger] ascii_lowercase(s)[i],
    ) == ascii_lowercase(s)[i] by {
        let c = s[i];
        if 'A' <= c && c <= 'Z' {
            assert((((c as u32) + 32) as char) as u32 == (c as u32) + 32);
        }
    }
}

/// What `block_id` gives is a valid, lowercase ID, and `block_id` gives it
/// back unchanged.
pub proof fn lemma_block_id_idempotent(raw: Seq<char>)
    requires
        valid_block_id(block_id_candidate(raw)),
    ensures
        is_lowercase(block_id_candidate(raw)),
        block_id_candidate(block_id_candidate(raw)) == block_id_candidate(raw),
        valid_block_id(block_id_candidate(block_id_candidate(raw))),
{
    let id = block_id_candidate(raw);
    let t = trimmed(raw);
    reveal_strlit("minecraft:white_concrete");
    reveal_strlit("minecraft:netherrack");
    reveal_strlit("minecraft:");
    reveal_strlit("white");
    reveal_strlit("netherrack");
    if t == Seq::<char>::empty() || t == "white"@ || t == "netherrack"@ {
        assert(is_lowercase(id));
    } else if t.contains(':') {
        lemma_lowercase_of(t);
    } else {
        lemma_lowercase_of(t);
        let p = "minecraft:"@;
        assert(is_lowercase(p));
        assert forall|i: int| 0 <= i < id.len() implies crate::text::ascii_lower(#[trigger] id[i])
            == id[i] by {
            if i < p.len() {
                assert(id[i] == p[i]);
            } else {
                assert(id[i] == ascii_lowercase(t)[i - p.len()]);
            }
        }
    }
    let k = choose|k: int|
        #![trigger id[k]]
        0 < k < id.len() - 1 && id[k] == ':' && (forall|j: int| 0 <= j < k ==> id[j] != ':')
            && (forall|j: int| 0 <= j < k ==> namespace_char(#[trigger] id[j])) && (forall|j: int|
            k < j < id.len() ==> path_char(#[trigger] id[j]));
    assert(namespace_char(id[0]));
    assert(path_char(id.last()));
    assert(trimmed(id) == id);
    assert(id.contains(':'));
    assert(!"white"@.contains(':'));
    assert(!"netherrack"@.contains(':'));
    assert(ascii_lowercase(id) =~= id);
}

fn is_namespace_char(c: char) -> (res: bool)
    ensures
        res == namespace_char(c),
{
    ('0' <= c && c <= '9') || ('a' <= c && c <= 'z') || ('A' <= c && c <= 'Z') || c == '_' || c
        == '-' || c == '.'
}

/// Whether `id` is a valid `namespace:path` block ID.
fn check_block_id(id: &Vec<char>) -> (res: bool)
    ensures
        res == valid_block_id(id@),
{
    let n = id.len();
    let mut k: usize = 0;
    while k < n && id[k] != ':'
        invariant
            k <= n == id@.len(),
            forall|j: int| 0 <= j < k ==> id@[j] != ':',
        decreases n - k,
    {
        k += 1;
    }
    if k == n || k == 0 || k + 1 == n {
        proof {
            if valid_block_id(id@) {
                let w = choose|w: int|
                    #![trigger id@[w]]
                    0 < w < id@.len() - 1 && id@[w] == ':' && (forall|j: int|
                        0 <= j < w ==> id@[j] != ':') && (forall|j: int|
                        0 <= j < w ==> namespace_char(#[trigger] id@[j])) && (forall|j: int|
                        w < j < id@.len() ==> path_char(#[trigger] id@[j]));
                if w < k {
                } else if w > k {
                    assert(id@[k as int] != ':' || k == n);
                }
            }
        }
        return false;
    }
    let mut j: usize = 0;
    while j < n
        invariant
            k < n == id@.len(),
            0 < k,
            id@[k as int] == ':',
            j <= n,
            forall|i: int| 0 <= i < k ==> id@[i] != ':',
            forall|i: int| 0 <= i < j && i < k ==> namespace_char(#[trigger] id@[i]),
            forall|i: int| k < i < j ==> path_char(#[trigger] id@[i]),
        decreases n - j,
    {
        let c = id[j];
        if j < k && !is_namespace_char(c) {
            return false;
        }
        if j > k && !(is_namespace_char(c) || c == '/') {
            return false;
        }
        j += 1;
    }
    assert(id@[k as int] == ':');
    true
}

/// Canonical block ID for what a user typed: the web UI's short names
/// (`white`, `netherrack`), a bare ID (`deepslate`) or a full one.
pub fn block_id(raw: &str) -> (res: Result<String, Error>)
    ensures
        match res {
            Ok(id) => valid_block_id(block_id_candidate(raw@)) && id@ == block_id_candidate(
                raw@,
            ),
            Err(e) => !valid_block_id(block_id_candidate(raw@)) && (e matches Error::InvalidSetting {
                field,
                reason,
            } && field@ == "default_block"@ && reason@ == "\""@ + trimmed(raw@) + "\" is not a block ID"@),
        },
{
    let t = trim(raw);
    let cs = chars_of(t);
    let mut has_colon = false;
    let mut i: usize = 0;
    while i < cs.len()
        invariant
            i <= cs@.len(),
            has_colon == (exists|j: int| 0 <= j < i && cs@[j] == ':'),
        decreases cs.len() - i,
    {
        if cs[i] == ':' {
            has_colon = true;
        }
        i += 1;
    }
    assert(has_colon == cs@.contains(':'));
    let id: Vec<char> = if cs.len() == 0 || str_eq(t, "white") {
        chars_of("minecraft:white_concrete")
    } else if str_eq(t, "netherrack") {
        chars_of("minecraft:netherrack")
    } else {
        let mut out: Vec<char> = if has_colon {
            Vec::new()
        } else {
            chars_of("minecraft:")
        };
        let ghost prefix = out@;
        let mut i: usize = 0;
        while i < cs.len()
            invariant
                i <= cs@.len(),
                out@ == prefix + ascii_lowercase(cs@.take(i as int)),
            decreases cs.len() - i,
        {
            out.push(to_ascii_lower(cs[i]));
            i += 1;
            assert(ascii_lowercase(cs@.take(i as int)) =~= ascii_lowercase(cs@.take(i - 1)).push(
                crate::text::ascii_lower(cs@[i - 1]),
            ));
        }
        assert(cs@.take(cs.len() as int) == cs@);
        assert(prefix == Seq::<char>::empty() ==> prefix + ascii_lowercase(cs@)
            == ascii_lowercase(cs@));
        out
    };
    assert(cs@.len() == 0 ==> cs@ == Seq::<char>::empty());
    if check_block_id(&id) {
        Ok(string_of(id.as_slice()))
    } else {
        let reason = crate::text::concat3("\"", t, "\" is not a block ID");
        Err(Error::invalid("default_block", reason))
    }
}

/// The most characters a schematic name keeps.
pub const NAME_CHARS: usize = 200;

/// The longest side clamped into its range.
pub fn clamp_max_size(v: u32) -> (res: u32)
    ensures
        res == if v < max_size_range().0 {
            max_size_range().0
        } else if v > max_size_range().1 {
            max_size_range().1
        } else {
            v
        },
{
    if v < 1 {
        1
    } else if v > 2048 {
        2048
    } else {
        v
    }
}

/// `s` without its control characters.
pub open spec fn without_controls(s: Seq<char>) -> Seq<char>
    decreases s.len(),
{
    if s.len() == 0 {
        seq![]
    } else if control(s.last()) {
        without_controls(s.drop_last())
    } else {
        without_controls(s.drop_last()).push(s.last())
    }
}

/// What a schematic name is stored as: trimmed, without control
/// characters, and at most `NAME_CHARS` long.
pub open spec fn clean_name_of(raw: Seq<char>) -> Seq<char> {
    let c = without_controls(trimmed(raw));
    if c.len() > NAME_CHARS {
        c.take(NAME_CHARS as int)
    } else {
        c
    }
}

/// A schematic name as it is stored.
pub fn clean_name(raw: &str) -> (res: String)
    ensures
        res@ == clean_name_of(raw@),
{
    let t = trim(raw);
    let cs = chars_of(t);
    let mut out = String::new();
    let mut kept: usize = 0;
    let mut i: usize = 0;
    while i < cs.len()
        invariant
            cs@ == trimmed(raw@),
            i <= cs@.len(),
            kept == out@.len(),
            kept <= NAME_CHARS,
            out@ == (if without_controls(cs@.take(i as int)).len() > NAME_CHARS {
                without_controls(cs@.take(i as int)).take(NAME_CHARS as int)
            } else {
                without_controls(cs@.take(i as int))
            }),
        decreases cs.len() - i,
    {
        let c = cs[i];
        let ghost w = without_controls(cs@.take(i as int));
        assert(cs@.take(i + 1).drop_last() =~= cs@.take(i as int));
        if !is_control(c) && kept < NAME_CHARS {
            push_char(&mut out, c);
            kept += 1;
        }
        proof {
            let w2 = without_controls(cs@.take(i + 1));
            if !control(c) {
                assert(w2 == w.push(c));
                if w.len() >= NAME_CHARS {
                    assert(w2.take(NAME_CHARS as int) =~= w.take(NAME_CHARS as int));
                } else {
                    assert(out@ =~= w2 || w2.len() > NAME_CHARS);
                }
            }
        }
        i += 1;
    }
    assert(cs@.take(cs@.len() as int) =~= cs@);
    out
}

/// The name to store: `name` when there is one, else `fallback` (normally
/// the input file's stem).
pub fn name_or<'a>(name: &'a str, fallback: &'a str) -> (res: &'a str)
    ensures
        res@ == if name@.len() == 0 {
            fallback@
        } else {
            name@
        },
{
    if name.unicode_len() == 0 {
        fallback
    } else {
        name
    }
}

} // verus!
