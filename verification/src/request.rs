//! What a conversion request asks for besides its numbers: its form
//! fields, how many files convert at once, where results go, and which
//! settings keys the server does not know.
use vstd::prelude::*;
use crate::args::{key_index, lemma_key_index_bound, opt_insert, pair_index, pair_views};
use crate::grid::views;
use crate::order::{lemma_lex_asymmetric, lemma_lex_irreflexive, lemma_lex_total, lemma_lex_transitive, lex_lt};
use crate::text::{
    ascii_lowercase, chars_of, ends_with, eq_ignore_ascii_case, parse_u32, parse_usize,
    push_decimal, push_str, str_ends_with, str_eq, to_ascii_lowercase, trim, trimmed,
    unsigned_value, decimal,
};

verus! {

broadcast use vstd::seq_lib::to_multiset_insert, vstd::seq_lib::to_multiset_build;

/// Parallel conversions per request when the request does not say.
pub const DEFAULT_THREADS: usize = 4;

/// The largest text field an upload form may carry.
pub const MAX_TEXT_FIELD: usize = 1048576;

// ── The form ────────────────────────────────────────────────────────────

/// The text fields of an upload form, each name once: a later field of the
/// same name replaces the earlier. Files it skipped are listed by name.
pub struct Form {
    pub fields: Vec<(String, String)>,
    pub skipped: Vec<String>,
}

impl Form {
    /// A form with nothing in it.
    pub fn new() -> (res: Form)
        ensures
            res.fields@.len() == 0,
            res.skipped@.len() == 0,
    {
        Form { fields: Vec::new(), skipped: Vec::new() }
    }

    /// Record field `name` as `value`.
    pub fn insert_field(&mut self, name: String, value: String)
        ensures
            pair_views(final(self).fields@) == opt_insert(pair_views(old(self).fields@), name@, value@),
            final(self).skipped@ == old(self).skipped@,
    {
        let ghost before = pair_views(self.fields@);
        proof {
            lemma_key_index_bound(before, name@);
        }
        match pair_index(&self.fields, name.as_str()) {
            Some(j) => {
                let ghost k = name@;
                let ghost v = value@;
                self.fields.set(j, (name, value));
                assert(pair_views(self.fields@) =~= before.update(j as int, (k, v)));
            },
            None => {
                let ghost k = name@;
                let ghost v = value@;
                self.fields.push((name, value));
                assert(pair_views(self.fields@) =~= before.push((k, v)));
            },
        }
    }

    /// Whether the form has a field `key`, empty or not.
    pub fn has_field(&self, key: &str) -> (res: bool)
        ensures
            res == key_index(pair_views(self.fields@), key@) is Some,
    {
        pair_index(&self.fields, key).is_some()
    }

    /// Field `key`, trimmed, unless it is missing or blank.
    pub fn text(&self, key: &str) -> (res: Option<&str>)
        ensures
            match key_index(pair_views(self.fields@), key@) {
                Some(i) => if trimmed(pair_views(self.fields@)[i].1).len() == 0 {
                    res is None
                } else {
                    res matches Some(t) && t@ == trimmed(pair_views(self.fields@)[i].1)
                },
                None => res is None,
            },
    {
        proof {
            lemma_key_index_bound(pair_views(self.fields@), key@);
        }
        match pair_index(&self.fields, key) {
            Some(j) => {
                assert(pair_views(self.fields@)[j as int].1 == self.fields@[j as int].1@);
                let t = trim(self.fields[j].1.as_str());
                if t.unicode_len() == 0 {
                    None
                } else {
                    Some(t)
                }
            },
            None => None,
        }
    }
}

/// A glTF model by its file name, whatever the case.
pub open spec fn gltf_name(name: Seq<char>) -> bool {
    ends_with(ascii_lowercase(name), ".glb"@) || ends_with(ascii_lowercase(name), ".gltf"@)
}

/// Whether an uploaded file is a glTF model by its name.
pub fn is_gltf(name: &str) -> (res: bool)
    ensures
        res == gltf_name(name@),
{
    let lower = to_ascii_lowercase(name);
    str_ends_with(lower.as_str(), ".glb") || str_ends_with(lower.as_str(), ".gltf")
}

/// The extension an upload is stored under: `gltf` for a `.gltf` file,
/// `glb` for the rest.
pub fn upload_extension(file_name: &str) -> (res: &'static str)
    ensures
        res@ == if ends_with(ascii_lowercase(file_name@), ".gltf"@) {
            "gltf"@
        } else {
            "glb"@
        },
{
    let lower = to_ascii_lowercase(file_name);
    if str_ends_with(lower.as_str(), ".gltf") {
        "gltf"
    } else {
        "glb"
    }
}

/// Whether a text field holding `held` bytes can take `incoming` more.
pub fn text_field_fits(held: usize, incoming: usize) -> (res: bool)
    ensures
        res == (held + incoming <= MAX_TEXT_FIELD),
{
    incoming <= MAX_TEXT_FIELD && held <= MAX_TEXT_FIELD - incoming
}

/// Why an upload was refused for its size: `what` and the limit in whole
/// megabytes.
pub fn too_large(what: &str, limit: u64) -> (res: String)
    ensures
        res@ == what@ + " is larger than the "@ + decimal((limit / 1048576) as nat) + " MB limit"@,
{
    let mut out = String::new();
    push_str(&mut out, what);
    push_str(&mut out, " is larger than the ");
    push_decimal(&mut out, limit / 1048576);
    push_str(&mut out, " MB limit");
    out
}

// ── Settings that are not numbers ───────────────────────────────────────

/// A `threads` value as the settings JSON gives it.
#[derive(Debug, Clone, Copy, PartialEq, Eq)]
pub enum ThreadsField {
    /// Absent, or `null`.
    Absent,
    /// A whole number that fits in 64 bits.
    Count(u64),
    /// Anything else.
    Invalid,
}

/// `n` kept between 1 and 64.
pub open spec fn clamp_threads(n: int) -> int {
    if n < 1 {
        1
    } else if n > 64 {
        64
    } else {
        n
    }
}

/// How many of a request's files convert at once, from its settings JSON.
pub fn json_threads(field: ThreadsField) -> (res: Result<usize, String>)
    ensures
        match field {
            ThreadsField::Absent => res == Ok::<usize, String>(DEFAULT_THREADS),
            ThreadsField::Count(n) => res == Ok::<usize, String>(clamp_threads(n as int) as usize),
            ThreadsField::Invalid => (res matches Err(e) && e@
                == "settings.threads must be a positive integer"@),
        },
{
    match field {
        ThreadsField::Absent => Ok(DEFAULT_THREADS),
        ThreadsField::Count(n) => {
            if n < 1 {
                Ok(1)
            } else if n > 64 {
                Ok(64)
            } else {
                Ok(n as usize)
            }
        },
        ThreadsField::Invalid => Err("settings.threads must be a positive integer".to_owned()),
    }
}

/// An `output_dir` value as the settings JSON gives it.
#[derive(Debug, Clone, PartialEq, Eq)]
pub enum FolderField {
    /// Absent, or `null`.
    Absent,
    Text(String),
    /// Anything but a string.
    Invalid,
}

/// The folder a request's results are copied into, from its settings
/// JSON: none for a blank string.
pub fn json_output_dir(field: FolderField) -> (res: Result<Option<String>, String>)
    ensures
        match field {
            FolderField::Absent => res == Ok::<Option<String>, String>(None),
            FolderField::Text(s) => if trimmed(s@).len() == 0 {
                res == Ok::<Option<String>, String>(None)
            } else {
                res == Ok::<Option<String>, String>(Some(s))
            },
            FolderField::Invalid => (res matches Err(e) && e@
                == "settings.output_dir must be a string"@),
        },
{
    match field {
        FolderField::Absent => Ok(None),
        FolderField::Text(s) => {
            if trim(s.as_str()).unicode_len() == 0 {
                Ok(None)
            } else {
                Ok(Some(s))
            }
        },
        FolderField::Invalid => Err("settings.output_dir must be a string".to_owned()),
    }
}

/// The keys among `keys` that are not in `known`, in order.
pub open spec fn unknown_keys(keys: Seq<Seq<char>>, known: Seq<Seq<char>>) -> Seq<Seq<char>>
    decreases keys.len(),
{
    if keys.len() == 0 {
        seq![]
    } else if known.contains(keys.last()) {
        unknown_keys(keys.drop_last(), known)
    } else {
        unknown_keys(keys.drop_last(), known).push(keys.last())
    }
}

pub open spec fn str_views(v: Seq<&str>) -> Seq<Seq<char>> {
    v.map_values(|s: &str| s@)
}

/// Sorted by `str`'s order.
pub open spec fn sorted_names(s: Seq<Seq<char>>) -> bool {
    forall|a: int, b: int| 0 <= a < b < s.len() ==> !lex_lt(#[trigger] s[b], #[trigger] s[a])
}

fn is_known(known: &[&str], key: &str) -> (res: bool)
    ensures
        res == str_views(known@).contains(key@),
{
    let mut i: usize = 0;
    while i < known.len()
        invariant
            i <= known@.len(),
            forall|j: int| 0 <= j < i ==> known@[j]@ != key@,
        decreases known.len() - i,
    {
        if str_eq(known[i], key) {
            assert(str_views(known@)[i as int] == key@);
            return true;
        }
        i += 1;
    }
    proof {
        if str_views(known@).contains(key@) {
            let j = choose|j: int| 0 <= j < str_views(known@).len() && str_views(known@)[j] == key@;
            assert(known@[j]@ == key@);
        }
    }
    false
}

fn before_name(a: &String, b: &String) -> (res: bool)
    ensures
        res == lex_lt(a@, b@),
{
    let x = chars_of(a.as_str());
    let y = chars_of(b.as_str());
    let c = crate::order::compare_chars(x.as_slice(), y.as_slice());
    proof {
        lemma_lex_irreflexive(a@);
        lemma_lex_asymmetric(a@, b@);
    }
    c == -1
}

/// The settings keys a request sent that the server does not know, sorted.
pub fn ignored_keys(keys: &Vec<String>, known: &[&str]) -> (res: Vec<String>)
    ensures
        sorted_names(views(res@)),
        views(res@).to_multiset() == unknown_keys(views(keys@), str_views(known@)).to_multiset(),
{
    let ghost kv = views(keys@);
    let ghost nv = str_views(known@);
    let mut out: Vec<String> = Vec::new();
    let mut i: usize = 0;
    assert(kv.take(0) =~= Seq::<Seq<char>>::empty());
    assert(views(out@) =~= Seq::<Seq<char>>::empty());
    while i < keys.len()
        invariant
            kv == views(keys@),
            nv == str_views(known@),
            i <= keys@.len(),
            sorted_names(views(out@)),
            views(out@).to_multiset() == unknown_keys(kv.take(i as int), nv).to_multiset(),
        decreases keys.len() - i,
    {
        assert(kv.take(i + 1).drop_last() =~= kv.take(i as int));
        assert(kv.take(i + 1).last() == keys@[i as int]@);
        if !is_known(known, keys[i].as_str()) {
            let key = keys[i].clone();
            let mut p: usize = 0;
            while p < out.len() && !before_name(&key, &out[p])
                invariant
                    p <= out@.len(),
                    forall|q: int| 0 <= q < p ==> !lex_lt(key@, #[trigger] views(out@)[q]),
                decreases out.len() - p,
            {
                assert(views(out@)[p as int] == out@[p as int]@);
                p += 1;
            }
            let ghost before = views(out@);
            let ghost kk = key@;
            out.insert(p, key);
            assert(views(out@) =~= before.insert(p as int, kk));
            proof {
                let now = views(out@);
                assert forall|a: int, b: int| 0 <= a < b < now.len() implies !lex_lt(
                    #[trigger] now[b],
                    #[trigger] now[a],
                ) by {
                    if a < p && b == p {
                        lemma_lex_total(kk, before[a]);
                    } else if a == p {
                        assert(lex_lt(kk, before[p as int]));
                        let c = before[b - 1];
                        if b > p + 1 {
                            assert(!lex_lt(c, before[p as int]));
                            lemma_lex_total(c, before[p as int]);
                        }
                        if lex_lt(c, kk) {
                            lemma_lex_transitive(c, kk, before[p as int]);
                            lemma_lex_irreflexive(c);
                            if b > p + 1 {
                                lemma_lex_asymmetric(c, before[p as int]);
                            }
                        }
                    } else if b < p {
                        assert(now[a] == before[a] && now[b] == before[b]);
                    } else if a < p {
                        assert(now[a] == before[a] && now[b] == before[b - 1]);
                    } else {
                        assert(now[a] == before[a - 1] && now[b] == before[b - 1]);
                    }
                }
            }
        }
        i += 1;
    }
    assert(kv.take(keys@.len() as int) =~= kv);
    out
}

/// An API v1 switch: `true` in any case turns it on, any other text off,
/// and a missing field keeps `default`.
pub fn v1_flag(raw: Option<&str>, default: bool) -> (res: bool)
    ensures
        res == match raw {
            None => default,
            Some(v) => ascii_lowercase(v@) == ascii_lowercase("true"@),
        },
{
    match raw {
        None => default,
        Some(v) => eq_ignore_ascii_case(v, "true"),
    }
}

/// An API v1 whole number, `default` when it is missing or does not read.
pub fn v1_number(raw: Option<&str>, default: u32) -> (res: u32)
    ensures
        res == match raw {
            Some(v) => match unsigned_value(v@) {
                Some(n) => if n <= u32::MAX {
                    n as u32
                } else {
                    default
                },
                None => default,
            },
            None => default,
        },
{
    match raw {
        Some(v) => match parse_u32(v) {
            Some(n) => n,
            None => default,
        },
        None => default,
    }
}

/// How many files an API v1 request converts at once: its `threads`
/// field kept between 1 and 64, or one.
pub fn v1_threads(raw: Option<&str>) -> (res: usize)
    ensures
        res as int == match raw {
            Some(v) => match unsigned_value(v@) {
                Some(n) => if n <= usize::MAX {
                    clamp_threads(n)
                } else {
                    1
                },
                None => 1,
            },
            None => 1,
        },
{
    let n: usize = match raw {
        Some(v) => match parse_usize(v) {
            Some(n) => n,
            None => 1,
        },
        None => 1,
    };
    if n < 1 {
        1
    } else if n > 64 {
        64
    } else {
        n
    }
}

/// The block API v1 places where color sampling is off: netherrack when
/// asked for, white concrete otherwise.
pub fn v1_default_block(raw: Option<&str>) -> (res: &'static str)
    ensures
        res@ == match raw {
            Some(v) => if v@ == "netherrack"@ {
                "minecraft:netherrack"@
            } else {
                "minecraft:white_concrete"@
            },
            None => "minecraft:white_concrete"@,
        },
{
    match raw {
        Some(v) => if str_eq(v, "netherrack") {
            "minecraft:netherrack"
        } else {
            crate::settings::DEFAULT_BLOCK
        },
        None => crate::settings::DEFAULT_BLOCK,
    }
}

/// The folder API v1 saves into: the one given, unless auto-save was
/// turned off explicitly.
pub fn v1_folder<'a>(output_dir: Option<&'a str>, auto_save: Option<&str>) -> (res: Option<&'a str>)
    ensures
        res == match auto_save {
            Some(v) => if ascii_lowercase(v@) == ascii_lowercase("true"@) {
                output_dir
            } else {
                None
            },
            None => output_dir,
        },
{
    match auto_save {
        Some(v) => if eq_ignore_ascii_case(v, "true") {
            output_dir
        } else {
            None
        },
        None => output_dir,
    }
}

/// A request in API v1's shape: no `settings` part, but a `max_size` field.
pub fn is_v1_form(form: &Form) -> (res: bool)
    ensures
        res == (key_index(pair_views(form.fields@), "settings"@) is None && key_index(
            pair_views(form.fields@),
            "max_size"@,
        ) is Some),
{
    !form.has_field("settings") && form.has_field("max_size")
}

/// The largest side a preview runs at.
pub const MAX_PREVIEW_SIZE: u32 = 256;

/// A preview's longest side, and whether it was capped: previews stay at
/// most `MAX_PREVIEW_SIZE` unless an explicit voxel size decides the size.
pub fn preview_size(max_size: u32, voxel_size_given: bool) -> (res: (u32, bool))
    ensures
        res.1 == (max_size > MAX_PREVIEW_SIZE && !voxel_size_given),
        res.0 == if res.1 {
            MAX_PREVIEW_SIZE
        } else {
            max_size
        },
{
    if max_size > MAX_PREVIEW_SIZE && !voxel_size_given {
        (MAX_PREVIEW_SIZE, true)
    } else {
        (max_size, false)
    }
}

} // verus!
