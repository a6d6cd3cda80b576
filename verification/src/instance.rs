//! What launchers record about an instance: the Minecraft version it runs,
//! read from the JSON file each launcher keeps in the instance's folder.
use vstd::prelude::*;
use crate::text::str_eq;

verus! {

/// A JSON value, as a parser hands it over. Numbers are kept as written.
#[derive(Debug)]
pub enum Json {
    Null,
    Bool(bool),
    Number(String),
    Str(String),
    Array(Vec<Json>),
    Object(Vec<(String, Json)>),
}

/// A JSON value as values.
pub enum JsonV {
    Null,
    Bool(bool),
    Number(Seq<char>),
    Str(Seq<char>),
    Array(Seq<JsonV>),
    Object(Seq<(Seq<char>, JsonV)>),
}

pub open spec fn json_view(j: Json) -> JsonV
    decreases j,
{
    match j {
        Json::Null => JsonV::Null,
        Json::Bool(b) => JsonV::Bool(b),
        Json::Number(n) => JsonV::Number(n@),
        Json::Str(s) => JsonV::Str(s@),
        Json::Array(items) => JsonV::Array(json_items_view(items@)),
        Json::Object(fields) => JsonV::Object(json_fields_view(fields@)),
    }
}

pub open spec fn json_items_view(s: Seq<Json>) -> Seq<JsonV>
    decreases s,
{
    if s.len() == 0 {
        seq![]
    } else {
        json_items_view(s.drop_last()).push(json_view(s.last()))
    }
}

pub open spec fn json_fields_view(s: Seq<(String, Json)>) -> Seq<(Seq<char>, JsonV)>
    decreases s,
{
    if s.len() == 0 {
        seq![]
    } else {
        json_fields_view(s.drop_last()).push((s.last().0@, json_view(s.last().1)))
    }
}

impl View for Json {
    type V = JsonV;

    open spec fn view(&self) -> JsonV {
        json_view(*self)
    }
}

proof fn lemma_items_view(s: Seq<Json>)
    ensures
        json_items_view(s).len() == s.len(),
        forall|i: int| 0 <= i < s.len() ==> #[trigger] json_items_view(s)[i] == s[i]@,
    decreases s.len(),
{
    if s.len() > 0 {
        lemma_items_view(s.drop_last());
    }
}

proof fn lemma_fields_view(s: Seq<(String, Json)>)
    ensures
        json_fields_view(s).len() == s.len(),
        forall|i: int| 0 <= i < s.len() ==> #[trigger] json_fields_view(s)[i] == (s[i].0@, s[i].1@),
    decreases s.len(),
{
    if s.len() > 0 {
        lemma_fields_view(s.drop_last());
    }
}

/// Where key `k` first appears among an object's fields.
pub open spec fn key_pos(f: Seq<(Seq<char>, JsonV)>, k: Seq<char>) -> Option<int> {
    if exists|i: int| 0 <= i < f.len() && f[i].0 == k {
        Some(choose|i: int| 0 <= i < f.len() && f[i].0 == k && forall|j: int| 0 <= j < i ==> f[j].0 != k)
    } else {
        None
    }
}

/// `v[k]`: the field of an object, `null` for a missing key or a value
/// that is not an object.
pub open spec fn member(v: JsonV, k: Seq<char>) -> JsonV {
    match v {
        JsonV::Object(f) => match key_pos(f, k) {
            Some(i) => f[i].1,
            None => JsonV::Null,
        },
        _ => JsonV::Null,
    }
}

/// The text of a string value.
pub open spec fn text_of(v: JsonV) -> Option<Seq<char>> {
    match v {
        JsonV::Str(s) => Some(s),
        _ => None,
    }
}

fn find_field(fields: &Vec<(String, Json)>, k: &str) -> (res: Option<usize>)
    ensures
        res matches Some(i) ==> key_pos(json_fields_view(fields@), k@) == Some(i as int) && i
            < fields@.len() && json_fields_view(fields@)[i as int] == (
            fields@[i as int].0@,
            fields@[i as int].1@,
        ),
        res is None ==> key_pos(json_fields_view(fields@), k@) is None,
{
    let ghost fv = json_fields_view(fields@);
    proof {
        lemma_fields_view(fields@);
    }
    let mut i: usize = 0;
    while i < fields.len()
        invariant
            i <= fields@.len(),
            fv == json_fields_view(fields@),
            fv.len() == fields@.len(),
            forall|q: int| 0 <= q < fields@.len() ==> #[trigger] fv[q] == (fields@[q].0@, fields@[q].1@),
            forall|j: int| 0 <= j < i ==> fv[j].0 != k@,
        decreases fields.len() - i,
    {
        assert(fv[i as int] == (fields@[i as int].0@, fields@[i as int].1@));
        if str_eq(fields[i].0.as_str(), k) {
            proof {
                let c = choose|c: int| 0 <= c < fv.len() && fv[c].0 == k@ && forall|j: int|
                    0 <= j < c ==> fv[j].0 != k@;
                assert(0 <= i < fv.len() && fv[i as int].0 == k@);
                if c < i {
                } else if c > i {
                }
            }
            return Some(i);
        }
        i += 1;
    }
    None
}

/// `v[k]`; `None` stands for `null`.
pub fn member_of<'a>(v: &'a Json, k: &str) -> (res: Option<&'a Json>)
    ensures
        match res {
            Some(m) => m@ == member(v@, k@),
            None => member(v@, k@) == JsonV::Null,
        },
{
    match v {
        Json::Object(fields) => {
            assert(v@ == JsonV::Object(json_fields_view(fields@)));
            match find_field(fields, k) {
                Some(i) => {
                    assert(member(v@, k@) == json_fields_view(fields@)[i as int].1);
                    Some(&fields[i].1)
                },
                None => None,
            }
        },
        _ => None,
    }
}

/// The text of a string value.
pub fn text(v: Option<&Json>) -> (res: Option<String>)
    ensures
        match v {
            Some(j) => match text_of(j@) {
                Some(t) => res matches Some(s) && s@ == t,
                None => res is None,
            },
            None => res is None,
        },
{
    match v {
        Some(Json::Str(s)) => Some(s.clone()),
        _ => None,
    }
}

/// Whether `c` is the component of Minecraft itself.
pub open spec fn is_minecraft(c: JsonV) -> bool {
    member(c, "uid"@) == JsonV::Str("net.minecraft"@)
}

/// The Minecraft version of a Prism Launcher or MultiMC pack: its
/// `net.minecraft` component's `version`; none when `components` is not a
/// list or holds no such component.
pub open spec fn pack_version(pack: JsonV) -> Option<Seq<char>> {
    match member(pack, "components"@) {
        JsonV::Array(cs) => components_version(cs),
        _ => None,
    }
}

/// The `version` of the first component that is Minecraft's own.
pub open spec fn components_version(cs: Seq<JsonV>) -> Option<Seq<char>> {
    if exists|i: int| 0 <= i < cs.len() && is_minecraft(cs[i]) {
        let i = choose|i: int|
            0 <= i < cs.len() && is_minecraft(cs[i]) && forall|j: int|
                0 <= j < i ==> !is_minecraft(cs[j]);
        text_of(member(cs[i], "version"@))
    } else {
        None
    }
}

/// The Minecraft version an instance records, whichever launcher made it:
/// Prism Launcher and MultiMC in `mmc-pack.json`, CurseForge in
/// `minecraftinstance.json`, the Modrinth App's older profiles in
/// `profile.json`; the first of those files that is there decides.
pub open spec fn recorded_version(mmc: Option<JsonV>, cf: Option<JsonV>, profile: Option<JsonV>) -> Option<Seq<char>> {
    match mmc {
        Some(pack) => pack_version(pack),
        None => match cf {
            Some(c) => match text_of(member(c, "gameVersion"@)) {
                Some(v) => Some(v),
                None => text_of(member(member(c, "baseModLoader"@), "minecraftVersion"@)),
            },
            None => match profile {
                Some(p) => match text_of(member(member(p, "metadata"@), "game_version"@)) {
                    Some(v) => Some(v),
                    None => text_of(member(p, "game_version"@)),
                },
                None => None,
            },
        },
    }
}

pub open spec fn opt_json(v: Option<&Json>) -> Option<JsonV> {
    match v {
        Some(j) => Some(j@),
        None => None,
    }
}

fn is_minecraft_exec(c: &Json) -> (res: bool)
    ensures
        res == is_minecraft(c@),
{
    proof {
        reveal_strlit("net.minecraft");
    }
    match member_of(c, "uid") {
        Some(Json::Str(s)) => str_eq(s.as_str(), "net.minecraft"),
        _ => false,
    }
}

fn text_member(v: &Json, k: &str) -> (res: Option<String>)
    ensures
        match text_of(member(v@, k@)) {
            Some(t) => res matches Some(s) && s@ == t,
            None => res is None,
        },
{
    text(member_of(v, k))
}

fn text_member2(v: &Json, k1: &str, k2: &str) -> (res: Option<String>)
    ensures
        match text_of(member(member(v@, k1@), k2@)) {
            Some(t) => res matches Some(s) && s@ == t,
            None => res is None,
        },
{
    match member_of(v, k1) {
        Some(inner) => text_member(inner, k2),
        None => None,
    }
}

/// Where Minecraft's own component first is among `cs`.
fn find_minecraft(cs: &Vec<Json>) -> (res: Option<usize>)
    ensures
        res matches Some(i) ==> i < cs@.len() && json_items_view(cs@)[i as int] == cs@[i as int]@
            && (exists|w: int| 0 <= w < json_items_view(cs@).len() && is_minecraft(json_items_view(cs@)[w]))
            && i as int == (choose|w: int|
            0 <= w < json_items_view(cs@).len() && is_minecraft(json_items_view(cs@)[w]) && forall|
                j: int,
            | 0 <= j < w ==> !is_minecraft(json_items_view(cs@)[j])),
        res is None ==> !(exists|w: int| 0 <= w < json_items_view(cs@).len() && is_minecraft(json_items_view(cs@)[w])),
{
    let ghost cv = json_items_view(cs@);
    proof {
        lemma_items_view(cs@);
    }
    let mut i: usize = 0;
    while i < cs.len()
        invariant
            i <= cs@.len(),
            cv == json_items_view(cs@),
            cv.len() == cs@.len(),
            forall|q: int| 0 <= q < cs@.len() ==> #[trigger] cv[q] == cs@[q]@,
            forall|j: int| 0 <= j < i ==> !is_minecraft(cv[j]),
        decreases cs.len() - i,
    {
        assert(cv[i as int] == cs@[i as int]@);
        if is_minecraft_exec(&cs[i]) {
            proof {
                let c = choose|c: int|
                    0 <= c < cv.len() && is_minecraft(cv[c]) && forall|j: int|
                        0 <= j < c ==> !is_minecraft(cv[j]);
                assert(0 <= i < cv.len() && is_minecraft(cv[i as int]));
                if c < i {
                } else if c > i {
                }
            }
            return Some(i);
        }
        i += 1;
    }
    None
}

fn minecraft_version(cs: &Vec<Json>) -> (res: Option<String>)
    ensures
        match components_version(json_items_view(cs@)) {
            Some(v) => res matches Some(s) && s@ == v,
            None => res is None,
        },
{
    match find_minecraft(cs) {
        Some(i) => text_member(&cs[i], "version"),
        None => None,
    }
}

fn pack_version_exec(pack: &Json) -> (res: Option<String>)
    ensures
        match pack_version(pack@) {
            Some(v) => res matches Some(s) && s@ == v,
            None => res is None,
        },
{
    match member_of(pack, "components") {
        Some(m) => match m {
            Json::Array(cs) => {
                assert(m@ == JsonV::Array(json_items_view(cs@)));
                minecraft_version(cs)
            },
            _ => {
                assert(!(m@ is Array));
                None
            },
        },
        None => None,
    }
}

fn curseforge_version(c: &Json) -> (res: Option<String>)
    ensures
        match (match text_of(member(c@, "gameVersion"@)) {
            Some(v) => Some(v),
            None => text_of(member(member(c@, "baseModLoader"@), "minecraftVersion"@)),
        }) {
            Some(v) => res matches Some(s) && s@ == v,
            None => res is None,
        },
{
    match text_member(c, "gameVersion") {
        Some(v) => Some(v),
        None => text_member2(c, "baseModLoader", "minecraftVersion"),
    }
}

fn profile_version(p: &Json) -> (res: Option<String>)
    ensures
        match (match text_of(member(member(p@, "metadata"@), "game_version"@)) {
            Some(v) => Some(v),
            None => text_of(member(p@, "game_version"@)),
        }) {
            Some(v) => res matches Some(s) && s@ == v,
            None => res is None,
        },
{
    match text_member2(p, "metadata", "game_version") {
        Some(v) => Some(v),
        None => text_member(p, "game_version"),
    }
}

/// The Minecraft version an instance records, from the launcher files that
/// were there (`None` for one that is missing or unreadable).
pub fn instance_version(mmc: Option<&Json>, cf: Option<&Json>, profile: Option<&Json>) -> (res: Option<String>)
    ensures
        match recorded_version(opt_json(mmc), opt_json(cf), opt_json(profile)) {
            Some(v) => res matches Some(s) && s@ == v,
            None => res is None,
        },
{
    match mmc {
        Some(pack) => pack_version_exec(pack),
        None => match cf {
            Some(c) => curseforge_version(c),
            None => match profile {
                Some(p) => profile_version(p),
                None => None,
            },
        },
    }
}

/// Launcher files larger than this are not read.
pub fn small_enough_to_read(len: u64) -> (res: bool)
    ensures
        res == (len <= 4 * 1024 * 1024),
{
    len <= 4194304
}

} // verus!
