//! Minecraft versions a schematic can be made for. A target fixes the data
//! version stamped into the file and Litematica's schematic format version:
//! 6 up to 1.20.x, 7 from 1.21.
use vstd::prelude::*;
use crate::error::Error;
use crate::text::{
    i32_to_string, integer_value, lemma_trimmed_idempotent, parse_i32, signed_decimal, str_eq, trim,
    trimmed,
};

verus! {

broadcast use vstd::string::to_string_from_display_ensures_for_str;

/// First data version of Minecraft 1.21, where Litematica moved to
/// schematic version 7.
pub const DATA_VERSION_1_21: i32 = 3953;

/// The oldest supported data version (1.16.5).
pub const FLOOR_DATA_VERSION: i32 = 2586;

/// A Minecraft version to write schematics for.
#[derive(Debug, Clone, Copy, PartialEq, Eq)]
pub struct Target {
    /// The game version as players write it, or `custom` for a target made
    /// from a bare data version.
    pub id: &'static str,
    /// `MinecraftDataVersion` / `DataVersion` stamped into the file.
    pub data_version: i32,
    /// Litematica schematic format version.
    pub schematic_version: i32,
}

/// Litematica's schematic version for a data version.
pub open spec fn schematic_version_of(data_version: i32) -> i32 {
    if data_version >= DATA_VERSION_1_21 {
        7
    } else {
        6
    }
}

/// Every named target, oldest first: game version and data version.
pub open spec fn rows() -> Seq<(Seq<char>, i32)> {
    seq![
        ("1.16.5"@, 2586i32),
        ("1.17.1"@, 2730i32),
        ("1.18.2"@, 2975i32),
        ("1.19.4"@, 3337i32),
        ("1.20.1"@, 3465i32),
        ("1.20.4"@, 3700i32),
        ("1.20.6"@, 3839i32),
        ("1.21.1"@, 3955i32),
        ("1.21.4"@, 4189i32),
        ("1.21.5"@, 4325i32),
        ("1.21.8"@, 4440i32),
        ("1.21.10"@, 4556i32),
        ("1.21.11"@, 4671i32),
        ("26.1"@, 4786i32),
        ("26.2"@, 4903i32),
        ("26.3"@, 5023i32),
    ]
}

/// `t` is the target of row `row`.
pub open spec fn is_row(t: Target, row: (Seq<char>, i32)) -> bool {
    &&& t.id@ == row.0
    &&& t.data_version == row.1
    &&& t.schematic_version == schematic_version_of(row.1)
}

/// The row whose game version is `id`, if any.
pub open spec fn row_named(id: Seq<char>) -> Option<int> {
    if exists|i: int| 0 <= i < rows().len() && (#[trigger] rows()[i]).0 == id {
        Some(choose|i: int| 0 <= i < rows().len() && (#[trigger] rows()[i]).0 == id)
    } else {
        None
    }
}

/// The row stamped with `data_version`, if any.
pub open spec fn row_of_version(data_version: i32) -> Option<int> {
    if exists|i: int| 0 <= i < rows().len() && (#[trigger] rows()[i]).1 == data_version {
        Some(choose|i: int| 0 <= i < rows().len() && (#[trigger] rows()[i]).1 == data_version)
    } else {
        None
    }
}

/// What `custom(data_version)` gives: the named target stamped with it, an
/// error below the floor, else a `custom` target.
pub open spec fn custom_result(data_version: i32, res: Result<Target, Error>) -> bool {
    match row_of_version(data_version) {
        Some(i) => res matches Ok(t) && is_row(t, rows()[i]),
        None => if data_version < FLOOR_DATA_VERSION {
            res matches Err(e) && e matches Error::InvalidSetting { field, .. } && field@
                == "target"@
        } else {
            res matches Ok(t) && t.id@ == "custom"@ && t.data_version == data_version
                && t.schematic_version == schematic_version_of(data_version)
        },
    }
}

/// What `parse` gives for `raw`: the named target, else a target made from
/// a data version, else an error about `target`.
pub open spec fn parse_result(raw: Seq<char>, res: Result<Target, Error>) -> bool {
    let t = trimmed(raw);
    match row_named(t) {
        Some(i) => res matches Ok(x) && is_row(x, rows()[i]),
        None => match integer_value(t) {
            Some(v) => if i32::MIN <= v <= i32::MAX {
                custom_result(v as i32, res)
            } else {
                res matches Err(e) && e matches Error::InvalidSetting { field, .. } && field@
                    == "target"@
            },
            None => res matches Err(e) && e matches Error::InvalidSetting { field, .. } && field@
                == "target"@,
        },
    }
}

/// The canonical string for a target: its id, or the data version for a
/// custom one.
pub open spec fn key_of(t: Target) -> Seq<char> {
    if t.id@ == "custom"@ {
        signed_decimal(t.data_version as int)
    } else {
        t.id@
    }
}

/// The targets `parse` can give: a named one, or a custom one stamped with
/// a data version no named target has, from the oldest supported up.
pub open spec fn parsable(t: Target) -> bool {
    ||| exists|i: int| 0 <= i < rows().len() && is_row(t, #[trigger] rows()[i])
    ||| (t.id@ == "custom"@ && row_of_version(t.data_version) is None && t.data_version
        >= FLOOR_DATA_VERSION && t.schematic_version == schematic_version_of(t.data_version))
}

proof fn lemma_row_ids_shape()
    ensures
        forall|i: int|
            0 <= i < rows().len() ==> {
                let id = #[trigger] rows()[i].0;
                &&& id.len() >= 4
                &&& crate::text::is_ascii_digit(id[0])
                &&& crate::text::is_ascii_digit(id.last())
                &&& (id[1] == '.' || id[2] == '.')
                &&& id != "custom"@
            },
{
    reveal_strlit("1.16.5");
    reveal_strlit("1.17.1");
    reveal_strlit("1.18.2");
    reveal_strlit("1.19.4");
    reveal_strlit("1.20.1");
    reveal_strlit("1.20.4");
    reveal_strlit("1.20.6");
    reveal_strlit("1.21.1");
    reveal_strlit("1.21.4");
    reveal_strlit("1.21.5");
    reveal_strlit("1.21.8");
    reveal_strlit("1.21.10");
    reveal_strlit("1.21.11");
    reveal_strlit("26.1");
    reveal_strlit("26.2");
    reveal_strlit("26.3");
    reveal_strlit("custom");
    assert("custom"@[0] == 'c');
}

/// Text that starts and ends with something other than whitespace is its
/// own trimming.
proof fn lemma_trimmed_already(s: Seq<char>)
    requires
        s.len() > 0,
        !crate::text::white_space(s[0]),
        !crate::text::white_space(s.last()),
    ensures
        trimmed(s) == s,
{
}

/// Every target `parse` gives is one it can give again from its key.
pub proof fn lemma_parsed_is_parsable(raw: Seq<char>, t: Target)
    requires
        parse_result(raw, Ok(t)),
    ensures
        parsable(t),
{
}

/// A target's key parses back to the target: the key is canonical.
pub proof fn lemma_key_parses_back(t: Target)
    requires
        parsable(t),
    ensures
        parse_result(key_of(t), Ok(t)),
{
    lemma_rows_ordered_and_unique();
    lemma_row_ids_shape();
    if exists|i: int| 0 <= i < rows().len() && is_row(t, #[trigger] rows()[i]) {
        let i = choose|i: int| 0 <= i < rows().len() && is_row(t, #[trigger] rows()[i]);
        let id = rows()[i].0;
        assert(key_of(t) == id);
        lemma_trimmed_already(id);
        let c = choose|k: int| 0 <= k < rows().len() && (#[trigger] rows()[k]).0 == id;
        if c != i {
            assert(rows()[c].0 == rows()[i].0);
        }
        assert(row_named(id) == Some(i));
    } else {
        let dv = t.data_version;
        let d = crate::text::decimal(dv as nat);
        assert(key_of(t) == d);
        crate::text::lemma_decimal_value(dv as nat);
        assert(crate::text::is_ascii_digit(d[0]));
        assert(crate::text::is_ascii_digit(d.last()));
        lemma_trimmed_already(d);
        if row_named(d) is Some {
            let k = choose|k: int| 0 <= k < rows().len() && (#[trigger] rows()[k]).0 == d;
            let id = rows()[k].0;
            assert(crate::text::is_ascii_digit(d[1]) && crate::text::is_ascii_digit(d[2]));
            assert(id[1] == '.' || id[2] == '.');
        }
        assert(integer_value(d) == Some(dv as int));
    }
}

/// Parsing a target's key gives the target back, for every target that
/// parsing gives.
pub proof fn lemma_key_round_trip(raw: Seq<char>, t: Target)
    requires
        parse_result(raw, Ok(t)),
    ensures
        parse_result(key_of(t), Ok(t)),
{
    lemma_parsed_is_parsable(raw, t);
    lemma_key_parses_back(t);
}

/// The table is in increasing data-version order and no two rows share a
/// game version or a data version.
pub proof fn lemma_rows_ordered_and_unique()
    ensures
        forall|i: int, j: int|
            0 <= i < j < rows().len() ==> #[trigger] rows()[i].1 < #[trigger] rows()[j].1,
        forall|i: int, j: int|
            0 <= i < j < rows().len() ==> #[trigger] rows()[i].0 != #[trigger] rows()[j].0,
        rows()[0] == ("1.16.5"@, FLOOR_DATA_VERSION),
{
    reveal_strlit("1.16.5");
    reveal_strlit("1.17.1");
    reveal_strlit("1.18.2");
    reveal_strlit("1.19.4");
    reveal_strlit("1.20.1");
    reveal_strlit("1.20.4");
    reveal_strlit("1.20.6");
    reveal_strlit("1.21.1");
    reveal_strlit("1.21.4");
    reveal_strlit("1.21.5");
    reveal_strlit("1.21.8");
    reveal_strlit("1.21.10");
    reveal_strlit("1.21.11");
    reveal_strlit("26.1");
    reveal_strlit("26.2");
    reveal_strlit("26.3");
    let r = rows();
    assert forall|i: int, j: int| 0 <= i < j < r.len() implies #[trigger] r[i].0 != #[trigger] r[j].0 by {
        let a = r[i].0;
        let b = r[j].0;
        if a == b {
            assert(a.len() == b.len());
            assert(a[0] == b[0] && a[1] == b[1] && a[2] == b[2] && a[3] == b[3]);
            if a.len() > 4 {
                assert(a[4] == b[4]);
            }
            if a.len() > 5 {
                assert(a[5] == b[5]);
            }
            if a.len() > 6 {
                assert(a[6] == b[6]);
            }
            assert(false);
        }
    }
}

fn row(id: &'static str, data_version: i32) -> (t: Target)
    ensures
        is_row(t, (id@, data_version)),
{
    Target {
        id,
        data_version,
        schematic_version: if data_version >= DATA_VERSION_1_21 {
            7
        } else {
            6
        },
    }
}

/// Every named target, oldest first.
pub fn targets() -> (res: Vec<Target>)
    ensures
        res@.len() == rows().len(),
        forall|i: int| 0 <= i < rows().len() ==> is_row(#[trigger] res@[i], rows()[i]),
{
    let v = vec![
        row("1.16.5", 2586),
        row("1.17.1", 2730),
        row("1.18.2", 2975),
        row("1.19.4", 3337),
        row("1.20.1", 3465),
        row("1.20.4", 3700),
        row("1.20.6", 3839),
        row("1.21.1", 3955),
        row("1.21.4", 4189),
        row("1.21.5", 4325),
        row("1.21.8", 4440),
        row("1.21.10", 4556),
        row("1.21.11", 4671),
        row("26.1", 4786),
        row("26.2", 4903),
        row("26.3", 5023),
    ];
    assert forall|i: int| 0 <= i < rows().len() implies is_row(#[trigger] v@[i], rows()[i]) by {}
    v
}

/// The oldest supported target, 1.16.5.
pub fn floor() -> (res: Target)
    ensures
        is_row(res, rows()[0]),
{
    row("1.16.5", FLOOR_DATA_VERSION)
}

impl Target {
    /// A named target, by its game version (surrounding whitespace ignored).
    pub fn named(id: &str) -> (res: Option<Target>)
        ensures
            match res {
                Some(t) => row_named(trimmed(id@)) matches Some(i) && is_row(t, rows()[i]),
                None => row_named(trimmed(id@)) is None,
            },
    {
        let ghost original = id@;
        let key = trim(id);
        assert(key@ == trimmed(original));
        let table = targets();
        let mut i: usize = 0;
        while i < table.len()
            invariant
                table@.len() == rows().len(),
                forall|k: int| 0 <= k < rows().len() ==> is_row(#[trigger] table@[k], rows()[k]),
                i <= table.len(),
                key@ == trimmed(original),
                original == id@,
                forall|k: int| 0 <= k < i ==> (#[trigger] rows()[k]).0 != key@,
            decreases table.len() - i,
        {
            if str_eq(table[i].id, key) {
                proof {
                    lemma_rows_ordered_and_unique();
                    assert(rows()[i as int].0 == key@);
                    let c = choose|k: int| 0 <= k < rows().len() && (#[trigger] rows()[k]).0 == key@;
                    if c != i {
                        assert(rows()[c].0 == rows()[i as int].0);
                    }
                    assert(row_named(key@) == Some(i as int));
                    assert(row_named(trimmed(original)) == Some(i as int));
                    assert(is_row(table[i as int], rows()[i as int]));
                }
                return Some(table[i]);
            }
            i += 1;
        }
        None
    }

    /// A target stamped with an arbitrary data version: the named target
    /// when one has it, an error below the oldest supported version, else a
    /// `custom` target.
    pub fn custom(data_version: i32) -> (res: Result<Target, Error>)
        ensures
            custom_result(data_version, res),
    {
        let table = targets();
        let mut i: usize = 0;
        while i < table.len()
            invariant
                table@.len() == rows().len(),
                forall|k: int| 0 <= k < rows().len() ==> is_row(#[trigger] table@[k], rows()[k]),
                i <= table.len(),
                forall|k: int| 0 <= k < i ==> (#[trigger] rows()[k]).1 != data_version,
            decreases table.len() - i,
        {
            if table[i].data_version == data_version {
                proof {
                    lemma_rows_ordered_and_unique();
                    let c = choose|k: int|
                        0 <= k < rows().len() && (#[trigger] rows()[k]).1 == data_version;
                    if c != i {
                        assert(rows()[c].1 == rows()[i as int].1);
                    }
                }
                return Ok(table[i]);
            }
            i += 1;
        }
        if data_version < FLOOR_DATA_VERSION {
            let mut reason = String::from_str("data version ");
            reason.append(i32_to_string(data_version).as_str());
            reason.append(" is older than 1.16.5 (2586), the oldest supported");
            return Err(Error::invalid("target", reason));
        }
        Ok(row("custom", data_version))
    }

    /// Parse what a user typed: a game version (`1.20.4`) or a bare data
    /// version (`3700`).
    pub fn parse(raw: &str) -> (res: Result<Target, Error>)
        ensures
            parse_result(raw@, res),
    {
        let ghost original = raw@;
        let raw = trim(raw);
        proof {
            lemma_trimmed_idempotent(original);
        }
        if let Some(t) = Target::named(raw) {
            return Ok(t);
        }
        if let Some(dv) = parse_i32(raw) {
            return Target::custom(dv);
        }
        let mut reason = String::from_str("unknown Minecraft version \"");
        reason.append(raw);
        reason.append("\" — one of 1.16.5 … 26.3, or a data version number");
        Err(Error::invalid("target", reason))
    }

    /// The target conversions use when none is given: 1.21.8.
    pub fn default_target() -> (res: Target)
        ensures
            is_row(res, rows()[10]),
    {
        let t = Target::named("1.21.8");
        proof {
            reveal_strlit("1.21.8");
            lemma_rows_ordered_and_unique();
            let s = "1.21.8"@;
            assert(trimmed(s) == s);
            assert(rows()[10].0 == s);
        }
        match t {
            Some(t) => t,
            None => row("1.21.8", 4440),
        }
    }

    /// The canonical string for this target: its id, or the data version
    /// for a custom one.
    pub fn key(&self) -> (res: String)
        ensures
            res@ == key_of(*self),
    {
        if str_eq(self.id, "custom") {
            i32_to_string(self.data_version)
        } else {
            self.id.to_string()
        }
    }
}

impl Default for Target {
    /// The target conversions use when none is given: 1.21.8.
    fn default() -> (res: Target)
        ensures
            is_row(res, rows()[10]),
    {
        Target::default_target()
    }
}

} // verus!
