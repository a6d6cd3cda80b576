//! The parts of the settings schema that are not numbers: the sections
//! the UIs show and, for every field a front end renders, its key, type,
//! section, label, help text, scope and the field it depends on. The
//! numbers (defaults, ranges, slider spans) and the choice lists are added
//! where the settings' floating-point values live.
use vstd::prelude::*;
use crate::targets::{is_row, rows, targets};
use crate::text::str_eq;

verus! {

/// A settings section.
#[derive(Debug, Clone, Copy)]
pub struct Group {
    pub key: &'static str,
    pub label: &'static str,
    pub help: Option<&'static str>,
}

/// How a field's value is typed and edited.
#[derive(Debug, Clone, Copy, PartialEq, Eq, Structural)]
pub enum Kind {
    /// Whole number; `min`/`max`/`step` apply.
    Int,
    /// Number; `min`/`max`/`step` apply.
    Float,
    Bool,
    Text,
    /// A block ID such as `minecraft:stone`; `choices` are suggestions.
    Block,
    /// A unit vector `[x, y, z]` in model space (Y up).
    Direction,
    /// One of `choices`.
    Choice,
    /// An absolute folder on the machine running the server.
    Folder,
}

/// What a field affects.
#[derive(Debug, Clone, Copy, PartialEq, Eq, Structural)]
pub enum Scope {
    /// Changes the blocks the conversion produces.
    Conversion,
    /// Changes only how the job runs or where its file goes.
    Job,
}

/// The sections' keys, in display order.
pub open spec fn group_keys() -> Seq<Seq<char>> {
    seq!["size"@, "color"@, "lighting"@, "target"@, "output"@, "advanced"@]
}

/// The sections' labels, in display order.
pub open spec fn group_labels() -> Seq<Seq<char>> {
    seq!["Size & shape"@, "Color"@, "Lighting"@, "Target version"@, "Output"@, "Advanced"@]
}

/// Settings sections in the order both UIs present them; only lighting and
/// target explain themselves.
pub fn groups() -> (res: Vec<Group>)
    ensures
        res@.len() == 6,
        forall|i: int| 0 <= i < 6 ==> (#[trigger] res@[i]).key@ == group_keys()[i],
        forall|i: int| 0 <= i < 6 ==> (#[trigger] res@[i]).label@ == group_labels()[i],
        forall|i: int| 0 <= i < 6 ==> ((#[trigger] res@[i]).help is Some <==> (i == 2 || i == 3)),
        res@[2].help matches Some(h) && h@ == "Separates lighting baked into the model's textures from its real colors. Leave it alone unless the model looks shiny or shaded in its texture."@,
        res@[3].help matches Some(h) && h@ == "The Minecraft version the schematic is for. Only blocks that exist in that version are used."@,
{
    let v = vec![
        Group { key: "size", label: "Size & shape", help: None },
        Group { key: "color", label: "Color", help: None },
        Group {
            key: "lighting",
            label: "Lighting",
            help: Some(
                "Separates lighting baked into the model's textures from its real colors. Leave it alone unless the model looks shiny or shaded in its texture.",
            ),
        },
        Group {
            key: "target",
            label: "Target version",
            help: Some(
                "The Minecraft version the schematic is for. Only blocks that exist in that version are used.",
            ),
        },
        Group { key: "output", label: "Output", help: None },
        Group { key: "advanced", label: "Advanced", help: None },
    ];
    v
}

/// The sections' keys are all different.
pub proof fn lemma_group_keys_distinct()
    ensures
        forall|i: int, j: int| 0 <= i < j < 6 ==> group_keys()[i] != group_keys()[j],
{
    reveal_strlit("size");
    reveal_strlit("color");
    reveal_strlit("lighting");
    reveal_strlit("target");
    reveal_strlit("output");
    reveal_strlit("advanced");
    assert(group_keys()[0].len() == 4);
    assert(group_keys()[1].len() == 5);
    assert(group_keys()[2].len() == 8);
    assert(group_keys()[3].len() == 6);
    assert(group_keys()[4].len() == 6);
    assert(group_keys()[5].len() == 8);
    assert(group_keys()[3][0] != group_keys()[4][0]);
    assert(group_keys()[2][0] != group_keys()[5][0]);
}

/// A field's default value, as its settings JSON holds it. A number with a
/// fraction is held as the bits of the `f32` it is, a direction as three
/// such.
#[derive(Debug, Clone, Copy, PartialEq, Eq)]
pub enum DefaultValue {
    Null,
    Bool(bool),
    Int(u32),
    Float(u32),
    Text(&'static str),
    Direction([u32; 3]),
}

/// A default value, with its text as characters.
pub enum DefaultView {
    Null,
    Bool(bool),
    Int(u32),
    Float(u32),
    Text(Seq<char>),
    Direction([u32; 3]),
}

pub open spec fn default_view(d: DefaultValue) -> DefaultView {
    match d {
        DefaultValue::Null => DefaultView::Null,
        DefaultValue::Bool(b) => DefaultView::Bool(b),
        DefaultValue::Int(n) => DefaultView::Int(n),
        DefaultValue::Float(f) => DefaultView::Float(f),
        DefaultValue::Text(t) => DefaultView::Text(t@),
        DefaultValue::Direction(d) => DefaultView::Direction(d),
    }
}

/// Which values a UI offers for a field.
#[derive(Debug, Clone, Copy, PartialEq, Eq, Structural)]
pub enum Choices {
    /// Any value of its kind.
    Free,
    /// The two blocks a UI offers for `--no-color`.
    Blocks,
    /// Every Minecraft version, newest first.
    Targets,
    /// The file formats, by id.
    Formats,
}

/// A value a UI offers, and what it calls it. The file formats' labels
/// belong to the formats' own table, which this library does not hold, so
/// a format choice has none.
#[derive(Debug, Clone, Copy)]
pub struct Choice {
    pub value: &'static str,
    pub label: Option<&'static str>,
}

/// The values offered for `c`, in order.
pub open spec fn choice_values(c: Choices) -> Seq<Seq<char>> {
    match c {
        Choices::Free => seq![],
        Choices::Blocks => seq!["minecraft:white_concrete"@, "minecraft:netherrack"@],
        Choices::Targets => rows().reverse().map_values(|r: (Seq<char>, i32)| r.0),
        Choices::Formats => seq!["litematic"@, "schem"@, "schem-v3"@, "nbt"@],
    }
}

/// What the values offered for `c` are called, where this library knows.
pub open spec fn choice_labels(c: Choices) -> Seq<Option<Seq<char>>> {
    match c {
        Choices::Free => seq![],
        Choices::Blocks => seq![Some("White concrete"@), Some("Netherrack"@)],
        Choices::Targets => rows().reverse().map_values(|r: (Seq<char>, i32)| Some(r.0)),
        Choices::Formats => seq![None, None, None, None],
    }
}

/// The values a UI offers for `c`, with their labels.
pub fn choice_list(c: Choices) -> (res: Vec<Choice>)
    ensures
        res@.len() == choice_values(c).len(),
        forall|i: int| 0 <= i < res@.len() ==> (#[trigger] res@[i]).value@ == choice_values(c)[i]
            && opt_view(res@[i].label) == choice_labels(c)[i],
{
    match c {
        Choices::Free => Vec::new(),
        Choices::Blocks => vec![
            Choice { value: "minecraft:white_concrete", label: Some("White concrete") },
            Choice { value: "minecraft:netherrack", label: Some("Netherrack") },
        ],
        Choices::Formats => vec![
            Choice { value: "litematic", label: None },
            Choice { value: "schem", label: None },
            Choice { value: "schem-v3", label: None },
            Choice { value: "nbt", label: None },
        ],
        Choices::Targets => {
            let all = targets();
            let n = all.len();
            let ghost rr = rows().reverse();
            let mut out: Vec<Choice> = Vec::new();
            let mut i: usize = 0;
            while i < n
                invariant
                    n == all@.len() == rows().len(),
                    rr == rows().reverse(),
                    forall|k: int| 0 <= k < rows().len() ==> is_row(#[trigger] all@[k], rows()[k]),
                    i <= n,
                    out@.len() == i,
                    forall|k: int| 0 <= k < i ==> (#[trigger] out@[k]).value@ == rr[k].0
                        && opt_view(out@[k].label) == Some(rr[k].0),
                decreases n - i,
            {
                let t = all[n - 1 - i];
                assert(is_row(all@[n - 1 - i], rows()[n - 1 - i]));
                assert(rr[i as int] == rows()[n - 1 - i]);
                out.push(Choice { value: t.id, label: Some(t.id) });
                i += 1;
            }
            out
        },
    }
}

/// A field is shown or enabled only while a switch has this value.
#[derive(Debug, Clone, Copy)]
pub struct Condition {
    pub field: &'static str,
    pub equals: bool,
}

/// A settings field as a front end renders it, numbers aside.
#[derive(Debug, Clone, Copy)]
pub struct Field {
    pub key: &'static str,
    pub kind: Kind,
    pub group: &'static str,
    pub label: &'static str,
    pub help: &'static str,
    pub scope: Scope,
    pub unit: Option<&'static str>,
    pub placeholder: Option<&'static str>,
    /// `null` is a valid value (for example "derive the voxel size").
    pub nullable: bool,
    /// Tucked away by default in both UIs.
    pub advanced: bool,
    pub when: Option<Condition>,
    /// The value it starts at.
    pub default: DefaultValue,
    pub choices: Choices,
}

/// What a field says, as text.
pub struct FieldView {
    pub key: Seq<char>,
    pub kind: Kind,
    pub group: Seq<char>,
    pub label: Seq<char>,
    pub help: Seq<char>,
    pub scope: Scope,
    pub unit: Option<Seq<char>>,
    pub placeholder: Option<Seq<char>>,
    pub nullable: bool,
    pub advanced: bool,
    pub when: Option<(Seq<char>, bool)>,
    pub default: DefaultView,
    pub choices: Choices,
}

pub open spec fn opt_view(o: Option<&'static str>) -> Option<Seq<char>> {
    match o {
        Some(s) => Some(s@),
        None => None,
    }
}

impl View for Field {
    type V = FieldView;

    open spec fn view(&self) -> FieldView {
        FieldView {
            key: self.key@,
            kind: self.kind,
            group: self.group@,
            label: self.label@,
            help: self.help@,
            scope: self.scope,
            unit: opt_view(self.unit),
            placeholder: opt_view(self.placeholder),
            nullable: self.nullable,
            advanced: self.advanced,
            when: match self.when {
                Some(c) => Some((c.field@, c.equals)),
                None => None,
            },
            default: default_view(self.default),
            choices: self.choices,
        }
    }
}

/// A conversion setting with neither unit, placeholder nor condition.
pub open spec fn plain(
    key: Seq<char>,
    kind: Kind,
    group: Seq<char>,
    label: Seq<char>,
    help: Seq<char>,
    default: DefaultView,
    choices: Choices,
) -> FieldView {
    FieldView {
        key,
        kind,
        group,
        label,
        help,
        scope: Scope::Conversion,
        unit: None,
        placeholder: None,
        nullable: false,
        advanced: false,
        when: None,
        default,
        choices,
    }
}

/// `f`, shown only while color sampling is `on`.
pub open spec fn when_sampling(f: FieldView, on: bool) -> FieldView {
    FieldView { when: Some(("color_sampling"@, on)), ..f }
}

/// Every field, in the order the UIs list them.
pub open spec fn field_table() -> Seq<FieldView> {
    seq![
        FieldView {
            unit: Some("blocks"@),
            ..plain("max_size"@, Kind::Int, "size"@, "Max size"@, "Length of the longest side of the result, in blocks."@, DefaultView::Int(128), Choices::Free)
        },
        FieldView {
            placeholder: Some("Auto"@),
            nullable: true,
            advanced: true,
            ..plain("voxel_size"@, Kind::Float, "size"@, "Voxel size"@, "Size of one block in the model's own units. Overrides max size when set."@, DefaultView::Null, Choices::Free)
        },
        plain("color_sampling"@, Kind::Bool, "color"@, "Color sampling"@, "Match every block to the model's surface color. Off places one block everywhere."@, DefaultView::Bool(true), Choices::Free),
        when_sampling(plain("dither"@, Kind::Bool, "color"@, "Dithering"@, "8\u{d7}8 ordered dithering, so large flat areas do not band into a single block."@, DefaultView::Bool(true), Choices::Free), true),
        when_sampling(plain("brightness"@, Kind::Float, "color"@, "Brightness"@, "Added to every color before matching."@, DefaultView::Float(0x0), Choices::Free), true),
        when_sampling(plain("contrast"@, Kind::Float, "color"@, "Contrast"@, "Spreads colors away from mid-grey before matching."@, DefaultView::Float(0x3f80_0000), Choices::Free), true),
        when_sampling(plain("saturation"@, Kind::Float, "color"@, "Saturation"@, "0 matches in greyscale; above 1 exaggerates color."@, DefaultView::Float(0x3f80_0000), Choices::Free), true),
        when_sampling(plain("default_block"@, Kind::Block, "color"@, "Block"@, "The block used everywhere when color sampling is off."@, DefaultView::Text("minecraft:white_concrete"@), Choices::Blocks), false),
        when_sampling(plain("light_dir"@, Kind::Direction, "lighting"@, "Key light"@, "Where the light baked into the texture came from, in model space."@, DefaultView::Direction([0x3eb3_3333, 0x3f59_999a, 0x3ecc_cccd]), Choices::Free), true),
        when_sampling(plain("delight"@, Kind::Float, "lighting"@, "De-light"@, "Removes the assumed lighting from the texture: the highlight is subtracted, the shading divided out. 0 is off."@, DefaultView::Float(0x0), Choices::Free), true),
        when_sampling(plain("light_gloss"@, Kind::Float, "lighting"@, "Assumed gloss"@, "How sharp a highlight to assume was baked in. 0 assumes none."@, DefaultView::Float(0x3f00_0000), Choices::Free), true),
        when_sampling(plain("light_ambient"@, Kind::Float, "lighting"@, "Ambient"@, "Light still reaching surfaces that face away from the key light."@, DefaultView::Float(0x3ea3_d70a), Choices::Free), true),
        when_sampling(plain("specular"@, Kind::Float, "lighting"@, "Specular gain"@, "Strength of the assumed highlight."@, DefaultView::Float(0x3f8c_cccd), Choices::Free), true),
        when_sampling(plain("highlight_rejection"@, Kind::Float, "lighting"@, "Highlight rejection"@, "Discounts samples inside the highlight when averaging a block, so a shiny surface keeps its own color."@, DefaultView::Float(0x3f40_0000), Choices::Free), true),
        when_sampling(plain("highlight_recovery"@, Kind::Float, "lighting"@, "Blown-voxel recovery"@, "Rebuilds blocks that were entirely highlight from the rest of their material."@, DefaultView::Float(0x3f80_0000), Choices::Free), true),
        plain("target"@, Kind::Choice, "target"@, "Minecraft version"@, "The game version the schematic is for: it is stamped into the file, and only blocks that exist in that version are used."@, DefaultView::Text("1.21.8"@), Choices::Targets),
        plain("format"@, Kind::Choice, "output"@, "File format"@, "Litematica's .litematic; .schem for WorldEdit and FAWE (v2 reads everywhere, v3 needs WorldEdit 7.3+); .nbt for structure blocks and /place template."@, DefaultView::Text("litematic"@), Choices::Formats),
        FieldView {
            placeholder: Some("Model file name"@),
            ..plain("schematic_name"@, Kind::Text, "output"@, "Schematic name"@, "Name stored in the schematic and used for its file. Empty uses the model's file name."@, DefaultView::Text(Seq::empty()), Choices::Free)
        },
        FieldView {
            scope: Scope::Job,
            placeholder: Some("Only keep it on the server"@),
            nullable: true,
            ..plain("output_dir"@, Kind::Folder, "output"@, "Save into folder"@, "Also copy each finished schematic into this folder, typically a schematics folder. ~ and %APPDATA% expand; the folder is created if missing."@, DefaultView::Null, Choices::Free)
        },
        FieldView {
            scope: Scope::Job,
            advanced: true,
            ..plain("threads"@, Kind::Int, "advanced"@, "Parallel conversions"@, "How many files of one batch convert at the same time."@, DefaultView::Int(4), Choices::Free)
        },
        FieldView {
            unit: Some("GB"@),
            advanced: true,
            ..plain("ram_limit"@, Kind::Float, "advanced"@, "Memory budget"@, "Upper bound on the memory color sampling may use."@, DefaultView::Float(0x4080_0000), Choices::Free)
        },
    ]
}

/// A field of the schema with nothing optional set.
fn field(
    key: &'static str,
    kind: Kind,
    group: &'static str,
    label: &'static str,
    help: &'static str,
    default: DefaultValue,
    choices: Choices,
) -> (res: Field)
    ensures
        res@ == plain(key@, kind, group@, label@, help@, default_view(default), choices),
{
    Field {
        key,
        kind,
        group,
        label,
        help,
        scope: Scope::Conversion,
        unit: None,
        placeholder: None,
        nullable: false,
        advanced: false,
        when: None,
        default,
        choices,
    }
}

/// `f`, shown only while color sampling is `on`.
fn sampled(f: Field, on: bool) -> (res: Field)
    ensures
        res@ == when_sampling(f@, on),
{
    Field { when: Some(Condition { field: "color_sampling", equals: on }), ..f }
}

/// Every field a front end renders, in order, numbers aside.
pub fn fields() -> (res: Vec<Field>)
    ensures
        res@.len() == field_table().len(),
        forall|i: int| 0 <= i < res@.len() ==> (#[trigger] res@[i])@ == field_table()[i],
{
    let v = vec![
        Field {
            unit: Some("blocks"),
            ..field("max_size", Kind::Int, "size", "Max size", "Length of the longest side of the result, in blocks.", DefaultValue::Int(128), Choices::Free)
        },
        Field {
            placeholder: Some("Auto"),
            nullable: true,
            advanced: true,
            ..field("voxel_size", Kind::Float, "size", "Voxel size", "Size of one block in the model's own units. Overrides max size when set.", DefaultValue::Null, Choices::Free)
        },
        field("color_sampling", Kind::Bool, "color", "Color sampling", "Match every block to the model's surface color. Off places one block everywhere.", DefaultValue::Bool(true), Choices::Free),
        sampled(field("dither", Kind::Bool, "color", "Dithering", "8\u{d7}8 ordered dithering, so large flat areas do not band into a single block.", DefaultValue::Bool(true), Choices::Free), true),
        sampled(field("brightness", Kind::Float, "color", "Brightness", "Added to every color before matching.", DefaultValue::Float(0x0), Choices::Free), true),
        sampled(field("contrast", Kind::Float, "color", "Contrast", "Spreads colors away from mid-grey before matching.", DefaultValue::Float(0x3f80_0000), Choices::Free), true),
        sampled(field("saturation", Kind::Float, "color", "Saturation", "0 matches in greyscale; above 1 exaggerates color.", DefaultValue::Float(0x3f80_0000), Choices::Free), true),
        sampled(field("default_block", Kind::Block, "color", "Block", "The block used everywhere when color sampling is off.", DefaultValue::Text("minecraft:white_concrete"), Choices::Blocks), false),
        sampled(field("light_dir", Kind::Direction, "lighting", "Key light", "Where the light baked into the texture came from, in model space.", DefaultValue::Direction([0x3eb3_3333, 0x3f59_999a, 0x3ecc_cccd]), Choices::Free), true),
        sampled(field("delight", Kind::Float, "lighting", "De-light", "Removes the assumed lighting from the texture: the highlight is subtracted, the shading divided out. 0 is off.", DefaultValue::Float(0x0), Choices::Free), true),
        sampled(field("light_gloss", Kind::Float, "lighting", "Assumed gloss", "How sharp a highlight to assume was baked in. 0 assumes none.", DefaultValue::Float(0x3f00_0000), Choices::Free), true),
        sampled(field("light_ambient", Kind::Float, "lighting", "Ambient", "Light still reaching surfaces that face away from the key light.", DefaultValue::Float(0x3ea3_d70a), Choices::Free), true),
        sampled(field("specular", Kind::Float, "lighting", "Specular gain", "Strength of the assumed highlight.", DefaultValue::Float(0x3f8c_cccd), Choices::Free), true),
        sampled(field("highlight_rejection", Kind::Float, "lighting", "Highlight rejection", "Discounts samples inside the highlight when averaging a block, so a shiny surface keeps its own color.", DefaultValue::Float(0x3f40_0000), Choices::Free), true),
        sampled(field("highlight_recovery", Kind::Float, "lighting", "Blown-voxel recovery", "Rebuilds blocks that were entirely highlight from the rest of their material.", DefaultValue::Float(0x3f80_0000), Choices::Free), true),
        field("target", Kind::Choice, "target", "Minecraft version", "The game version the schematic is for: it is stamped into the file, and only blocks that exist in that version are used.", DefaultValue::Text("1.21.8"), Choices::Targets),
        field("format", Kind::Choice, "output", "File format", "Litematica's .litematic; .schem for WorldEdit and FAWE (v2 reads everywhere, v3 needs WorldEdit 7.3+); .nbt for structure blocks and /place template.", DefaultValue::Text("litematic"), Choices::Formats),
        Field {
            placeholder: Some("Model file name"),
            ..field("schematic_name", Kind::Text, "output", "Schematic name", "Name stored in the schematic and used for its file. Empty uses the model's file name.", DefaultValue::Text(""), Choices::Free)
        },
        Field {
            scope: Scope::Job,
            placeholder: Some("Only keep it on the server"),
            nullable: true,
            ..field("output_dir", Kind::Folder, "output", "Save into folder", "Also copy each finished schematic into this folder, typically a schematics folder. ~ and %APPDATA% expand; the folder is created if missing.", DefaultValue::Null, Choices::Free)
        },
        Field {
            scope: Scope::Job,
            advanced: true,
            ..field("threads", Kind::Int, "advanced", "Parallel conversions", "How many files of one batch convert at the same time.", DefaultValue::Int(4), Choices::Free)
        },
        Field {
            unit: Some("GB"),
            advanced: true,
            ..field("ram_limit", Kind::Float, "advanced", "Memory budget", "Upper bound on the memory color sampling may use.", DefaultValue::Float(0x4080_0000), Choices::Free)
        },
    ];
    assert(v@.len() == field_table().len());
    proof {
        reveal_strlit("");
        assert(""@ =~= Seq::<char>::empty());
    }
    assert forall|i: int| 0 <= i < v@.len() implies (#[trigger] v@[i])@ == field_table()[i] by {
        reveal_strlit("color_sampling");
        reveal_strlit("");
    }
    v
}

/// The fields by view.
pub open spec fn field_views(v: Seq<Field>) -> Seq<FieldView> {
    v.map_values(|f: Field| f@)
}

/// The keys of the fields in `scope`, in order.
pub open spec fn keys_in(fs: Seq<FieldView>, scope: Scope) -> Seq<Seq<char>>
    decreases fs.len(),
{
    if fs.len() == 0 {
        seq![]
    } else if fs.last().scope == scope {
        keys_in(fs.drop_last(), scope).push(fs.last().key)
    } else {
        keys_in(fs.drop_last(), scope)
    }
}

/// The settings schema apart from its numbers and choice lists.
pub struct Schema {
    pub groups: Vec<Group>,
    pub fields: Vec<Field>,
}

impl Schema {
    /// The first field called `key`.
    pub fn field(&self, key: &str) -> (res: Option<&Field>)
        ensures
            match res {
                Some(f) => exists|i: int|
                    0 <= i < self.fields@.len() && self.fields@[i] == *f && f.key@ == key@ && (
                    forall|j: int| 0 <= j < i ==> (#[trigger] self.fields@[j]).key@ != key@),
                None => forall|j: int|
                    0 <= j < self.fields@.len() ==> (#[trigger] self.fields@[j]).key@ != key@,
            },
    {
        let mut i: usize = 0;
        while i < self.fields.len()
            invariant
                i <= self.fields@.len(),
                forall|j: int| 0 <= j < i ==> (#[trigger] self.fields@[j]).key@ != key@,
            decreases self.fields.len() - i,
        {
            if str_eq(self.fields[i].key, key) {
                return Some(&self.fields[i]);
            }
            i += 1;
        }
        None
    }

    /// The keys of the fields that belong to `scope`.
    pub fn keys(&self, scope: Scope) -> (res: Vec<&'static str>)
        ensures
            res@.map_values(|s: &'static str| s@) == keys_in(field_views(self.fields@), scope),
    {
        let ghost fv = field_views(self.fields@);
        let mut out: Vec<&'static str> = Vec::new();
        let mut i: usize = 0;
        while i < self.fields.len()
            invariant
                fv == field_views(self.fields@),
                i <= self.fields@.len(),
                out@.map_values(|s: &'static str| s@) == keys_in(fv.take(i as int), scope),
            decreases self.fields.len() - i,
        {
            assert(fv.take(i + 1).drop_last() =~= fv.take(i as int));
            assert(fv.take(i + 1).last() == self.fields@[i as int]@);
            if self.fields[i].scope == scope {
                let ghost before = out@;
                out.push(self.fields[i].key);
                assert(out@.map_values(|s: &'static str| s@) =~= before.map_values(
                    |s: &'static str| s@,
                ).push(self.fields@[i as int].key@));
            }
            i += 1;
        }
        assert(fv.take(self.fields@.len() as int) =~= fv);
        out
    }
}

/// The schema: its sections and its fields, numbers aside.
pub fn schema() -> (res: Schema)
    ensures
        res.groups@.len() == 6,
        forall|i: int| 0 <= i < 6 ==> (#[trigger] res.groups@[i]).key@ == group_keys()[i],
        field_views(res.fields@) == field_table(),
        res.fields@.len() == 21,
        res.fields@[0].key@ == "max_size"@ && res.fields@[0].default == DefaultValue::Int(128),
        res.fields@[1].key@ == "voxel_size"@ && res.fields@[1].default == DefaultValue::Null,
        res.fields@[18].key@ == "output_dir"@ && res.fields@[18].default == DefaultValue::Null
            && res.fields@[18].scope == Scope::Job,
        res.fields@[19].key@ == "threads"@ && res.fields@[19].default == DefaultValue::Int(4)
            && res.fields@[19].scope == Scope::Job,
        forall|i: int|
            0 <= i < 21 && i != 18 && i != 19 ==> (#[trigger] res.fields@[i]).scope
                == Scope::Conversion,
{
    let groups = groups();
    let fields = fields();
    assert(field_views(fields@) =~= field_table());
    let ghost t = field_table();
    assert(fields@[0]@ == t[0]);
    assert(fields@[1]@ == t[1]);
    assert(fields@[18]@ == t[18]);
    assert(fields@[19]@ == t[19]);
    assert forall|i: int| 0 <= i < 21 && i != 18 && i != 19 implies (#[trigger] fields@[i]).scope
        == Scope::Conversion by {
        assert(fields@[i]@ == t[i]);
    }
    Schema { groups, fields }
}

/// No two fields share a key.
pub proof fn lemma_field_keys_distinct()
    ensures
        forall|i: int, j: int|
            0 <= i < j < field_table().len() ==> field_table()[i].key != field_table()[j].key,
{
    reveal_strlit("max_size");
    reveal_strlit("voxel_size");
    reveal_strlit("color_sampling");
    reveal_strlit("dither");
    reveal_strlit("brightness");
    reveal_strlit("contrast");
    reveal_strlit("saturation");
    reveal_strlit("default_block");
    reveal_strlit("light_dir");
    reveal_strlit("delight");
    reveal_strlit("light_gloss");
    reveal_strlit("light_ambient");
    reveal_strlit("specular");
    reveal_strlit("highlight_rejection");
    reveal_strlit("highlight_recovery");
    reveal_strlit("target");
    reveal_strlit("format");
    reveal_strlit("schematic_name");
    reveal_strlit("output_dir");
    reveal_strlit("threads");
    reveal_strlit("ram_limit");
    let t = field_table();
    assert forall|i: int, j: int| 0 <= i < j < t.len() implies t[i].key != t[j].key by {
        if t[i].key.len() == t[j].key.len() {
            assert(t[i].key[0] != t[j].key[0]);
        }
    }
}

/// Every field sits in a known section, has a label and help text, and
/// depends, if on anything, on a switch of the schema.
pub proof fn lemma_fields_well_formed()
    ensures
        forall|i: int|
            0 <= i < field_table().len() ==> {
                let f = #[trigger] field_table()[i];
                &&& group_keys().contains(f.group)
                &&& f.label.len() > 0
                &&& f.help.len() > 0
                &&& (f.when matches Some((w, _)) ==> exists|j: int|
                    0 <= j < field_table().len() && field_table()[j].key == w && field_table()[j].kind
                        == Kind::Bool)
            },
{
    let t = field_table();
    reveal_strlit("Max size");
    reveal_strlit("Voxel size");
    reveal_strlit("Color sampling");
    reveal_strlit("Dithering");
    reveal_strlit("Brightness");
    reveal_strlit("Contrast");
    reveal_strlit("Saturation");
    reveal_strlit("Block");
    reveal_strlit("Key light");
    reveal_strlit("De-light");
    reveal_strlit("Assumed gloss");
    reveal_strlit("Ambient");
    reveal_strlit("Specular gain");
    reveal_strlit("Highlight rejection");
    reveal_strlit("Blown-voxel recovery");
    reveal_strlit("Minecraft version");
    reveal_strlit("File format");
    reveal_strlit("Schematic name");
    reveal_strlit("Save into folder");
    reveal_strlit("Parallel conversions");
    reveal_strlit("Memory budget");
    reveal_strlit("Length of the longest side of the result, in blocks.");
    reveal_strlit("Size of one block in the model's own units. Overrides max size when set.");
    reveal_strlit("Match every block to the model's surface color. Off places one block everywhere.");
    reveal_strlit("8\u{d7}8 ordered dithering, so large flat areas do not band into a single block.");
    reveal_strlit("Added to every color before matching.");
    reveal_strlit("Spreads colors away from mid-grey before matching.");
    reveal_strlit("0 matches in greyscale; above 1 exaggerates color.");
    reveal_strlit("The block used everywhere when color sampling is off.");
    reveal_strlit("Where the light baked into the texture came from, in model space.");
    reveal_strlit("Removes the assumed lighting from the texture: the highlight is subtracted, the shading divided out. 0 is off.");
    reveal_strlit("How sharp a highlight to assume was baked in. 0 assumes none.");
    reveal_strlit("Light still reaching surfaces that face away from the key light.");
    reveal_strlit("Strength of the assumed highlight.");
    reveal_strlit("Discounts samples inside the highlight when averaging a block, so a shiny surface keeps its own color.");
    reveal_strlit("Rebuilds blocks that were entirely highlight from the rest of their material.");
    reveal_strlit("The game version the schematic is for: it is stamped into the file, and only blocks that exist in that version are used.");
    reveal_strlit("Litematica's .litematic; .schem for WorldEdit and FAWE (v2 reads everywhere, v3 needs WorldEdit 7.3+); .nbt for structure blocks and /place template.");
    reveal_strlit("Name stored in the schematic and used for its file. Empty uses the model's file name.");
    reveal_strlit("Also copy each finished schematic into this folder, typically a schematics folder. ~ and %APPDATA% expand; the folder is created if missing.");
    reveal_strlit("How many files of one batch convert at the same time.");
    reveal_strlit("Upper bound on the memory color sampling may use.");
    assert(group_keys()[0] == "size"@);
    assert(t[2].key == "color_sampling"@ && t[2].kind == Kind::Bool);
    assert forall|i: int| 0 <= i < t.len() implies {
        let f = #[trigger] t[i];
        &&& group_keys().contains(f.group)
        &&& f.label.len() > 0
        &&& f.help.len() > 0
        &&& (f.when matches Some((w, _)) ==> exists|j: int|
            0 <= j < t.len() && t[j].key == w && t[j].kind == Kind::Bool)
    } by {
        assert(group_keys()[0] == "size"@);
        assert(group_keys()[1] == "color"@);
        assert(group_keys()[2] == "lighting"@);
        assert(group_keys()[3] == "target"@);
        assert(group_keys()[4] == "output"@);
        assert(group_keys()[5] == "advanced"@);
    }
}

} // verus!
