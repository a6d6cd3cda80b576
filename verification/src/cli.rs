//! The decisions of `schemgen2 convert` that touch no file: which operands
//! are models, what each output is called, how many run at once, and what
//! the process exits with.
use vstd::prelude::*;
use crate::args::{key_index, ParsedArgs};
use crate::grid::views;
use crate::savedir::{dedupe_filename, deduped, sanitize_filename, sanitized};
use crate::structure::STRUCTURE_BLOCK_LIMIT;
use crate::savedir::{join, joined, Os};
use crate::settings::{block_id, block_id_candidate, valid_block_id};
use crate::targets::{is_row, rows, schematic_version_of, targets, Target};
use crate::text::{
    concat3, ends_with, i32_to_string, integer_value, lowercase, parse_i32, push_char, push_str,
    signed_decimal, str_ends_with, str_eq, to_lowercase, trim, trimmed,
};

verus! {

/// An operand named like a glTF model, whatever the case.
pub open spec fn looks_gltf(raw: Seq<char>) -> bool {
    ends_with(lowercase(raw), ".glb"@) || ends_with(lowercase(raw), ".gltf"@)
}

/// Operands `0..k` were all models that `file_exists` found.
pub open spec fn all_found<F: Fn(&String) -> bool>(positional: Seq<String>, file_exists: F, k: int) -> bool {
    forall|i: int|
        0 <= i < k ==> looks_gltf((#[trigger] positional[i])@) && file_exists.ensures(
            (&positional[i],),
            true,
        )
}

/// The operands must look like glTF and exist; `file_exists` says whether a
/// file does. Checked in order, the first failure reported.
pub fn collect_inputs<F: Fn(&String) -> bool>(positional: &[String], file_exists: &F) -> (res: Result<
    Vec<String>,
    String,
>)
    requires
        forall|p: &String| #[trigger] file_exists.requires((p,)),
    ensures
        positional@.len() == 0 ==> (res matches Err(e) && e@
            == "convert needs at least one .glb or .gltf file"@),
        res matches Ok(v) ==> views(v@) == views(positional@) && all_found(
            positional@,
            *file_exists,
            positional@.len() as int,
        ),
        res is Err && positional@.len() > 0 ==> exists|k: int|
            0 <= k < positional@.len() && #[trigger] all_found(positional@, *file_exists, k) && (res
                matches Err(e) && if !looks_gltf(positional@[k]@) {
                e@ == "not a glTF file: "@ + positional@[k]@
            } else {
                file_exists.ensures((&positional@[k],), false) && e@ == "no such file: "@
                    + positional@[k]@
            }),
{
    if positional.len() == 0 {
        return Err("convert needs at least one .glb or .gltf file".to_owned());
    }
    let mut out: Vec<String> = Vec::new();
    let mut i: usize = 0;
    while i < positional.len()
        invariant
            forall|p: &String| #[trigger] file_exists.requires((p,)),
            i <= positional@.len(),
            views(out@) == views(positional@.take(i as int)),
            all_found(positional@, *file_exists, i as int),
        decreases positional.len() - i,
    {
        let raw = &positional[i];
        let lower = to_lowercase(raw.as_str());
        proof {
            reveal_strlit("");
        }
        if !(str_ends_with(lower.as_str(), ".glb") || str_ends_with(lower.as_str(), ".gltf")) {
            let e = concat3("not a glTF file: ", raw.as_str(), "");
            assert(e@ =~= "not a glTF file: "@ + positional@[i as int]@);
            return Err(e);
        }
        let found = file_exists(raw);
        if !found {
            let e = concat3("no such file: ", raw.as_str(), "");
            assert(e@ =~= "no such file: "@ + positional@[i as int]@);
            return Err(e);
        }
        let ghost before = out@;
        let copy = raw.clone();
        assert(copy@ == positional@[i as int]@);
        out.push(copy);
        assert(positional@.take(i + 1) == positional@.take(i as int).push(positional@[i as int]));
        assert(views(out@) =~= views(before).push(copy@));
        i += 1;
        assert(views(out@) =~= views(positional@.take(i as int)));
    }
    assert(positional@.take(positional@.len() as int) == positional@);
    Ok(out)
}

/// `--output` and `--name` name one file, so they take one input.
pub fn check_single_input_options(args: &ParsedArgs, inputs: usize) -> (res: Result<(), String>)
    ensures
        inputs > 1 && key_index(args@.opts, "output"@) is Some ==> (res matches Err(e) && e@
            == "--output takes a single input file; use --out-dir for several"@),
        inputs > 1 && key_index(args@.opts, "output"@) is None && key_index(args@.opts, "name"@)
            is Some ==> (res matches Err(e) && e@
            == "--name takes a single input file; with several, each keeps its own name"@),
        res is Ok <==> inputs <= 1 || (key_index(args@.opts, "output"@) is None && key_index(
            args@.opts,
            "name"@,
        ) is None),
{
    if args.get("output").is_some() && inputs > 1 {
        return Err("--output takes a single input file; use --out-dir for several".to_owned());
    }
    if args.get("name").is_some() && inputs > 1 {
        return Err(
            "--name takes a single input file; with several, each keeps its own name".to_owned(),
        );
    }
    Ok(())
}

/// The base name of output `i`: `--name` if given, else the input's stem.
pub open spec fn base_name(stems: Seq<String>, name: Option<&str>, i: int) -> Seq<char> {
    match name {
        Some(s) => s@,
        None => stems[i]@,
    }
}

/// The base names of the outputs: `--name` for every one when given, else
/// each input's stem.
pub open spec fn base_names(stems: Seq<String>, name: Option<&str>) -> Seq<Seq<char>> {
    Seq::new(stems.len(), |i: int| base_name(stems, name, i))
}

/// The file names of a run's outputs: each base made safe and given
/// `extension`, then kept apart from the names before it.
pub open spec fn planned(bases: Seq<Seq<char>>, extension: Seq<char>) -> Seq<Seq<char>>
    decreases bases.len(),
{
    if bases.len() == 0 {
        seq![]
    } else {
        let prev = planned(bases.drop_last(), extension);
        prev.push(
            deduped(sanitized(bases.last(), extension), prev.map_values(|x: Seq<char>| lowercase(x))),
        )
    }
}

/// The file name of every output, in input order: the `--name` given or
/// the input's stem, made safe and given `extension`, with `-2`, `-3`, …
/// keeping two same-named outputs of the run apart.
pub fn plan_filenames(stems: &[String], name: Option<&str>, extension: &str) -> (res: Vec<String>)
    requires
        stems@.len() < usize::MAX,
    ensures
        views(res@) == planned(base_names(stems@, name), extension@),
{
    let ghost bases = base_names(stems@, name);
    let mut taken: Vec<String> = Vec::new();
    let mut out: Vec<String> = Vec::new();
    let mut i: usize = 0;
    assert(views(out@) =~= planned(bases.take(0), extension@));
    assert(views(taken@) =~= views(out@).map_values(|x: Seq<char>| lowercase(x)));
    while i < stems.len()
        invariant
            i <= stems@.len(),
            stems@.len() < usize::MAX,
            bases == base_names(stems@, name),
            taken@.len() == i,
            views(out@) == planned(bases.take(i as int), extension@),
            views(taken@) == views(out@).map_values(|x: Seq<char>| lowercase(x)),
        decreases stems.len() - i,
    {
        let base = match name {
            Some(s) => s,
            None => stems[i].as_str(),
        };
        assert(base@ == bases[i as int]);
        let safe = sanitize_filename(base, extension);
        let ghost prev = views(out@);
        assert(taken@.map_values(|x: String| x@) == views(taken@));
        let file = dedupe_filename(safe.as_str(), &mut taken);
        let ghost fv = file@;
        out.push(file);
        assert(bases.take(i + 1).drop_last() =~= bases.take(i as int));
        assert(views(out@) =~= prev.push(fv));
        assert(taken@.map_values(|x: String| x@) == views(taken@));
        assert(views(taken@) =~= views(out@).map_values(|x: Seq<char>| lowercase(x)));
        i += 1;
    }
    assert(bases.take(stems@.len() as int) =~= bases);
    out
}

/// Conversions to run at once: as asked, at least one and no more than
/// there are files.
pub fn thread_count(requested: usize, files: usize) -> (res: usize)
    ensures
        res == if (requested as int) < 1 {
            1
        } else if (requested as int) > (if files < 1 {
            1
        } else {
            files as int
        }) {
            if files < 1 {
                1
            } else {
                files as int
            }
        } else {
            requested as int
        },
{
    let most = if files < 1 {
        1
    } else {
        files
    };
    if requested < 1 {
        1
    } else if requested > most {
        most
    } else {
        requested
    }
}

/// The process exit code of a run: 1 when any conversion failed.
pub fn exit_code(failed: &[bool]) -> (res: i32)
    ensures
        res == if failed@.contains(true) {
            1i32
        } else {
            0i32
        },
{
    let mut i: usize = 0;
    while i < failed.len()
        invariant
            i <= failed@.len(),
            forall|j: int| 0 <= j < i ==> !failed@[j],
        decreases failed.len() - i,
    {
        if failed[i] {
            assert(failed@[i as int]);
            return 1;
        }
        i += 1;
    }
    0
}

/// The target a conversion asks for, as typed: `--target`, or
/// `--data-version` read as a number, or else `SCHEMGEN_DATA_VERSION` when
/// it is not blank, or else the default target. Passing both options is an
/// error.
pub open spec fn chosen_target_of(
    target: Option<Seq<char>>,
    data_version: Option<Seq<char>>,
    env: Option<Seq<char>>,
) -> Result<Seq<char>, Seq<char>> {
    match (target, data_version) {
        (Some(_), Some(_)) => Err("--target and --data-version are alternatives; pass one"@),
        (Some(t), None) => Ok(t),
        (None, Some(dv)) => match integer_value(trimmed(dv)) {
            Some(v) => if i32::MIN <= v <= i32::MAX {
                Ok(signed_decimal(v))
            } else {
                Err("--data-version: '"@ + dv + "' is not a number"@)
            },
            None => Err("--data-version: '"@ + dv + "' is not a number"@),
        },
        (None, None) => match env {
            Some(e) => if trimmed(e).len() > 0 {
                Ok(e)
            } else {
                Ok("1.21.8"@)
            },
            None => Ok("1.21.8"@),
        },
    }
}

pub open spec fn opt_view(o: Option<&str>) -> Option<Seq<char>> {
    match o {
        Some(s) => Some(s@),
        None => None,
    }
}

/// The target a conversion asks for; `env` is `SCHEMGEN_DATA_VERSION`.
pub fn chosen_target(args: &ParsedArgs, env: Option<&str>) -> (res: Result<String, String>)
    ensures
        match chosen_target_of(
            match key_index(args@.opts, "target"@) {
                Some(i) => Some(args@.opts[i].1),
                None => None,
            },
            match key_index(args@.opts, "data-version"@) {
                Some(i) => Some(args@.opts[i].1),
                None => None,
            },
            opt_view(env),
        ) {
            Ok(t) => res matches Ok(r) && r@ == t,
            Err(e) => res matches Err(r) && r@ == e,
        },
{
    proof {
        reveal_strlit("1.21.8");
    }
    match (args.get("target"), args.get("data-version")) {
        (Some(_), Some(_)) => Err("--target and --data-version are alternatives; pass one".to_owned()),
        (Some(t), None) => Ok(t.to_owned()),
        (None, Some(dv)) => match parse_i32(trim(dv)) {
            Some(v) => Ok(i32_to_string(v)),
            None => Err(concat3("--data-version: '", dv, "' is not a number")),
        },
        (None, None) => match env {
            Some(e) => if trim(e).unicode_len() > 0 {
                Ok(e.to_owned())
            } else {
                Ok("1.21.8".to_owned())
            },
            None => Ok("1.21.8".to_owned()),
        },
    }
}

/// The block `--block` names (white concrete when absent), or why it is
/// not one.
pub fn block_arg(args: &ParsedArgs) -> (res: Result<String, String>)
    ensures
        ({
            let raw = match key_index(args@.opts, "block"@) {
                Some(i) => args@.opts[i].1,
                None => "white"@,
            };
            if valid_block_id(block_id_candidate(raw)) {
                res matches Ok(id) && id@ == block_id_candidate(raw)
            } else {
                res matches Err(e) && e@ == "--block: invalid default_block: \""@ + trimmed(raw)
                    + "\" is not a block ID"@
            }
        }),
{
    let raw = match args.get("block") {
        Some(b) => b,
        None => "white",
    };
    match block_id(raw) {
        Ok(id) => Ok(id),
        Err(e) => {
            let m = e.message();
            let out = concat3("--block: ", m.as_str(), "");
            proof {
                reveal_strlit("");
                reveal_strlit("--block: ");
                reveal_strlit("--block: invalid default_block: \"");
                reveal_strlit("invalid ");
                reveal_strlit(": ");
                reveal_strlit("default_block");
                reveal_strlit("\"");
                assert(out@ =~= "--block: invalid default_block: \""@ + trimmed(raw@) + "\" is not a block ID"@);
            }
            Err(out)
        },
    }
}

/// Where output `filename` goes: the `--output` path, else into
/// `--out-dir`, else beside its input (`input_dir`, the input's folder).
pub fn output_path(explicit: Option<&str>, out_dir: Option<&str>, input_dir: &str, filename: &str, os: Os) -> (res: String)
    ensures
        res@ == match explicit {
            Some(p) => p@,
            None => match out_dir {
                Some(d) => joined(d@, filename@, os),
                None => joined(input_dir@, filename@, os),
            },
        },
{
    match explicit {
        Some(p) => p.to_owned(),
        None => match out_dir {
            Some(d) => join(d, filename, os),
            None => join(input_dir, filename, os),
        },
    }
}

/// Whether a structure file is too big for a structure block to load, which
/// loads at most `STRUCTURE_BLOCK_LIMIT` along each axis.
pub fn exceeds_structure_block(dims: [u32; 3]) -> (res: bool)
    ensures
        res == (dims[0] > STRUCTURE_BLOCK_LIMIT || dims[1] > STRUCTURE_BLOCK_LIMIT || dims[2]
            > STRUCTURE_BLOCK_LIMIT),
{
    dims[0] > STRUCTURE_BLOCK_LIMIT || dims[1] > STRUCTURE_BLOCK_LIMIT || dims[2] > STRUCTURE_BLOCK_LIMIT
}

/// `s` followed by spaces up to `width` characters.
pub open spec fn pad_right(s: Seq<char>, width: nat) -> Seq<char> {
    if s.len() >= width {
        s
    } else {
        s + Seq::new((width - s.len()) as nat, |i: int| ' ')
    }
}

/// `s` after spaces up to `width` characters.
pub open spec fn pad_left(s: Seq<char>, width: nat) -> Seq<char> {
    if s.len() >= width {
        s
    } else {
        Seq::new((width - s.len()) as nat, |i: int| ' ') + s
    }
}

fn push_spaces(out: &mut String, n: usize)
    ensures
        final(out)@ == old(out)@ + Seq::new(n as nat, |i: int| ' '),
{
    let mut k: usize = 0;
    while k < n
        invariant
            k <= n,
            out@ == old(out)@ + Seq::new(k as nat, |i: int| ' '),
        decreases n - k,
    {
        push_char(out, ' ');
        k += 1;
        assert(out@ =~= old(out)@ + Seq::new(k as nat, |i: int| ' '));
    }
}

fn push_padded(out: &mut String, s: &str, width: usize, left: bool)
    ensures
        final(out)@ == old(out)@ + if left {
            pad_left(s@, width as nat)
        } else {
            pad_right(s@, width as nat)
        },
{
    let n = s.unicode_len();
    if left && n < width {
        push_spaces(out, width - n);
    }
    push_str(out, s);
    if !left && n < width {
        push_spaces(out, width - n);
    }
    assert(final(out)@ =~= old(out)@ + if left {
        pad_left(s@, width as nat)
    } else {
        pad_right(s@, width as nat)
    });
}

/// One line of `schemgen2 targets`: the version left-aligned in ten
/// columns, the data version right-aligned in twelve, Litematica's version
/// right-aligned in ten, and a mark on the default.
pub open spec fn target_line(id: Seq<char>, data_version: i32, schematic_version: i32, default: bool) -> Seq<char> {
    pad_right(id, 10) + " "@ + pad_left(signed_decimal(data_version as int), 12) + " "@ + pad_left(
        signed_decimal(schematic_version as int),
        10,
    ) + if default {
        "  (default)"@
    } else {
        ""@
    }
}

/// The table `schemgen2 targets` prints: a header, then every target,
/// newest first.
pub fn targets_table() -> (res: Vec<String>)
    ensures
        res@.len() == rows().len() + 1,
        res@[0]@ == pad_right("VERSION"@, 10) + " "@ + pad_left("DATA VERSION"@, 12) + " "@ + pad_left(
            "LITEMATIC"@,
            10,
        ),
        forall|k: int|
            1 <= k < res@.len() ==> (#[trigger] res@[k])@ == target_line(
                rows()[rows().len() - k].0,
                rows()[rows().len() - k].1,
                schematic_version_of(rows()[rows().len() - k].1),
                rows()[rows().len() - k].0 == "1.21.8"@,
            ),
{
    let all = targets();
    let default = Target::default_target();
    let mut out: Vec<String> = Vec::new();
    let mut head = String::new();
    push_padded(&mut head, "VERSION", 10, false);
    push_str(&mut head, " ");
    push_padded(&mut head, "DATA VERSION", 12, true);
    push_str(&mut head, " ");
    push_padded(&mut head, "LITEMATIC", 10, true);
    out.push(head);
    let n = all.len();
    let mut j: usize = n;
    proof {
        crate::targets::lemma_rows_ordered_and_unique();
    }
    while j > 0
        invariant
            n == all@.len() == rows().len(),
            j <= n,
            out@.len() == n - j + 1,
            is_row(default, rows()[10]),
            forall|i: int| 0 <= i < rows().len() ==> is_row(#[trigger] all@[i], rows()[i]),
            out@[0]@ == pad_right("VERSION"@, 10) + " "@ + pad_left("DATA VERSION"@, 12) + " "@
                + pad_left("LITEMATIC"@, 10),
            forall|k: int|
                1 <= k < out@.len() ==> (#[trigger] out@[k])@ == target_line(
                    rows()[rows().len() - k].0,
                    rows()[rows().len() - k].1,
                    schematic_version_of(rows()[rows().len() - k].1),
                    rows()[rows().len() - k].0 == "1.21.8"@,
                ),
            forall|a: int, b: int| 0 <= a < b < rows().len() ==> rows()[a].0 != rows()[b].0,
        decreases j,
    {
        j -= 1;
        let t = all[j];
        let mut line = String::new();
        push_padded(&mut line, t.id, 10, false);
        push_str(&mut line, " ");
        let dv = i32_to_string(t.data_version);
        push_padded(&mut line, dv.as_str(), 12, true);
        push_str(&mut line, " ");
        let sv = i32_to_string(t.schematic_version);
        push_padded(&mut line, sv.as_str(), 10, true);
        let is_default = str_eq(t.id, default.id);
        proof {
            reveal_strlit("1.21.8");
            assert(rows()[10].0 == "1.21.8"@);
            if rows()[j as int].0 == "1.21.8"@ && j != 10 {
                assert(rows()[j as int].0 == rows()[10].0);
            }
        }
        if is_default {
            push_str(&mut line, "  (default)");
        } else {
            push_str(&mut line, "");
        }
        let ghost k = (n - j) as int;
        out.push(line);
        assert(rows().len() - k == j);
    }
    out
}

} // verus!
