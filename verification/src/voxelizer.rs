//! Which implementation voxelizes. This build has the native one only.
use vstd::prelude::*;
use crate::text::{ascii_lowercase, concat3, str_eq, to_ascii_lowercase, trim, trimmed};

verus! {

/// Which implementation voxelizes.
#[derive(Debug, Clone, Copy, PartialEq, Eq, Structural)]
pub enum Backend {
    /// Built in (Rust).
    Native,
}

/// How `{:?}` writes a string: quoted, with its special characters
/// escaped.
pub uninterp spec fn debug_str(s: Seq<char>) -> Seq<char>;

/// `format!("{s:?}")`. The result is named by `debug_str`.
#[verifier::external_body]
fn debug_quoted(s: &str) -> (res: String)
    ensures
        res@ == debug_str(s@),
{
    format!("{s:?}")
}

/// What a voxelizer name selects.
pub open spec fn backend_named(name: Seq<char>) -> Result<Backend, Seq<char>> {
    let n = ascii_lowercase(trimmed(name));
    if n == "rust"@ || n == "native"@ {
        Ok(Backend::Native)
    } else if n == "python"@ {
        Err(
            "this build has no Python voxelizer (it is only in builds with the python-voxelizer feature)"@,
        )
    } else {
        Err("unknown voxelizer "@ + debug_str(n) + ": expected rust or python"@)
    }
}

/// The name a backend goes by.
pub open spec fn backend_name(b: Backend) -> Seq<char> {
    match b {
        Backend::Native => "rust"@,
    }
}

impl Backend {
    /// `rust` (or `native`), whatever the case and spacing.
    pub fn parse(name: &str) -> (res: Result<Backend, String>)
        ensures
            match backend_named(name@) {
                Ok(b) => res == Ok::<Backend, String>(b),
                Err(e) => res matches Err(s) && s@ == e,
            },
    {
        let n = to_ascii_lowercase(trim(name));
        if str_eq(n.as_str(), "rust") || str_eq(n.as_str(), "native") {
            Ok(Backend::Native)
        } else if str_eq(n.as_str(), "python") {
            Err(
                "this build has no Python voxelizer (it is only in builds with the python-voxelizer feature)".to_owned(),
            )
        } else {
            let quoted = debug_quoted(n.as_str());
            Err(concat3("unknown voxelizer ", quoted.as_str(), ": expected rust or python"))
        }
    }

    /// The name `parse` reads back.
    pub fn name(self) -> (res: &'static str)
        ensures
            res@ == backend_name(self),
    {
        match self {
            Backend::Native => "rust",
        }
    }
}

/// A backend's name selects it again.
pub proof fn lemma_name_parses_back(b: Backend)
    ensures
        backend_named(backend_name(b)) == Ok::<Backend, Seq<char>>(b),
{
    reveal_strlit("rust");
    assert(trimmed("rust"@) == "rust"@);
    assert(ascii_lowercase("rust"@) =~= "rust"@);
}

} // verus!
