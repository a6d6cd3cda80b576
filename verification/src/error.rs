//! The one error type the formats, the settings and the table of targets
//! return.
use vstd::prelude::*;
use crate::text::push_str;

verus! {

/// Everything that can stop a conversion. The messages are written for the
/// person who started it.
#[derive(Debug, Clone, PartialEq, Eq)]
pub enum Error {
    /// Not a glTF model (expected .glb or .gltf).
    UnsupportedInput(String),
    /// A file could not be read.
    Read { path: String, message: String },
    /// A file could not be written.
    Write { path: String, message: String },
    /// The model could not be loaded.
    Mesh(String),
    /// The model has no triangle geometry.
    NoGeometry,
    /// Voxelization produced no voxels.
    NoVoxels,
    /// Voxelization failed.
    Voxelizer(String),
    /// A setting with no sensible nearest valid value.
    InvalidSetting { field: &'static str, reason: String },
    /// The color table is empty.
    EmptyPalette,
    /// No usable block textures in a folder.
    NoTextures(String),
    /// The conversion was cancelled.
    Cancelled,
    /// Any other input or output failure.
    Io(String),
}

impl Error {
    /// An invalid setting.
    pub fn invalid(field: &'static str, reason: String) -> (res: Self)
        ensures
            res == (Error::InvalidSetting { field, reason }),
    {
        Error::InvalidSetting { field, reason }
    }

    /// Whether the error is the caller's doing (a bad setting or input)
    /// rather than something going wrong while converting.
    pub fn is_user_error(&self) -> (res: bool)
        ensures
            res == (self is UnsupportedInput || self is InvalidSetting),
    {
        match self {
            Error::UnsupportedInput(_) | Error::InvalidSetting { .. } => true,
            _ => false,
        }
    }
}

/// What an error says.
pub open spec fn error_message(e: Error) -> Seq<char> {
    match e {
        Error::UnsupportedInput(s) => "not a glTF model: "@ + s@ + " (expected .glb or .gltf)"@,
        Error::Read { path, message } => "could not read "@ + path@ + ": "@ + message@,
        Error::Write { path, message } => "could not write "@ + path@ + ": "@ + message@,
        Error::Mesh(s) => "could not load the model: "@ + s@,
        Error::NoGeometry => "the model has no triangle geometry"@,
        Error::NoVoxels => "voxelization produced no voxels — try a larger max size or a smaller voxel size"@,
        Error::Voxelizer(s) => "voxelization failed: "@ + s@,
        Error::InvalidSetting { field, reason } => "invalid "@ + field@ + ": "@ + reason@,
        Error::EmptyPalette => "the color table is empty"@,
        Error::NoTextures(p) => "no usable block textures in "@ + p@
            + " — point it at assets/minecraft/textures/block"@,
        Error::Cancelled => "conversion cancelled"@,
        Error::Io(s) => s@,
    }
}

fn joined3(a: &str, b: &str, c: &str) -> (res: String)
    ensures
        res@ == a@ + b@ + c@,
{
    let mut out = String::new();
    push_str(&mut out, a);
    push_str(&mut out, b);
    push_str(&mut out, c);
    out
}

fn joined4(a: &str, b: &str, c: &str, d: &str) -> (res: String)
    ensures
        res@ == a@ + b@ + c@ + d@,
{
    let mut out = joined3(a, b, c);
    push_str(&mut out, d);
    out
}

impl Error {
    /// The error's message, as it is shown.
    pub fn message(&self) -> (res: String)
        ensures
            res@ == error_message(*self),
    {
        proof {
            reveal_strlit("");
        }
        match self {
            Error::UnsupportedInput(s) => joined3(
                "not a glTF model: ",
                s.as_str(),
                " (expected .glb or .gltf)",
            ),
            Error::Read { path, message } => joined4(
                "could not read ",
                path.as_str(),
                ": ",
                message.as_str(),
            ),
            Error::Write { path, message } => joined4(
                "could not write ",
                path.as_str(),
                ": ",
                message.as_str(),
            ),
            Error::Mesh(s) => joined3("could not load the model: ", s.as_str(), ""),
            Error::NoGeometry => "the model has no triangle geometry".to_owned(),
            Error::NoVoxels => "voxelization produced no voxels — try a larger max size or a smaller voxel size".to_owned(),
            Error::Voxelizer(s) => joined3("voxelization failed: ", s.as_str(), ""),
            Error::InvalidSetting { field, reason } => joined4(
                "invalid ",
                field,
                ": ",
                reason.as_str(),
            ),
            Error::EmptyPalette => "the color table is empty".to_owned(),
            Error::NoTextures(p) => joined3(
                "no usable block textures in ",
                p.as_str(),
                " — point it at assets/minecraft/textures/block",
            ),
            Error::Cancelled => "conversion cancelled".to_owned(),
            Error::Io(s) => s.clone(),
        }
    }
}

} // verus!
