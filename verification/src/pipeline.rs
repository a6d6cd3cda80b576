//! What a conversion checks before it starts a voxelizer: that its input
//! is a glTF model and is there.
use vstd::prelude::*;
use crate::error::Error;
use crate::request::{gltf_name, is_gltf};

verus! {

/// Only glTF goes in (`.glb` or `.gltf`, in any case), and only a file that
/// is there (`is_file`): the refusal names the input as given.
pub fn check_input(input: &str, is_file: bool) -> (res: Result<(), Error>)
    ensures
        !gltf_name(input@) ==> (res matches Err(Error::UnsupportedInput(s)) && s@ == input@),
        gltf_name(input@) && !is_file ==> (res matches Err(Error::Read { path, message }) && path@
            == input@ && message@ == "entity not found"@),
        gltf_name(input@) && is_file ==> res is Ok,
{
    if !is_gltf(input) {
        return Err(Error::UnsupportedInput(input.to_owned()));
    }
    if !is_file {
        return Err(Error::Read { path: input.to_owned(), message: "entity not found".to_owned() });
    }
    Ok(())
}

} // verus!
