//! How the HTTP API answers: its errors, with their status codes, and
//! the decisions its routes share.
use vstd::prelude::*;
use crate::error::{error_message, Error};
use crate::grid::views;
use crate::jobs::Status;
use crate::text::push_str;

verus! {

/// An API failure: an HTTP status and the message sent with it.
#[derive(Debug, Clone, PartialEq, Eq)]
pub struct ApiError {
    pub status: u16,
    pub message: String,
}

impl ApiError {
    pub fn new(status: u16, message: String) -> (res: ApiError)
        ensures
            res.status == status,
            res.message == message,
    {
        ApiError { status, message }
    }

    /// 400: the request is wrong.
    pub fn bad_request(message: String) -> (res: ApiError)
        ensures
            res.status == 400,
            res.message == message,
    {
        ApiError { status: 400, message }
    }

    /// 404.
    pub fn not_found(message: String) -> (res: ApiError)
        ensures
            res.status == 404,
            res.message == message,
    {
        ApiError { status: 404, message }
    }

    /// 409: the request does not fit the job's state.
    pub fn conflict(message: String) -> (res: ApiError)
        ensures
            res.status == 409,
            res.message == message,
    {
        ApiError { status: 409, message }
    }

    /// 500: the server failed.
    pub fn internal(message: String) -> (res: ApiError)
        ensures
            res.status == 500,
            res.message == message,
    {
        ApiError { status: 500, message }
    }

    /// A job id the server does not know.
    pub fn unknown_job() -> (res: ApiError)
        ensures
            res.status == 404,
            res.message@ == "Unknown job"@,
    {
        ApiError::not_found("Unknown job".to_owned())
    }

    /// A conversion error as the API reports it: 400 for the caller's
    /// mistakes, 409 for a cancellation, 422 for a model that would not
    /// convert.
    pub fn from_error(e: &Error) -> (res: ApiError)
        ensures
            res.status == if e is UnsupportedInput || e is InvalidSetting {
                400u16
            } else if e is Cancelled {
                409u16
            } else {
                422u16
            },
            res.message@ == error_message(*e),
    {
        let status: u16 = if e.is_user_error() {
            400
        } else if matches!(e, Error::Cancelled) {
            409
        } else {
            422
        };
        ApiError { status, message: e.message() }
    }
}

/// Whether a job's schematic can be downloaded, saved or revealed: only
/// once it is done.
pub fn download_ready(status: Status) -> (res: Result<(), ApiError>)
    ensures
        status == Status::Done ==> res is Ok,
        (status == Status::Error || status == Status::Cancelled) ==> (res matches Err(e)
            && e.status == 409 && e.message@ == "The conversion did not finish"@),
        (status == Status::Queued || status == Status::Running) ==> (res matches Err(e)
            && e.status == 409 && e.message@ == "Conversion is not finished yet"@),
{
    match status {
        Status::Done => Ok(()),
        Status::Error | Status::Cancelled => Err(
            ApiError::conflict("The conversion did not finish".to_owned()),
        ),
        Status::Queued | Status::Running => Err(
            ApiError::conflict("Conversion is not finished yet".to_owned()),
        ),
    }
}

/// A job's status as API v1 names it.
pub fn v1_status(status: Status) -> (res: &'static str)
    ensures
        res@ == match status {
            Status::Queued | Status::Running => "running"@,
            Status::Done => "done"@,
            Status::Error | Status::Cancelled => "error"@,
        },
{
    match status {
        Status::Queued | Status::Running => "running",
        Status::Done => "done",
        Status::Error | Status::Cancelled => "error",
    }
}

/// `names` joined with `, `.
pub open spec fn comma_list(names: Seq<Seq<char>>) -> Seq<char>
    decreases names.len(),
{
    if names.len() == 0 {
        seq![]
    } else if names.len() == 1 {
        names[0]
    } else {
        comma_list(names.drop_last()) + ", "@ + names.last()
    }
}

/// Why a request with no model to convert is refused, naming the files it
/// skipped.
pub fn no_models_message(skipped: &Vec<String>) -> (res: String)
    ensures
        res@ == if skipped@.len() == 0 {
            "Upload at least one .glb or .gltf model"@
        } else {
            "Only .glb / .gltf models are supported (got "@ + comma_list(views(skipped@)) + ")"@
        },
{
    if skipped.len() == 0 {
        return "Upload at least one .glb or .gltf model".to_owned();
    }
    let ghost sv = views(skipped@);
    let mut list = String::new();
    let mut i: usize = 0;
    while i < skipped.len()
        invariant
            sv == views(skipped@),
            i <= skipped@.len(),
            list@ == comma_list(sv.take(i as int)),
        decreases skipped.len() - i,
    {
        assert(sv.take(i + 1).drop_last() =~= sv.take(i as int));
        if i > 0 {
            push_str(&mut list, ", ");
        } else {
            assert(list@ =~= Seq::<char>::empty());
        }
        push_str(&mut list, skipped[i].as_str());
        i += 1;
        assert(list@ =~= comma_list(sv.take(i as int)));
    }
    assert(sv.take(skipped@.len() as int) =~= sv);
    let mut out = "Only .glb / .gltf models are supported (got ".to_owned();
    push_str(&mut out, list.as_str());
    push_str(&mut out, ")");
    out
}

/// Why an API v1 batch with no model to convert is refused.
pub fn v1_no_models_message(skipped_any: bool) -> (res: &'static str)
    ensures
        res@ == if skipped_any {
            "No valid .glb / .gltf files found"@
        } else {
            "No files uploaded"@
        },
{
    if skipped_any {
        "No valid .glb / .gltf files found"
    } else {
        "No files uploaded"
    }
}

/// A folder typed in a UI.
pub struct FolderRequest {
    pub path: String,
}

} // verus!
