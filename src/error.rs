use vstd::prelude::*;

verus! {

/// An error shown to the user: an HTTP-like status, a readable message and
/// the request id that the storage service gave, if any.
#[derive(Debug, Clone)]
pub struct AppError {
    pub status: u16,
    pub message: String,
    pub req_id: String,
}

impl AppError {
    /// An error raised by the application itself (status 400).
    pub fn message(message: String) -> (r: AppError)
        ensures
            r.status == 400,
            r.message@ == message@,
            r.req_id@ == Seq::<char>::empty(),
    {
        AppError { status: 400, message, req_id: String::new() }
    }

    /// An error reported by a collaborator (storage service, runtime, file
    /// system), already rendered to text (status 500).
    pub fn err(message: String) -> (r: AppError)
        ensures
            r.status == 500,
            r.message@ == message@,
            r.req_id@ == Seq::<char>::empty(),
    {
        AppError { status: 500, message, req_id: String::new() }
    }
}

/// Adding a remote under a name that the registry already holds.
#[derive(Debug, Clone)]
pub struct DuplicateRemoteError {
    pub name: String,
}

} // verus!
