//! Errors answered to API clients: an HTTP status and a detail message.
use vstd::prelude::*;

verus! {

#[derive(Debug, Clone)]
pub struct AppError {
    pub status: u16,
    pub detail: String,
}

impl AppError {
    fn with(status: u16, detail: &str) -> (e: AppError)
        ensures
            e.status == status,
            e.detail@ == detail@,
    {
        AppError { status, detail: String::from_str(detail) }
    }

    /// 400: the request is malformed or not acceptable.
    pub fn bad(detail: &str) -> (e: AppError)
        ensures
            e.status == 400,
            e.detail@ == detail@,
    {
        AppError::with(400, detail)
    }

    /// 401: no valid login.
    pub fn unauthorized(detail: &str) -> (e: AppError)
        ensures
            e.status == 401,
            e.detail@ == detail@,
    {
        AppError::with(401, detail)
    }

    /// 403: logged in, but not allowed.
    pub fn forbidden(detail: &str) -> (e: AppError)
        ensures
            e.status == 403,
            e.detail@ == detail@,
    {
        AppError::with(403, detail)
    }

    /// 404: the named upload or result does not exist.
    pub fn not_found(detail: &str) -> (e: AppError)
        ensures
            e.status == 404,
            e.detail@ == detail@,
    {
        AppError::with(404, detail)
    }

    /// 413: the upload exceeds the size limit.
    pub fn too_large(detail: &str) -> (e: AppError)
        ensures
            e.status == 413,
            e.detail@ == detail@,
    {
        AppError::with(413, detail)
    }

    /// 504: the search ran past its deadline.
    pub fn timeout(detail: &str) -> (e: AppError)
        ensures
            e.status == 504,
            e.detail@ == detail@,
    {
        AppError::with(504, detail)
    }

    /// 503: a service the request depends on is missing or failing.
    pub fn unavailable(detail: &str) -> (e: AppError)
        ensures
            e.status == 503,
            e.detail@ == detail@,
    {
        AppError::with(503, detail)
    }

    /// 500: the server failed.
    pub fn internal(detail: &str) -> (e: AppError)
        ensures
            e.status == 500,
            e.detail@ == detail@,
    {
        AppError::with(500, detail)
    }
}

} // verus!
