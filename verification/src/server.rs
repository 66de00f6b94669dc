//! The rules of the web interface's kill endpoint, `POST /kill/{pid}`.
use vstd::prelude::*;

verus! {

/// HTTP 200: the process was killed.
pub const STATUS_OK: u16 = 200;

/// HTTP 400: the process id is not a positive number.
pub const STATUS_BAD_REQUEST: u16 = 400;

/// HTTP 403: the request lacks the `X-Requested-With` header.
pub const STATUS_FORBIDDEN: u16 = 403;

/// HTTP 500: `kill` could not be run or did not succeed.
pub const STATUS_INTERNAL_SERVER_ERROR: u16 = 500;

/// The header that a kill request must carry.
pub const REQUESTED_WITH_HEADER: &'static str = "x-requested-with";

/// The address that the web interface listens on: the loopback address
/// `127.0.0.1` only, so that no other machine reaches it.
pub fn listen_address(port: u16) -> (r: ([u8; 4], u16))
    ensures
        r.0@ == seq![127u8, 0u8, 0u8, 1u8],
        r.1 == port,
{
    let a: [u8; 4] = [127, 0, 0, 1];
    assert(a@ =~= seq![127u8, 0u8, 0u8, 1u8]);
    (a, port)
}

/// Whether a kill request may go ahead: one without the `X-Requested-With`
/// header (which a plain form cannot send, so a page of another site cannot
/// make the browser kill processes) is forbidden, one for a process id that
/// is not positive is a bad request; otherwise the process id to kill.
pub fn check_kill_request(has_requested_with: bool, pid: i64) -> (r: Result<i64, u16>)
    ensures
        !has_requested_with ==> r == Err::<i64, u16>(STATUS_FORBIDDEN),
        has_requested_with && pid <= 0 ==> r == Err::<i64, u16>(STATUS_BAD_REQUEST),
        has_requested_with && pid > 0 ==> r == Ok::<i64, u16>(pid),
{
    if !has_requested_with {
        return Err(STATUS_FORBIDDEN);
    }
    if pid <= 0 {
        return Err(STATUS_BAD_REQUEST);
    }
    Ok(pid)
}

/// The answer once `kill` has been tried: `Some(success)` where it ran and
/// told whether it succeeded, `None` where it could not be run.
pub fn kill_result_status(outcome: Option<bool>) -> (code: u16)
    ensures
        code == (if outcome == Some(true) {
            STATUS_OK
        } else {
            STATUS_INTERNAL_SERVER_ERROR
        }),
{
    match outcome {
        Some(true) => STATUS_OK,
        _ => STATUS_INTERNAL_SERVER_ERROR,
    }
}

} // verus!
