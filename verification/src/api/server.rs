//! The decisions of the server around its handlers.
use vstd::prelude::*;
use vstd::string::*;
use crate::api::types::ApiError;
use crate::memdb::stash::SyncStatus;
use crate::text::{parse_i64_text, spec_parse_i64, str_eq};

verus! {

/// Result from a healthcheck.
#[derive(Clone, Copy, Debug, PartialEq, Eq, Structural)]
pub struct HealthCheckResponse {
    pub is_offline: bool,
    pub is_healthy: bool,
    pub sync_lag: u32,
}

/// Controls how the server binds to sockets.
#[derive(Clone, Debug, PartialEq, Eq)]
pub enum BindOptions {
    /// Bind according to the config file.
    UseConfig,
    /// Bind to a file descriptor.
    BindToFd(i32),
    /// Bind to a specific address (`host:port`).
    BindToAddr(String),
}

/// The handler that a request goes to.
#[derive(Clone, Copy, Debug, PartialEq, Eq, Structural)]
pub enum Route {
    Health,
    Lookup,
    Sdks,
    NotFound,
    BadRequest,
}

/// The greatest number of bytes of the body of a request.
pub const MAX_REQUEST_BYTES: u64 = 2097152;

/// What the health check answers: with the sync switched off, healthy
/// and offline; before the first probe, unhealthy and offline; else
/// what the last probe found.
pub open spec fn spec_healthcheck_result(enable_sync: bool, cached: Option<SyncStatus>) -> HealthCheckResponse {
    if enable_sync {
        match cached {
            Some(state) => HealthCheckResponse {
                is_offline: state.spec_is_offline(),
                is_healthy: state.spec_is_healthy(),
                sync_lag: state.spec_lag(),
            },
            None => HealthCheckResponse { is_offline: true, is_healthy: false, sync_lag: 0 },
        }
    } else {
        HealthCheckResponse { is_offline: true, is_healthy: true, sync_lag: 0 }
    }
}

/// Works out the answer of the health check from the last status that
/// a probe stored.
pub fn get_healthcheck_result(enable_sync: bool, cached: Option<&SyncStatus>) -> (r:
    HealthCheckResponse)
    ensures
        r == spec_healthcheck_result(
            enable_sync,
            match cached {
                Some(s) => Some(*s),
                None => None,
            },
        ),
{
    if enable_sync {
        match cached {
            Some(state) => HealthCheckResponse {
                is_offline: state.is_offline(),
                is_healthy: state.is_healthy(),
                sync_lag: state.lag(),
            },
            None => HealthCheckResponse { is_offline: true, is_healthy: false, sync_lag: 0 },
        }
    } else {
        HealthCheckResponse { is_offline: true, is_healthy: true, sync_lag: 0 }
    }
}

/// The HTTP status of the answer of a health check: 200 where healthy,
/// 503 where not.
pub fn health_status(response: &HealthCheckResponse) -> (r: u16)
    ensures
        r == if response.is_healthy {
            200u16
        } else {
            503u16
        },
{
    if response.is_healthy {
        200
    } else {
        503
    }
}

/// Whether the body of a request may be read: its length must be
/// given and must not be above two MiB.
pub fn check_content_length(length: Option<u64>) -> (r: Result<(), ApiError>)
    ensures
        match length {
            Some(l) => if l > MAX_REQUEST_BYTES {
                r matches Err(ApiError::PayloadTooLarge)
            } else {
                r is Ok
            },
            None => r matches Err(ApiError::BadRequest),
        },
{
    match length {
        Some(l) => if l > MAX_REQUEST_BYTES {
            Err(ApiError::PayloadTooLarge)
        } else {
            Ok(())
        },
        None => Err(ApiError::BadRequest),
    }
}

/// The handler for the path of a request: `BadRequest` for a request
/// whose target is no path.
pub open spec fn spec_route(path: Option<Seq<char>>) -> Route {
    match path {
        Some(p) => if p == "/health"@ {
            Route::Health
        } else if p == "/lookup"@ {
            Route::Lookup
        } else if p == "/sdks"@ {
            Route::Sdks
        } else {
            Route::NotFound
        },
        None => Route::BadRequest,
    }
}

/// Picks the handler for the path of a request.
pub fn route(path: Option<&str>) -> (r: Route)
    ensures
        r == spec_route(
            match path {
                Some(p) => Some(p@),
                None => None,
            },
        ),
{
    match path {
        Some(p) => if str_eq(p, "/health") {
            Route::Health
        } else if str_eq(p, "/lookup") {
            Route::Lookup
        } else if str_eq(p, "/sdks") {
            Route::Sdks
        } else {
            Route::NotFound
        },
        None => Route::BadRequest,
    }
}

/// Whether a handler takes the method of a request: looking symbols up
/// takes POST, all else takes GET.
pub fn check_method(route: Route, is_get: bool, is_post: bool) -> (r: Result<(), ApiError>)
    ensures
        match route {
            Route::Lookup => if is_post {
                r is Ok
            } else {
                r matches Err(ApiError::MethodNotAllowed)
            },
            Route::Health | Route::Sdks => if is_get {
                r is Ok
            } else {
                r matches Err(ApiError::MethodNotAllowed)
            },
            Route::NotFound => r matches Err(ApiError::NotFound),
            Route::BadRequest => r matches Err(ApiError::BadRequest),
        },
{
    match route {
        Route::Lookup => if is_post {
            Ok(())
        } else {
            Err(ApiError::MethodNotAllowed)
        },
        Route::Health => if is_get {
            Ok(())
        } else {
            Err(ApiError::MethodNotAllowed)
        },
        Route::Sdks => if is_get {
            Ok(())
        } else {
            Err(ApiError::MethodNotAllowed)
        },
        Route::NotFound => Err(ApiError::NotFound),
        Route::BadRequest => Err(ApiError::BadRequest),
    }
}

/// What a text means as a file descriptor.
pub open spec fn spec_parse_fd(s: Seq<char>) -> Option<i32> {
    match spec_parse_i64(s) {
        Some(v) => if -0x8000_0000 <= v <= 0x7fff_ffff {
            Some(v as i32)
        } else {
            None
        },
        None => None,
    }
}

/// How the server binds, given what the command line says: to the
/// address where one is given, else to the file descriptor where one
/// is given, else as the configuration says. `None` where the file
/// descriptor is no number.
pub fn bind_options(bind: Option<&str>, bind_fd: Option<&str>) -> (r: Option<BindOptions>)
    ensures
        match bind {
            Some(addr) => r matches Some(BindOptions::BindToAddr(a)) && a@ == addr@,
            None => match bind_fd {
                Some(fd) => match spec_parse_fd(fd@) {
                    Some(n) => r matches Some(BindOptions::BindToFd(m)) && m == n,
                    None => r is None,
                },
                None => r matches Some(BindOptions::UseConfig),
            },
        },
{
    match bind {
        Some(addr) => Some(BindOptions::BindToAddr(String::from_str(addr))),
        None => match bind_fd {
            Some(fd) => match parse_i64_text(fd) {
                Some(v) => if -0x8000_0000 <= v && v <= 0x7fff_ffff {
                    Some(BindOptions::BindToFd(v as i32))
                } else {
                    None
                },
                None => None,
            },
            None => Some(BindOptions::UseConfig),
        },
    }
}

} // verus!
