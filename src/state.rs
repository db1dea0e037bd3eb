//! Shared state of the HTTP service: a count of the requests served.
use vstd::prelude::*;

verus! {

/// The request counter of the HTTP service.
#[derive(Clone)]
pub struct AppState {
    pub request_count: u64,
}

impl AppState {
    /// A state that has counted no request.
    pub fn new() -> (r: Self)
        ensures
            r.request_count == 0,
    {
        AppState { request_count: 0 }
    }

    /// Counts one more request.
    pub fn increment_requests(&mut self)
        requires
            old(self).request_count < u64::MAX,
        ensures
            final(self).request_count == old(self).request_count + 1,
    {
        self.request_count = self.request_count + 1;
    }

    /// The number of requests counted so far.
    pub fn get_request(&self) -> (r: u64)
        ensures
            r == self.request_count,
    {
        self.request_count
    }
}

/// A counter that tasks bump one at a time.
pub struct CanIncrement {
    pub value: i32,
}

impl CanIncrement {
    /// Adds one to the counter.
    pub fn increment(&mut self)
        requires
            old(self).value < i32::MAX,
        ensures
            final(self).value == old(self).value + 1,
    {
        self.value = self.value + 1;
    }
}

/// The inclusive range that an identifier must fall in.
#[derive(Debug, Clone, Copy)]
pub struct Limit {
    pub li: u32,
    pub hi: u32,
}

/// Credentials posted to the HTTP service.
pub struct Creds {
    pub id: u32,
    pub name: String,
    pub email: String,
}

/// The layer that wraps a service in request logging.
#[derive(Clone)]
pub struct LoggingLayer;

/// A service wrapped in request logging.
#[derive(Clone)]
pub struct LoggingMiddleware<S> {
    pub inner: S,
}

impl LoggingLayer {
    /// Wraps `inner` in request logging.
    pub fn layer<S>(&self, inner: S) -> (r: LoggingMiddleware<S>)
        ensures
            r.inner == inner,
    {
        LoggingMiddleware { inner }
    }
}

} // verus!
