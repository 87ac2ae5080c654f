//! A sample request/response service: requests carry a value, the
//! service answers each with three times that value and counts the calls.

use vstd::prelude::*;

use crate::render::push_str;

verus! {

/// Enum of error types used throughout the server
#[derive(Debug, Clone)]
pub enum AppError {
    /// Server config error
    ServerConfig(String),
    /// Server runtime failure
    ServerRuntimeFailure(String),
}

/// A Sample Request Object
#[derive(Debug)]
pub struct SampleRequest {
    /// The value within the request
    value: usize,
}

impl SampleRequest {
    /// Create a new sample request
    pub fn new(value: usize) -> (r: SampleRequest)
        ensures
            r.spec_value() == value,
    {
        SampleRequest { value }
    }

    pub closed spec fn spec_value(&self) -> usize {
        self.value
    }

    /// Return the value of the request
    pub fn value(&self) -> (r: usize)
        ensures
            r == self.spec_value(),
    {
        self.value
    }
}

/// A sample response object
#[derive(Debug)]
pub struct SampleResponse {
    /// The value of the response object
    value: usize,
}

impl SampleResponse {
    /// Create new response object
    pub fn new(value: usize) -> (r: Result<SampleResponse, AppError>)
        ensures
            r matches Ok(resp) && resp.spec_value() == value,
    {
        Ok(SampleResponse { value })
    }

    pub closed spec fn spec_value(&self) -> usize {
        self.value
    }

    /// Return the value of a response object
    pub fn value(&self) -> (r: usize)
        ensures
            r == self.spec_value(),
    {
        self.value
    }
}

/// The service: answers requests and counts them.
#[derive(Debug)]
pub struct SampleService {
    count: usize,
}

impl SampleService {
    /// A service that has answered nothing yet.
    pub fn new() -> (r: SampleService)
        ensures
            r.spec_count() == 0,
    {
        SampleService { count: 0 }
    }

    pub closed spec fn spec_count(&self) -> usize {
        self.count
    }

    /// The number of requests answered.
    pub fn count(&self) -> (r: usize)
        ensures
            r == self.spec_count(),
    {
        self.count
    }

    /// Answer a request with three times its value, and count it.
    pub fn call(&mut self, req: SampleRequest) -> (r: Result<SampleResponse, AppError>)
        requires
            req.spec_value() * 3 <= usize::MAX,
            old(self).spec_count() < usize::MAX,
        ensures
            r matches Ok(resp) && resp.spec_value() == req.spec_value() * 3,
            final(self).spec_count() == old(self).spec_count() + 1,
    {
        let response = SampleResponse::new(req.value() * 3);
        // increment our processing count
        self.count += 1;
        response
    }
}

/// A sample server: a service, its transceivers, and the signal it shuts
/// down on. Waiting on the signal is left to whoever runs the server.
pub struct Server<S, T, F> {
    /// Service handlers for the server
    service: S,
    /// Transceivers for the server
    transceivers: Vec<T>,
    /// Next transceiver
    next_transceiver: usize,
    /// Used to shut the server down
    signal: F,
}

impl<T> Server<(), T, ()> {
    /// Creates a new builder
    pub fn builder() -> (r: Builder<T>)
        ensures
            r.spec_transceivers() == Seq::<T>::empty(),
    {
        Builder { transceivers: Vec::new() }
    }
}

impl<S, T, F> Server<S, T, F> {
    pub closed spec fn spec_transceivers(&self) -> Seq<T> {
        self.transceivers@
    }

    pub closed spec fn spec_next(&self) -> usize {
        self.next_transceiver
    }

    /// The number of transceivers.
    pub fn transceiver_count(&self) -> (r: usize)
        ensures
            r == self.spec_transceivers().len(),
    {
        self.transceivers.len()
    }
}

/// A builder for constructing servers
#[derive(Debug)]
pub struct Builder<T> {
    transceivers: Vec<T>,
}

impl<T> Builder<T> {
    pub closed spec fn spec_transceivers(&self) -> Seq<T> {
        self.transceivers@
    }

    /// Add a transceiver to the server
    pub fn with_transceiver(self, transceiver: T) -> (r: Builder<T>)
        ensures
            r.spec_transceivers() == self.spec_transceivers().push(transceiver),
    {
        let mut b = self;
        b.transceivers.push(transceiver);
        b
    }

    /// Start the server and include a shutdown signal: a configuration
    /// error when no transceiver was added.
    pub fn serve_with_shutdown<S, F>(self, service: S, signal: F) -> (r: Result<
        Server<S, T, F>,
        AppError,
    >)
        ensures
            r is Err <==> self.spec_transceivers().len() == 0,
            r matches Err(e) ==> e is ServerConfig,
            r matches Ok(server) ==> server.spec_transceivers() == self.spec_transceivers()
                && server.spec_next() == 0,
    {
        if self.transceivers.len() == 0 {
            let mut msg = String::new();
            push_str(&mut msg, "Trying to start server with no transceivers");
            return Err(AppError::ServerConfig(msg));
        }
        Ok(
            Server {
                service,
                transceivers: self.transceivers,
                next_transceiver: 0,
                signal,
            },
        )
    }
}

/// The internal state of a transceiver
#[derive(Debug, Clone)]
pub struct TransceiverState {
    /// transceiver value
    pub value: usize,
    /// count of items to generate
    pub n_gen: usize,
    /// delay between generated items in seconds
    pub delay: u64,
    /// signals shutdown
    pub done: bool,
}

} // verus!
