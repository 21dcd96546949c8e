//! The pieces a server hands to the HTTP stack around each connection: a
//! response body that yields its data in one frame, and a wrapper that keeps
//! a connection's stream on the thread that accepted it.

use vstd::prelude::*;
use std::marker::PhantomData;
use std::rc::Rc;

verus! {

/// A response body that yields all of its data in a single frame and then
/// ends. It is neither `Send` nor `Sync`, so a server that uses it keeps each
/// response on the thread that built it.
pub struct ResponseBody<D> {
    _marker: PhantomData<Rc<()>>,
    data: Option<D>,
}

impl<D> ResponseBody<D> {
    /// The data not yet handed out: `None` once the body has ended.
    pub closed spec fn pending(self) -> Option<D> {
        self.data
    }

    /// A body whose single frame carries `data`.
    pub fn new(data: D) -> (body: Self)
        ensures
            body.pending() == Some(data),
    {
        ResponseBody { _marker: PhantomData, data: Some(data) }
    }

    /// The next frame: the data on the first call, `None` (end of body) on
    /// every call after it.
    pub fn poll_data(&mut self) -> (frame: Option<D>)
        ensures
            frame == old(self).pending(),
            final(self).pending().is_none(),
    {
        self.data.take()
    }
}

/// A connection's stream, marked so that it cannot leave the thread it was
/// created on.
pub struct IOTypeNotSend<S> {
    _marker: PhantomData<Rc<()>>,
    stream: S,
}

impl<S> IOTypeNotSend<S> {
    /// The wrapped stream.
    pub closed spec fn stream(self) -> S {
        self.stream
    }

    /// Wraps `stream`.
    pub fn new(stream: S) -> (io: Self)
        ensures
            io.stream() == stream,
    {
        IOTypeNotSend { _marker: PhantomData, stream }
    }

    /// The wrapped stream, to read from or write to.
    pub fn stream_mut(&mut self) -> (stream: &mut S)
        ensures
            *stream == old(self).stream(),
            final(self).stream() == *final(stream),
    {
        &mut self.stream
    }

    /// Gives the stream back.
    pub fn into_inner(self) -> (stream: S)
        ensures
            stream == self.stream(),
    {
        self.stream
    }
}

} // verus!
