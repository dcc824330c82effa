//! The decisions of one connection session, as a state machine from event
//! to action; the reading, writing and waiting are left to the caller.

use vstd::prelude::*;

use crate::decode::decoded;
use crate::decode::parse_reading;
use crate::parser::parsed_at;
use crate::parser::ParsedData;
use crate::frame::append_step;
use crate::frame::Reassembler;
use crate::parser::DecodeError;

verus! {

/// Whether a byte source is connected.
#[derive(Clone, Copy, Debug, PartialEq, Eq, Structural)]
pub enum Link {
    Disconnected,
    Streaming,
}

/// What the outside world reports to a session.
pub enum Event {
    /// The byte source was opened.
    Opened,
    /// Opening the byte source failed.
    OpenFailed,
    /// A read gave these bytes (possibly none).
    Received(Vec<u8>),
    /// A read failed; the connection is lost.
    ReadFailed,
}

/// What a session asks the outside world to do next.
pub enum Action {
    /// Wait `delay_ms` milliseconds, then open the byte source.
    Connect { delay_ms: u64 },
    /// Read the next chunk.
    Read,
    /// Hand the outcome of one frame to the sink, then read the next chunk.
    Deliver(Result<ParsedData, DecodeError>),
}

/// The decisions of a connection session: it reassembles frames from the
/// chunks read, decodes each, and reconnects after a failure. The buffered
/// bytes are dropped whenever a connection ends, so that no frame is glued
/// together from two connections.
pub struct Session {
    link: Link,
    frames: Reassembler,
    retry_ms: u64,
}

impl Session {
    /// Whether the session is connected.
    pub closed spec fn spec_link(&self) -> Link {
        self.link
    }

    /// The bytes received since the last frame.
    pub closed spec fn buffer(&self) -> Seq<u8> {
        self.frames@
    }

    /// The byte that ends a frame.
    pub closed spec fn spec_marker(&self) -> u8 {
        self.frames.spec_marker()
    }

    /// How long to wait before connecting again after a failure.
    pub closed spec fn spec_retry_ms(&self) -> u64 {
        self.retry_ms
    }

    /// A disconnected session for frames ended by `marker`.
    pub fn new(marker: u8, retry_ms: u64) -> (r: Session)
        ensures
            r.spec_link() == Link::Disconnected,
            r.buffer() == Seq::<u8>::empty(),
            r.spec_marker() == marker,
            r.spec_retry_ms() == retry_ms,
    {
        Session { link: Link::Disconnected, frames: Reassembler::new(marker), retry_ms }
    }

    /// Whether the session is connected.
    pub fn link(&self) -> (r: Link)
        ensures
            r == self.spec_link(),
    {
        self.link
    }

    /// The first action of a session: connect at once.
    pub fn start(&self) -> (r: Action)
        ensures
            r == (Action::Connect { delay_ms: 0 }),
    {
        Action::Connect { delay_ms: 0 }
    }

    /// Takes in one event and says what to do next.
    /// - `Opened`: streaming starts from an empty buffer; read.
    /// - `OpenFailed` or `ReadFailed`: disconnected, buffer dropped; connect
    ///   again after the retry delay.
    /// - `Received` while streaming: the chunk goes to the reassembler; a frame
    ///   that comes out is decoded and delivered, else read on.
    /// - `Received` while disconnected: the bytes are dropped; connect again
    ///   after the retry delay.
    pub fn step(&mut self, event: Event) -> (r: Action)
        ensures
            final(self).spec_marker() == old(self).spec_marker(),
            final(self).spec_retry_ms() == old(self).spec_retry_ms(),
            match event {
                Event::Opened => {
                    &&& final(self).spec_link() == Link::Streaming
                    &&& final(self).buffer() == Seq::<u8>::empty()
                    &&& r is Read
                },
                Event::Received(chunk) => if old(self).spec_link() == Link::Streaming {
                    let (rest, frame) = append_step(
                        old(self).buffer(),
                        chunk@,
                        old(self).spec_marker(),
                    );
                    &&& final(self).spec_link() == Link::Streaming
                    &&& final(self).buffer() == rest
                    &&& match frame {
                        Some(f) => r is Deliver && parsed_at(r->Deliver_0) == decoded(f),
                        None => r is Read,
                    }
                } else {
                    &&& final(self).spec_link() == Link::Disconnected
                    &&& final(self).buffer() == Seq::<u8>::empty()
                    &&& r == (Action::Connect { delay_ms: old(self).spec_retry_ms() })
                },
                _ => {
                    &&& final(self).spec_link() == Link::Disconnected
                    &&& final(self).buffer() == Seq::<u8>::empty()
                    &&& r == (Action::Connect { delay_ms: old(self).spec_retry_ms() })
                },
            },
    {
        match event {
            Event::Opened => {
                self.frames.clear();
                self.link = Link::Streaming;
                Action::Read
            },
            Event::Received(chunk) => {
                if self.link == Link::Streaming {
                    match self.frames.append(chunk.as_slice()) {
                        Some(frame) => Action::Deliver(parse_reading(frame.as_slice())),
                        None => Action::Read,
                    }
                } else {
                    self.frames.clear();
                    Action::Connect { delay_ms: self.retry_ms }
                }
            },
            _ => {
                self.frames.clear();
                self.link = Link::Disconnected;
                Action::Connect { delay_ms: self.retry_ms }
            },
        }
    }
}

} // verus!
