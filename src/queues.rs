use std::collections::VecDeque;
use vstd::prelude::*;

verus! {

/// Writes wait while more than this many bytes are waiting to be sent.
pub const WRITE_CAP: usize = 100_000;

/// The error that handle operations on a closed stream give.
#[derive(Clone, Copy, Debug, PartialEq, Eq, Structural)]
pub enum StreamError {
    BrokenPipe,
}

/// The buffers between a stream's handles and its state machine.
pub struct StreamQueues {
    /// Bytes from the other end, waiting to be read.
    pub read_stream: VecDeque<u8>,
    /// Bytes waiting to be sent to the other end.
    pub write_stream: VecDeque<u8>,
    /// Unreliable datagrams received from the other end.
    pub recv_urel: VecDeque<Vec<u8>>,
    /// Unreliable datagrams waiting to be sent.
    pub send_urel: VecDeque<Vec<u8>>,
    pub connected: bool,
    pub closed: bool,
}

impl StreamQueues {
    pub fn new() -> (r: StreamQueues)
        ensures
            r.read_stream@.len() == 0,
            r.write_stream@.len() == 0,
            r.recv_urel@.len() == 0,
            r.send_urel@.len() == 0,
            !r.connected,
            !r.closed,
    {
        StreamQueues {
            read_stream: VecDeque::new(),
            write_stream: VecDeque::new(),
            recv_urel: VecDeque::new(),
            send_urel: VecDeque::new(),
            connected: false,
            closed: false,
        }
    }

    /// Whether a read can complete now: bytes are waiting or the stream is closed.
    pub fn read_ready(&self) -> (r: bool)
        ensures
            r == (self.read_stream@.len() > 0 || self.closed),
    {
        self.read_stream.len() > 0 || self.closed
    }

    /// Takes up to `max` bytes from the front of the read buffer. On a closed
    /// stream with nothing buffered this gives no bytes: end of stream.
    pub fn read_bytes(&mut self, max: usize) -> (r: Vec<u8>)
        ensures
            old(self).closed && old(self).read_stream@.len() == 0 ==> r@.len() == 0,
            r@.len() == if max < old(self).read_stream@.len() {
                max as int
            } else {
                old(self).read_stream@.len() as int
            },
            r@ == old(self).read_stream@.take(r@.len() as int),
            final(self).read_stream@ == old(self).read_stream@.skip(r@.len() as int),
            final(self).write_stream@ == old(self).write_stream@,
            final(self).recv_urel@ == old(self).recv_urel@,
            final(self).send_urel@ == old(self).send_urel@,
            final(self).connected == old(self).connected,
            final(self).closed == old(self).closed,
    {
        let mut out: Vec<u8> = Vec::new();
        while out.len() < max
            invariant
                out@.len() <= max,
                out@.len() <= old(self).read_stream@.len(),
                out@ == old(self).read_stream@.take(out@.len() as int),
                self.read_stream@ == old(self).read_stream@.skip(out@.len() as int),
                self.write_stream == old(self).write_stream,
                self.recv_urel == old(self).recv_urel,
                self.send_urel == old(self).send_urel,
                self.connected == old(self).connected,
                self.closed == old(self).closed,
            ensures
                out@.len() == if max < old(self).read_stream@.len() {
                    max as int
                } else {
                    old(self).read_stream@.len() as int
                },
                out@ == old(self).read_stream@.take(out@.len() as int),
                self.read_stream@ == old(self).read_stream@.skip(out@.len() as int),
                self.write_stream == old(self).write_stream,
                self.recv_urel == old(self).recv_urel,
                self.send_urel == old(self).send_urel,
                self.connected == old(self).connected,
                self.closed == old(self).closed,
            decreases max - out@.len(),
        {
            match self.read_stream.pop_front() {
                Some(b) => {
                    out.push(b);
                    assert(out@ =~= old(self).read_stream@.take(out@.len() as int));
                    assert(self.read_stream@ =~= old(self).read_stream@.skip(out@.len() as int));
                },
                None => {
                    break;
                },
            }
        }
        out
    }

    /// Whether a write can go ahead: at most `WRITE_CAP` bytes are waiting,
    /// or the stream is closed and the write will fail at once.
    pub fn write_ready(&self) -> (r: bool)
        ensures
            r == (self.write_stream@.len() <= WRITE_CAP || self.closed),
    {
        self.write_stream.len() <= WRITE_CAP || self.closed
    }

    /// A handle's write: fails on a closed stream, else appends all of `buf`.
    pub fn try_write(&mut self, buf: &[u8]) -> (r: Result<usize, StreamError>)
        ensures
            old(self).closed ==> r == Err::<usize, StreamError>(StreamError::BrokenPipe)
                && final(self).write_stream@ == old(self).write_stream@,
            !old(self).closed ==> r == Ok::<usize, StreamError>(buf@.len() as usize)
                && final(self).write_stream@ == old(self).write_stream@ + buf@,
            final(self).read_stream@ == old(self).read_stream@,
            final(self).recv_urel@ == old(self).recv_urel@,
            final(self).send_urel@ == old(self).send_urel@,
            final(self).connected == old(self).connected,
            final(self).closed == old(self).closed,
    {
        if self.closed {
            Err(StreamError::BrokenPipe)
        } else {
            Ok(self.write_bytes(buf))
        }
    }

    /// Appends `buf` to the bytes waiting to be sent; returns how many.
    pub fn write_bytes(&mut self, buf: &[u8]) -> (r: usize)
        ensures
            r == buf@.len(),
            final(self).write_stream@ == old(self).write_stream@ + buf@,
            final(self).read_stream@ == old(self).read_stream@,
            final(self).recv_urel@ == old(self).recv_urel@,
            final(self).send_urel@ == old(self).send_urel@,
            final(self).connected == old(self).connected,
            final(self).closed == old(self).closed,
    {
        let mut i: usize = 0;
        while i < buf.len()
            invariant
                i <= buf@.len(),
                self.write_stream@ == old(self).write_stream@ + buf@.take(i as int),
                self.read_stream == old(self).read_stream,
                self.recv_urel == old(self).recv_urel,
                self.send_urel == old(self).send_urel,
                self.connected == old(self).connected,
                self.closed == old(self).closed,
            decreases buf@.len() - i,
        {
            self.write_stream.push_back(buf[i]);
            assert(buf@.take(i + 1) =~= buf@.take(i as int).push(buf@[i as int]));
            assert(self.write_stream@ =~= old(self).write_stream@ + buf@.take(i + 1));
            i = i + 1;
        }
        assert(buf@.take(i as int) =~= buf@);
        buf.len()
    }

    /// Closes the stream; it stays closed.
    pub fn close(&mut self)
        ensures
            final(self).closed,
            final(self).read_stream@ == old(self).read_stream@,
            final(self).write_stream@ == old(self).write_stream@,
            final(self).recv_urel@ == old(self).recv_urel@,
            final(self).send_urel@ == old(self).send_urel@,
            final(self).connected == old(self).connected,
    {
        self.closed = true;
    }

    /// Queues an unreliable datagram for sending.
    pub fn push_send_urel(&mut self, dgram: Vec<u8>)
        ensures
            final(self).send_urel@ == old(self).send_urel@.push(dgram),
            final(self).read_stream@ == old(self).read_stream@,
            final(self).write_stream@ == old(self).write_stream@,
            final(self).recv_urel@ == old(self).recv_urel@,
            final(self).connected == old(self).connected,
            final(self).closed == old(self).closed,
    {
        self.send_urel.push_back(dgram);
    }

    /// The next received datagram; on a closed stream with none left, a
    /// broken pipe; otherwise `None`, and the caller waits.
    pub fn pop_recv_urel(&mut self) -> (r: Option<Result<Vec<u8>, StreamError>>)
        ensures
            old(self).recv_urel@.len() > 0 ==> r == Some(Ok::<Vec<u8>, StreamError>(old(self).recv_urel@[0]))
                && final(self).recv_urel@ == old(self).recv_urel@.drop_first(),
            old(self).recv_urel@.len() == 0 ==> final(self).recv_urel@ == old(self).recv_urel@
                && r == if old(self).closed {
                    Some(Err::<Vec<u8>, StreamError>(StreamError::BrokenPipe))
                } else {
                    None
                },
            final(self).read_stream@ == old(self).read_stream@,
            final(self).write_stream@ == old(self).write_stream@,
            final(self).send_urel@ == old(self).send_urel@,
            final(self).connected == old(self).connected,
            final(self).closed == old(self).closed,
    {
        match self.recv_urel.pop_front() {
            Some(front) => Some(Ok(front)),
            None => {
                if self.closed {
                    Some(Err(StreamError::BrokenPipe))
                } else {
                    None
                }
            },
        }
    }

    /// Takes up to `max` bytes from the front of the bytes waiting to be sent.
    pub fn take_segment(&mut self, max: usize) -> (r: Vec<u8>)
        ensures
            r@.len() == if max < old(self).write_stream@.len() {
                max as int
            } else {
                old(self).write_stream@.len() as int
            },
            r@ == old(self).write_stream@.take(r@.len() as int),
            final(self).write_stream@ == old(self).write_stream@.skip(r@.len() as int),
            final(self).read_stream@ == old(self).read_stream@,
            final(self).recv_urel@ == old(self).recv_urel@,
            final(self).send_urel@ == old(self).send_urel@,
            final(self).connected == old(self).connected,
            final(self).closed == old(self).closed,
    {
        let mut out: Vec<u8> = Vec::new();
        while out.len() < max
            invariant
                out@.len() <= max,
                out@.len() <= old(self).write_stream@.len(),
                out@ == old(self).write_stream@.take(out@.len() as int),
                self.write_stream@ == old(self).write_stream@.skip(out@.len() as int),
                self.read_stream == old(self).read_stream,
                self.recv_urel == old(self).recv_urel,
                self.send_urel == old(self).send_urel,
                self.connected == old(self).connected,
                self.closed == old(self).closed,
            ensures
                out@.len() == if max < old(self).write_stream@.len() {
                    max as int
                } else {
                    old(self).write_stream@.len() as int
                },
                out@ == old(self).write_stream@.take(out@.len() as int),
                self.write_stream@ == old(self).write_stream@.skip(out@.len() as int),
                self.read_stream == old(self).read_stream,
                self.recv_urel == old(self).recv_urel,
                self.send_urel == old(self).send_urel,
                self.connected == old(self).connected,
                self.closed == old(self).closed,
            decreases max - out@.len(),
        {
            match self.write_stream.pop_front() {
                Some(b) => {
                    out.push(b);
                    assert(out@ =~= old(self).write_stream@.take(out@.len() as int));
                    assert(self.write_stream@ =~= old(self).write_stream@.skip(out@.len() as int));
                },
                None => {
                    break;
                },
            }
        }
        out
    }
}

} // verus!
