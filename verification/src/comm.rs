//! The communicator: framing over a duplex byte carrier.
//!
//! A communicator owns one carrier.  `send` turns one message into exactly
//! one frame; `receive` takes exactly one frame off the incoming stream
//! and decodes it.  The in-process carrier is a pair of unidirectional
//! message queues; each queue item is a discrete byte chunk, and a buffer
//! inside the receiver carries surplus bytes over from one read to the
//! next, so that the queue behaves like a continuous byte stream.

use vstd::prelude::*;

use crate::codec::{encode, encode_spec, find_newline, is_first_lf, line_taken, take_line, LF};

verus! {

/// What can go wrong in this layer.
#[derive(Clone, Copy, PartialEq, Eq, Structural, Debug)]
pub enum CommError {
    /// A carrier read or write failed: the peer or its queue is gone.
    TransportIo,
    /// The destination was smaller than the next message.
    BufferTooSmall,
    /// A table payload did not parse, or a value in it is not a number.
    MalformedTable,
    /// A table with no rows was handed to `send_table`.
    EmptyTable,
}

/// A receive failed before a whole frame was available: the buffered bytes
/// may have grown, but no delimiter has been seen.
pub open spec fn stream_stalled(pend0: Seq<u8>, pend1: Seq<u8>) -> bool {
    &&& pend0.is_prefix_of(pend1)
    &&& forall|j: int| 0 <= j < pend1.len() ==> pend1[j] != LF
}

/// A successful receive: together with some bytes the carrier delivered
/// during the call, the buffered bytes formed a stream whose first line
/// decodes to `m`, and the remainder past the delimiter is the new buffer.
pub open spec fn received_ok(pend0: Seq<u8>, m: Seq<u8>, pend1: Seq<u8>) -> bool {
    exists|extra: Seq<u8>| #[trigger] line_taken(pend0, extra, m, pend1)
}

/// A message was taken off the stream and dropped because it was larger
/// than the caller's bound.
pub open spec fn oversize_taken(pend0: Seq<u8>, max_len: int, pend1: Seq<u8>) -> bool {
    exists|extra: Seq<u8>, m: Seq<u8>|
        #[trigger] line_taken(pend0, extra, m, pend1) && m.len() > max_len
}

/// The carrier capability: a duplex byte stream that frames are staged
/// into and read back out of.
pub trait CommunicatorCore {
    /// The bytes escaped and staged for the outgoing frame under
    /// construction, not yet handed to the carrier.
    spec fn staged(&self) -> Seq<u8>;

    /// The bytes received from the carrier but not yet consumed.
    spec fn pending(&self) -> Seq<u8>;

    /// The chunks handed to the carrier so far, oldest first, each one a
    /// whole frame.
    spec fn sent(&self) -> Seq<Seq<u8>>;

    /// Escape `data` and stage it for the current outgoing frame; no
    /// delimiter is written and nothing reaches the carrier here.
    fn write(&mut self, data: &[u8]) -> (r: Result<(), CommError>)
        ensures
            final(self).pending() == old(self).pending(),
            final(self).sent() == old(self).sent(),
            r matches Ok(u) ==> final(self).staged() == old(self).staged() + encode_spec(data@),
            r matches Err(e) ==> e == CommError::TransportIo,
    ;

    /// Block until the incoming stream holds a whole frame, take the frame
    /// off the stream and decode it.
    fn read(&mut self) -> (r: Result<Vec<u8>, CommError>)
        ensures
            final(self).staged() == old(self).staged(),
            final(self).sent() == old(self).sent(),
            r matches Ok(m) ==> received_ok(old(self).pending(), m@, final(self).pending()),
            r matches Err(e) ==> e == CommError::TransportIo && stream_stalled(
                old(self).pending(),
                final(self).pending(),
            ),
    ;
}

/// Whole-message exchange.  Callers always hand over or get back a whole
/// message; no partial delivery is ever exposed.
pub trait Communicator: CommunicatorCore {
    /// Send one message as exactly one frame: on success exactly one
    /// chunk reaches the carrier, the staged bytes, then the escaped
    /// message, then the delimiter.  The staged bytes are drained whether
    /// or not the carrier accepts the frame, so nothing of this frame
    /// leaks into the next one.
    fn send(&mut self, data: &[u8]) -> (r: Result<(), CommError>)
        ensures
            final(self).pending() == old(self).pending(),
            final(self).staged() == Seq::<u8>::empty(),
            r matches Ok(u) ==> final(self).sent() == old(self).sent().push(
                old(self).staged() + encode_spec(data@) + seq![LF],
            ),
            r matches Err(e) ==> e == CommError::TransportIo && final(self).sent() == old(
                self,
            ).sent(),
    ;

    /// Receive one whole message: the decoded first line of the incoming
    /// stream.  The send side is untouched.
    fn receive(&mut self) -> (r: Result<Vec<u8>, CommError>)
        ensures
            final(self).staged() == old(self).staged(),
            final(self).sent() == old(self).sent(),
            r matches Ok(m) ==> received_ok(old(self).pending(), m@, final(self).pending()),
            r matches Err(e) ==> e == CommError::TransportIo && stream_stalled(
                old(self).pending(),
                final(self).pending(),
            ),
    ;

    /// Release the owned carrier.  After this the peer's next blocking
    /// receive fails instead of waiting forever.
    fn close(self);
}

#[verifier::external_type_specification]
#[verifier::external_body]
#[verifier::reject_recursive_types(T)]
pub struct ExSender<T>(crossbeam_channel::Sender<T>);

#[verifier::external_type_specification]
#[verifier::external_body]
#[verifier::reject_recursive_types(T)]
pub struct ExReceiver<T>(crossbeam_channel::Receiver<T>);

/// Relies on crossbeam_channel::Receiver::recv: it blocks until a chunk
/// arrives, and fails exactly when the channel is empty and every paired
/// sender has been dropped.  Which bytes arrive depends on the peer, so
/// nothing is promised about the chunk itself.
#[verifier::external_body]
fn recv_chunk(rx: &crossbeam_channel::Receiver<Vec<u8>>) -> (r: Result<Vec<u8>, CommError>)
    ensures
        r matches Err(e) ==> e == CommError::TransportIo,
{
    rx.recv().map_err(|_| CommError::TransportIo)
}

/// The inbound half of the in-process carrier: one queue endpoint plus the
/// buffer that carries surplus bytes over between reads.
pub struct ChannelReceiver {
    pub rx: crossbeam_channel::Receiver<Vec<u8>>,
    received_buf: Vec<u8>,
}

impl ChannelReceiver {
    /// The bytes received from the queue but not yet consumed.
    pub closed spec fn pending(&self) -> Seq<u8> {
        self.received_buf@
    }

    /// Wrap one inbound queue endpoint; nothing is buffered yet.
    pub fn new(rx: crossbeam_channel::Receiver<Vec<u8>>) -> (r: Self)
        ensures
            r.pending() == Seq::<u8>::empty(),
    {
        ChannelReceiver { rx, received_buf: Vec::new() }
    }
}

/// The outbound half of the in-process carrier: one queue endpoint, the
/// bytes staged for the frame under construction, and a ghost record of
/// the chunks handed to the queue so far.
pub struct ChannelSender {
    pub tx: crossbeam_channel::Sender<Vec<u8>>,
    send_buf: Vec<u8>,
    sent_chunks: Ghost<Seq<Seq<u8>>>,
}

impl ChannelSender {
    /// The bytes staged for the outgoing frame under construction.
    pub closed spec fn staged(&self) -> Seq<u8> {
        self.send_buf@
    }

    /// The chunks handed to the queue so far, oldest first, each one a
    /// whole frame.
    pub closed spec fn sent(&self) -> Seq<Seq<u8>> {
        self.sent_chunks@
    }

    /// Wrap one outbound queue endpoint; nothing is staged or sent yet.
    pub fn new(tx: crossbeam_channel::Sender<Vec<u8>>) -> (r: Self)
        ensures
            r.staged() == Seq::<u8>::empty(),
            r.sent() == Seq::<Seq<u8>>::empty(),
    {
        ChannelSender { tx, send_buf: Vec::new(), sent_chunks: Ghost(Seq::empty()) }
    }

    /// Relies on crossbeam_channel::Sender::send: on a channel without a
    /// capacity bound it does not block, hands the chunk to the paired
    /// receiver as one discrete queue item, and fails exactly when every
    /// paired receiver has been dropped.  On success the record of sent
    /// chunks grows by exactly this one; on failure nothing is enqueued.
    #[verifier::external_body]
    fn send_chunk(&mut self, chunk: Vec<u8>) -> (r: Result<(), CommError>)
        ensures
            final(self).staged() == old(self).staged(),
            r matches Ok(u) ==> final(self).sent() == old(self).sent().push(chunk@),
            r matches Err(e) ==> e == CommError::TransportIo && final(self).sent() == old(
                self,
            ).sent(),
    {
        self.tx.send(chunk).map_err(|_| CommError::TransportIo)
    }
}

/// A communicator over a pair of in-process message queues, one per
/// direction.
pub struct ChannelCommunicator {
    sender: ChannelSender,
    receiver: ChannelReceiver,
}

impl ChannelCommunicator {
    /// Bind the two queue endpoints of one side of a connection.
    pub fn new(rx: crossbeam_channel::Receiver<Vec<u8>>, tx: crossbeam_channel::Sender<Vec<u8>>) -> (r:
        Self)
        ensures
            r.pending() == Seq::<u8>::empty(),
            r.staged() == Seq::<u8>::empty(),
            r.sent() == Seq::<Seq<u8>>::empty(),
    {
        ChannelCommunicator { sender: ChannelSender::new(tx), receiver: ChannelReceiver::new(rx) }
    }
}

impl CommunicatorCore for ChannelCommunicator {
    closed spec fn staged(&self) -> Seq<u8> {
        self.sender.send_buf@
    }

    closed spec fn pending(&self) -> Seq<u8> {
        self.receiver.received_buf@
    }

    closed spec fn sent(&self) -> Seq<Seq<u8>> {
        self.sender.sent()
    }

    // Staging into the in-process buffer cannot fail, which this impl
    // promises on top of the trait's contract.
    fn write(&mut self, data: &[u8]) -> (r: Result<(), CommError>)
        ensures
            r == Ok::<(), CommError>(()),
    {
        let mut e = encode(data);
        self.sender.send_buf.append(&mut e);
        Ok(())
    }

    fn read(&mut self) -> (r: Result<Vec<u8>, CommError>) {
        let ghost pend0 = self.receiver.received_buf@;
        // A whole frame may already be buffered from an earlier chunk.
        match find_newline(&self.receiver.received_buf) {
            Some(i) => {
                let m = take_line(&mut self.receiver.received_buf, i);
                proof {
                    assert(pend0 + Seq::<u8>::empty() =~= pend0);
                    assert(is_first_lf(pend0 + Seq::<u8>::empty(), i as int));
                    assert(line_taken(old(self).pending(), Seq::empty(), m@, self.pending()));
                }
                return Ok(m);
            },
            None => {},
        }
        // Nothing complete is buffered: block for the next queue item.  The
        // paired sender flushes each frame as one queue item, so one item
        // completes the frame; a chunk that closes no frame means the peer
        // is not keeping the carrier's write discipline, a broken-carrier
        // condition.
        match recv_chunk(&self.receiver.rx) {
            Ok(mut chunk) => {
                let ghost ch = chunk@;
                self.receiver.received_buf.append(&mut chunk);
                match find_newline(&self.receiver.received_buf) {
                    Some(i) => {
                        let m = take_line(&mut self.receiver.received_buf, i);
                        proof {
                            assert(is_first_lf(pend0 + ch, i as int));
                            assert(line_taken(old(self).pending(), ch, m@, self.pending()));
                        }
                        Ok(m)
                    },
                    None => {
                        proof {
                            assert(pend0.is_prefix_of(pend0 + ch)) by {
                                assert((pend0 + ch).take(pend0.len() as int) =~= pend0);
                            }
                        }
                        Err(CommError::TransportIo)
                    },
                }
            },
            Err(e) => {
                proof {
                    assert(pend0.is_prefix_of(pend0)) by {
                        assert(pend0.take(pend0.len() as int) =~= pend0);
                    }
                }
                Err(e)
            },
        }
    }
}

impl Communicator for ChannelCommunicator {
    fn send(&mut self, data: &[u8]) -> (r: Result<(), CommError>) {
        match self.write(data) {
            Ok(u) => {},
            Err(e) => {
                return Err(e);
            },
        }
        let mut chunk = self.sender.send_buf.split_off(0);
        chunk.push(LF);
        proof {
            assert(chunk@ =~= old(self).staged() + encode_spec(data@) + seq![LF]);
        }
        self.sender.send_chunk(chunk)
    }

    fn receive(&mut self) -> (r: Result<Vec<u8>, CommError>) {
        self.read()
    }

    fn close(self) {
    }
}

/// Receive one message, but hand it out only if it fits in `max_len`
/// bytes.  An oversize message is consumed and dropped: the failure is
/// reported at once, and the next receive proceeds to the frame after it.
pub fn receive_bounded<C: Communicator>(comm: &mut C, max_len: usize) -> (r: Result<
    Vec<u8>,
    CommError,
>)
    ensures
        final(comm).staged() == old(comm).staged(),
        final(comm).sent() == old(comm).sent(),
        r matches Ok(m) ==> m@.len() <= max_len && received_ok(
            old(comm).pending(),
            m@,
            final(comm).pending(),
        ),
        r matches Err(e) ==> (e == CommError::BufferTooSmall ==> oversize_taken(
            old(comm).pending(),
            max_len as int,
            final(comm).pending(),
        )),
        r matches Err(e) ==> (e == CommError::TransportIo ==> stream_stalled(
            old(comm).pending(),
            final(comm).pending(),
        )),
        r matches Err(e) ==> e == CommError::BufferTooSmall || e == CommError::TransportIo,
{
    match comm.receive() {
        Ok(m) => {
            if m.len() <= max_len {
                Ok(m)
            } else {
                Err(CommError::BufferTooSmall)
            }
        },
        Err(e) => Err(e),
    }
}

} // verus!
