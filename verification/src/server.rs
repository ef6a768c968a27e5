//! The server endpoint: the side that accepts the connection.

use vstd::prelude::*;

use crate::comm::{ChannelCommunicator, CommError, Communicator, CommunicatorCore};

verus! {

/// A server endpoint.  It owns one communicator and behaves exactly as
/// that communicator does.
pub struct Server<C: Communicator>(pub C);

impl<C: Communicator> CommunicatorCore for Server<C> {
    open spec fn staged(&self) -> Seq<u8> {
        self.0.staged()
    }

    open spec fn pending(&self) -> Seq<u8> {
        self.0.pending()
    }

    open spec fn sent(&self) -> Seq<Seq<u8>> {
        self.0.sent()
    }

    fn write(&mut self, data: &[u8]) -> (r: Result<(), CommError>) {
        self.0.write(data)
    }

    fn read(&mut self) -> (r: Result<Vec<u8>, CommError>) {
        self.0.read()
    }
}

impl<C: Communicator> Communicator for Server<C> {
    fn send(&mut self, data: &[u8]) -> (r: Result<(), CommError>) {
        self.0.send(data)
    }

    fn receive(&mut self) -> (r: Result<Vec<u8>, CommError>) {
        self.0.receive()
    }

    fn close(self) {
        self.0.close()
    }
}

/// A server over a pair of in-process message queues.
pub type ChannelServer = Server<ChannelCommunicator>;

impl ChannelServer {
    /// Bind the server side of an in-process connection: `rx` carries the
    /// bytes the client sends, `tx` the bytes this server sends.
    pub fn new(
        rx: crossbeam_channel::Receiver<Vec<u8>>,
        tx: crossbeam_channel::Sender<Vec<u8>>,
    ) -> (r: ChannelServer)
        ensures
            r.pending() == Seq::<u8>::empty(),
            r.staged() == Seq::<u8>::empty(),
            r.sent() == Seq::<Seq<u8>>::empty(),
    {
        Server(ChannelCommunicator::new(rx, tx))
    }
}

} // verus!
