use vstd::prelude::*;

verus! {

/// Where a player's connection stands. The network handles that go with each
/// state (the listener, the accepting thread, the stream) are held by the
/// caller, in the `link` of the [`ConnectedPlayer`].
#[derive(PartialEq, Eq, Structural, Clone, Copy, Debug)]
pub enum SocketStatus {
    Uninitialized,
    Listening,
    Connected,
    Hold,
    ConnectionError,
}

/// What a connection check reports.
#[derive(PartialEq, Eq, Structural, Clone, Copy, Debug)]
pub enum ConnectionStatus {
    NotConnected,
    Connected,
    Error,
}

/// What polling a listening socket found: no connection signalled yet, a
/// connection accepted (its stream now belongs to the player), or the
/// accepting side gave up.
#[derive(PartialEq, Eq, Structural, Clone, Copy, Debug)]
pub enum ListenPoll {
    Waiting,
    Accepted,
    Refused,
}

/// Something that can describe itself to the players.
pub trait Player {
    fn get_state(&self) -> String;
}

/// A seat at the server: the state of its connection, whether it holds an
/// open stream, how often it was found not yet connected, and the player
/// sitting there once a game has dealt one. `link` carries the caller's
/// network handles and is never looked at here.
pub struct ConnectedPlayer<P, L> {
    pub socket: SocketStatus,
    pub has_stream: bool,
    pub link: L,
    pub player: Option<P>,
    pub failure_count: usize,
}

/// The connection part of a seat: socket state, stream present, failure count.
pub struct LinkState {
    pub socket: SocketStatus,
    pub has_stream: bool,
    pub failure_count: nat,
}

impl<P, L> ConnectedPlayer<P, L> {
    pub open spec fn link_state(&self) -> LinkState {
        LinkState {
            socket: self.socket,
            has_stream: self.has_stream,
            failure_count: self.failure_count as nat,
        }
    }
}

/// A check counts a failure when the seat is still uninitialized, or when it
/// is listening and no connection has been signalled.
pub open spec fn check_counts_failure(s: LinkState, poll: ListenPoll) -> bool {
    ||| s.socket == SocketStatus::Uninitialized
    ||| (s.socket == SocketStatus::Listening && poll == ListenPoll::Waiting)
}

/// The outcome of one connection check: the new connection state, what is
/// reported, and whether the seat is to be reported broken (its stream, if
/// it has one, shut down).
pub open spec fn check_outcome(s: LinkState, poll: ListenPoll) -> (LinkState, ConnectionStatus, bool) {
    match s.socket {
        SocketStatus::Listening => match poll {
            ListenPoll::Waiting => (
                LinkState { failure_count: s.failure_count + 1, ..s },
                ConnectionStatus::NotConnected,
                false,
            ),
            ListenPoll::Accepted => (
                LinkState { socket: SocketStatus::Connected, has_stream: true, ..s },
                ConnectionStatus::NotConnected,
                false,
            ),
            ListenPoll::Refused => (
                LinkState { socket: SocketStatus::ConnectionError, ..s },
                ConnectionStatus::NotConnected,
                false,
            ),
        },
        SocketStatus::Connected => (s, ConnectionStatus::Connected, false),
        SocketStatus::Uninitialized => (
            LinkState { failure_count: s.failure_count + 1, ..s },
            ConnectionStatus::NotConnected,
            false,
        ),
        _ => (
            LinkState { socket: SocketStatus::ConnectionError, has_stream: false, ..s },
            ConnectionStatus::Error,
            true,
        ),
    }
}

impl<P, L> ConnectedPlayer<P, L> {
    /// Checks the connection once. `poll` is what polling the listening
    /// socket found; it is only read when the socket is listening. Returns
    /// the status and whether the caller is to report the seat broken and
    /// shut its stream down, if it has one.
    pub fn check_connections(&mut self, poll: ListenPoll) -> (r: (ConnectionStatus, bool))
        requires
            check_counts_failure(old(self).link_state(), poll) ==> old(self).failure_count
                < usize::MAX,
        ensures
            (final(self).link_state(), r.0, r.1) == check_outcome(old(self).link_state(), poll),
            final(self).link == old(self).link,
            final(self).player == old(self).player,
    {
        let hold = self.socket;
        self.socket = SocketStatus::Hold;
        if self.failure_count > 100 {
            self.socket = SocketStatus::ConnectionError;
        }
        match hold {
            SocketStatus::Listening => {
                match poll {
                    ListenPoll::Accepted => {
                        self.has_stream = true;
                        self.socket = SocketStatus::Connected;
                    },
                    ListenPoll::Refused => {
                        self.socket = SocketStatus::ConnectionError;
                    },
                    ListenPoll::Waiting => {
                        self.failure_count = self.failure_count + 1;
                        self.socket = SocketStatus::Listening;
                    },
                }
                (ConnectionStatus::NotConnected, false)
            },
            SocketStatus::Connected => {
                self.socket = SocketStatus::Connected;
                (ConnectionStatus::Connected, false)
            },
            SocketStatus::Uninitialized => {
                self.failure_count = self.failure_count + 1;
                self.socket = SocketStatus::Uninitialized;
                (ConnectionStatus::NotConnected, false)
            },
            _ => {
                self.has_stream = false;
                self.socket = SocketStatus::ConnectionError;
                (ConnectionStatus::Error, true)
            },
        }
    }
}

} // verus!
