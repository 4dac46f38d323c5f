//! A simpler table: it assigns four kinds of roles (with a Doctor) once every
//! seat is connected, and plays no further phase.
use vstd::prelude::*;
use crate::connection::ListenPoll;
use crate::server::{lemma_queue_push, left_waiting, tables_of};

verus! {

#[derive(PartialEq, Eq, Structural, Clone, Copy, Debug)]
pub enum Role {
    Innocent,
    Detective,
    Doctor,
    Mafia,
}

#[derive(PartialEq, Eq, Structural, Clone, Copy, Debug)]
pub enum Status {
    Alive,
    Dead,
}

#[derive(PartialEq, Eq, Structural, Clone, Copy, Debug)]
pub struct Player {
    pub role: Role,
    pub status: Status,
    pub id: u8,
}

/// Where a seat's connection stands; the caller holds the matching handles
/// (and, once connected, the stream) in the seat's `link`.
#[derive(PartialEq, Eq, Structural, Clone, Copy, Debug)]
pub enum TcpStatus {
    Uninitialized,
    Listening,
    Connected,
    Hold,
    ConnectionError,
}

pub struct ConnectedPlayer<L> {
    pub stream: TcpStatus,
    pub link: L,
    pub player: Option<Player>,
}

#[derive(PartialEq, Eq, Structural, Clone, Copy, Debug)]
pub enum Phase {
    Start,
    Detect,
    PreVote,
    Vote,
    Save,
    Kill,
    End,
}

/// One connection check: a listening seat becomes connected when a
/// connection was accepted, broken when the accepting side gave up, and keeps
/// listening otherwise; a seat in any other state is left on hold. The flag
/// tells whether the seat is now connected.
pub open spec fn check_result(s: TcpStatus, poll: ListenPoll) -> (TcpStatus, bool) {
    match s {
        TcpStatus::Listening => match poll {
            ListenPoll::Waiting => (TcpStatus::Listening, false),
            ListenPoll::Accepted => (TcpStatus::Connected, true),
            ListenPoll::Refused => (TcpStatus::ConnectionError, false),
        },
        _ => (TcpStatus::Hold, false),
    }
}

impl<L> ConnectedPlayer<L> {
    /// Checks the connection once; `poll` is what polling the listening
    /// socket found and is only read while listening.
    pub fn check_connections(&mut self, poll: ListenPoll) -> (r: bool)
        ensures
            (final(self).stream, r) == check_result(old(self).stream, poll),
            final(self).link == old(self).link,
            final(self).player == old(self).player,
    {
        let hold = self.stream;
        self.stream = TcpStatus::Hold;
        if hold == TcpStatus::Listening {
            match poll {
                ListenPoll::Accepted => {
                    self.stream = TcpStatus::Connected;
                    return true;
                },
                ListenPoll::Refused => {
                    self.stream = TcpStatus::ConnectionError;
                    return false;
                },
                ListenPoll::Waiting => {
                    self.stream = TcpStatus::Listening;
                },
            }
        }
        false
    }
}

/// A Doctor and a Detective, a Mafia member for every four seats, Innocents
/// up to the size of the table.
pub open spec fn roles_for(max_players: nat) -> Seq<Role> {
    let mafia = max_players / 4;
    let innocents = if max_players > 2 + mafia { max_players - 2 - mafia } else { 0 };
    seq![Role::Doctor, Role::Detective] + Seq::new(mafia, |i: int| Role::Mafia) + Seq::new(
        innocents as nat,
        |i: int| Role::Innocent,
    )
}

pub struct Game<L> {
    pub players: Vec<ConnectedPlayer<L>>,
    pub phase: Phase,
    pub mafia_left: u8,
    pub innocent_left: u8,
    pub max_players: u8,
}

/// The players a table ends up with: when every seat is connected, seat `i`
/// gets the role `roles[roles.len() - 1 - i]`; otherwise nobody is dealt.
pub open spec fn dealt_players<L>(
    before: Seq<ConnectedPlayer<L>>,
    polls: Seq<ListenPoll>,
    roles: Seq<Role>,
) -> Seq<ConnectedPlayer<L>> {
    let ready = forall|i: int| 0 <= i < before.len() ==> #[trigger] check_result(before[i].stream, polls[i]).1;
    Seq::new(
        before.len(),
        |i: int|
            ConnectedPlayer {
                stream: check_result(before[i].stream, polls[i]).0,
                link: before[i].link,
                player: if ready {
                    Some(Player { role: roles[roles.len() - 1 - i], status: Status::Alive, id: i as u8 })
                } else {
                    before[i].player
                },
            },
    )
}

impl<L> Game<L> {
    pub fn new(max_players: u8) -> (g: Game<L>)
        ensures
            g.players@.len() == 0,
            g.phase == Phase::Start,
            g.mafia_left == 0,
            g.innocent_left == 0,
            g.max_players == max_players,
    {
        Game { players: Vec::new(), phase: Phase::Start, mafia_left: 0, innocent_left: 0, max_players }
    }

    pub fn create_role_vec(&self) -> (roles: Vec<Role>)
        ensures
            roles@ == roles_for(self.max_players as nat),
    {
        let mut roles: Vec<Role> = Vec::new();
        roles.push(Role::Doctor);
        roles.push(Role::Detective);
        let mafia = self.max_players / 4;
        for i in 0..mafia
            invariant
                roles@ =~= seq![Role::Doctor, Role::Detective] + Seq::new(i as nat, |k: int| Role::Mafia),
        {
            roles.push(Role::Mafia);
        }
        let ghost head = roles@;
        while roles.len() < self.max_players as usize
            invariant
                head =~= seq![Role::Doctor, Role::Detective] + Seq::new(mafia as nat, |k: int| Role::Mafia),
                roles@.len() >= head.len(),
                roles@.len() <= head.len() || roles@.len() <= self.max_players,
                roles@ =~= head + Seq::new((roles@.len() - head.len()) as nat, |k: int| Role::Innocent),
            decreases self.max_players - roles.len(),
        {
            roles.push(Role::Innocent);
        }
        assert(roles@ =~= roles_for(self.max_players as nat));
        roles
    }

    /// One round. At the start, every seat's connection is checked (`polls`
    /// holds what polling each seat's listening socket found); the roles are
    /// shuffled and, when every seat is connected, dealt from the back; then
    /// the game moves on to detection. Later phases do nothing.
    pub fn run_game(&mut self, polls: &Vec<ListenPoll>)
        requires
            old(self).phase == Phase::Start ==> polls@.len() == old(self).players@.len(),
            old(self).phase == Phase::Start && (forall|i: int|
                0 <= i < old(self).players@.len() ==> #[trigger] check_result(
                    old(self).players@[i].stream,
                    polls@[i],
                ).1) ==> old(self).players@.len() <= roles_for(old(self).max_players as nat).len(),
        ensures
            // past the start a round leaves the table exactly as it was, so
            // such a table never reaches its end
            old(self).phase != Phase::Start ==> *final(self) == *old(self),
            old(self).phase != Phase::End ==> final(self).phase != Phase::End,
            old(self).phase == Phase::Start ==> final(self).phase == Phase::Detect && exists|
                roles: Seq<Role>,
            |
                #![trigger dealt_players(old(self).players@, polls@, roles)]
                roles.to_multiset() == roles_for(old(self).max_players as nat).to_multiset()
                    && final(self).players@ == dealt_players(old(self).players@, polls@, roles),
            final(self).max_players == old(self).max_players,
            final(self).mafia_left == old(self).mafia_left,
            final(self).innocent_left == old(self).innocent_left,
    {
        if self.phase != Phase::Start {
            return;
        }
        let ghost before = self.players@;
        let n = self.players.len();
        let mut all_players_ready = true;
        for i in 0..n
            invariant
                n == self.players@.len(),
                n == before.len(),
                polls@.len() == n,
                self.phase == Phase::Start,
                self.max_players == old(self).max_players,
                self.mafia_left == old(self).mafia_left,
                self.innocent_left == old(self).innocent_left,
                before == old(self).players@,
                forall|q: int| 0 <= q < i ==> (#[trigger] self.players@[q]).stream == check_result(before[q].stream, polls@[q]).0
                    && self.players@[q].link == before[q].link && self.players@[q].player == before[q].player,
                forall|q: int| i <= q < n ==> #[trigger] self.players@[q] == before[q],
                all_players_ready == forall|q: int| 0 <= q < i ==> #[trigger] check_result(before[q].stream, polls@[q]).1,
        {
            let ok = self.players[i].check_connections(polls[i]);
            if !ok {
                all_players_ready = false;
            }
            assert(all_players_ready == forall|q: int| 0 <= q < i + 1 ==> #[trigger] check_result(before[q].stream, polls@[q]).1) by {
                if !ok {
                    assert(!check_result(before[i as int].stream, polls@[i as int]).1);
                }
            }
        }
        let mut roles = self.create_role_vec();
        let mut rng = crate::chance::thread_rng();
        crate::chance::shuffle(&mut roles, &mut rng);
        let ghost dealt = roles@;
        proof {
            broadcast use vstd::seq_lib::group_to_multiset_ensures;
            assert(roles@.len() == roles@.to_multiset().len());
            assert(roles_for(self.max_players as nat).len() == roles_for(self.max_players as nat).to_multiset().len());
        }
        if all_players_ready {
            for i in 0..n
                invariant
                    n == self.players@.len(),
                    n == before.len(),
                    polls@.len() == n,
                    n <= dealt.len(),
                    all_players_ready,
                    all_players_ready == forall|q: int| 0 <= q < n ==> #[trigger] check_result(before[q].stream, polls@[q]).1,
                    roles@ == dealt.take(dealt.len() - i),
                    self.phase == Phase::Start,
                    self.max_players == old(self).max_players,
                    self.mafia_left == old(self).mafia_left,
                    self.innocent_left == old(self).innocent_left,
                    forall|q: int| 0 <= q < i ==> (#[trigger] self.players@[q]) == dealt_players(before, polls@, dealt)[q],
                    forall|q: int| i <= q < n ==> (#[trigger] self.players@[q]).stream == check_result(before[q].stream, polls@[q]).0
                        && self.players@[q].link == before[q].link && self.players@[q].player == before[q].player,
            {
                let role = match roles.pop() {
                    Some(r) => r,
                    None => Role::Innocent,
                };
                assert(dealt.take(dealt.len() - i).last() == dealt[dealt.len() - 1 - i]);
                assert(roles@ =~= dealt.take(dealt.len() - (i + 1)));
                self.players[i].player = Some(Player {
                    role,
                    status: Status::Alive,
                    id: #[verifier::truncate] (i as u8),
                });
                assert((i as int) as u8 == i as u8);
            }
        }
        assert(self.players@ =~= dealt_players(before, polls@, dealt));
        self.phase = Phase::Detect;
    }
}

/// A new player joins the table being filled; the table leaves the queue
/// once it holds more players than its limit. Without a table, a new one of
/// eight seats is opened for the player.
pub fn check_games_step<L>(lobby: Option<Game<L>>, player: ConnectedPlayer<L>) -> (r: (
    Option<Game<L>>,
    Option<Game<L>>,
))
    ensures
        match lobby {
            Some(g) => {
                let s = g.players@.push(player);
                if s.len() > g.max_players {
                    &&& r.0 is None
                    &&& r.1 matches Some(full) && full.players@ == s && full.max_players
                        == g.max_players && full.phase == g.phase && full.mafia_left
                        == g.mafia_left && full.innocent_left == g.innocent_left
                } else {
                    &&& r.1 is None
                    &&& r.0 matches Some(l) && l.players@ == s && l.max_players
                        == g.max_players && l.phase == g.phase && l.mafia_left == g.mafia_left
                        && l.innocent_left == g.innocent_left
                }
            },
            None => {
                &&& r.1 is None
                &&& r.0 matches Some(l) && l.players@ == seq![player] && l.max_players == 8
                    && l.phase == Phase::Start && l.mafia_left == 0 && l.innocent_left == 0
            },
        },
{
    match lobby {
        Some(mut lobby) => {
            lobby.players.push(player);
            if lobby.players.len() > lobby.max_players as usize {
                (None, Some(lobby))
            } else {
                (Some(lobby), None)
            }
        },
        None => {
            let mut lobby = Game::new(8);
            lobby.players.push(player);
            (Some(lobby), None)
        },
    }
}

/// The players waiting at a table being filled, if there is one.
pub open spec fn waiting_players<L>(lobby: Option<Game<L>>) -> Seq<ConnectedPlayer<L>> {
    match lobby {
        Some(g) => g.players@,
        None => Seq::empty(),
    }
}

/// A table being filled: eight seats, between one and eight players, not
/// started, with both side counters still at zero as a new table has them.
pub open spec fn filling_table<L>(g: Game<L>) -> bool {
    &&& g.max_players == 8
    &&& 0 < g.players@.len() <= 8
    &&& g.phase == Phase::Start
    &&& g.mafia_left == 0
    &&& g.innocent_left == 0
}

/// Players who arrived together join the table being filled, one after the
/// other in arrival order. A table here leaves the queue once it holds more
/// players than its eight seats, so the queue (the players already waiting,
/// then those arriving) is cut into tables of nine from the front, and those
/// left over keep waiting.
pub fn seat_arrivals<L>(lobby: Option<Game<L>>, arrivals: Vec<ConnectedPlayer<L>>) -> (r: (
    Option<Game<L>>,
    Vec<Game<L>>,
))
    requires
        lobby matches Some(g) ==> filling_table(g),
    ensures
        ({
            let queue = waiting_players(lobby) + arrivals@;
            &&& r.1@.len() == tables_of(queue, 9).len()
            &&& forall|j: int|
                0 <= j < r.1@.len() ==> {
                    let t = #[trigger] r.1@[j];
                    &&& t.players@ == tables_of(queue, 9)[j]
                    &&& t.max_players == 8
                    &&& t.phase == Phase::Start
                    &&& t.mafia_left == 0
                    &&& t.innocent_left == 0
                }
            &&& match r.0 {
                Some(l) => filling_table(l) && l.players@ == left_waiting(queue, 9),
                None => left_waiting(queue, 9).len() == 0,
            }
        }),
{
    let ghost start = waiting_players(lobby);
    let mut lobby = lobby;
    let mut full: Vec<Game<L>> = Vec::new();
    let mut rest = arrivals;
    let ghost mut taken: int = 0;
    proof {
        assert(left_waiting(start, 9) == start);
        assert(start + arrivals@.take(0) =~= start);
    }
    while rest.len() > 0
        invariant
            0 <= taken <= arrivals@.len(),
            rest@ == arrivals@.skip(taken),
            ({
                let done = start + arrivals@.take(taken);
                &&& full@.len() == tables_of(done, 9).len()
                &&& forall|j: int|
                    0 <= j < full@.len() ==> {
                        let t = #[trigger] full@[j];
                        &&& t.players@ == tables_of(done, 9)[j]
                        &&& t.max_players == 8
                        &&& t.phase == Phase::Start
                        &&& t.mafia_left == 0
                        &&& t.innocent_left == 0
                    }
                &&& match lobby {
                    Some(l) => filling_table(l) && l.players@ == left_waiting(done, 9),
                    None => left_waiting(done, 9).len() == 0,
                }
            }),
        decreases rest.len(),
    {
        let ghost done = start + arrivals@.take(taken);
        let p = rest.remove(0);
        proof {
            assert(p == arrivals@[taken]);
            assert(start + arrivals@.take(taken + 1) =~= done.push(p));
            lemma_queue_push(done, 9, p);
            taken = taken + 1;
            assert(rest@ =~= arrivals@.skip(taken));
        }
        let ghost old_full = full@;
        let (l, f) = check_games_step(lobby, p);
        lobby = l;
        match f {
            Some(t) => {
                full.push(t);
            },
            None => {},
        }
        proof {
            assert forall|j: int| 0 <= j < old_full.len() implies #[trigger] full@[j] == old_full[j] by {}
        }
    }
    proof {
        assert(arrivals@.take(taken) =~= arrivals@);
    }
    (lobby, full)
}

/// A game hands its players back once it has ended.
pub fn game_over<L>(game: &Game<L>) -> (b: bool)
    ensures
        b == (game.phase == Phase::End),
{
    game.phase == Phase::End
}

} // verus!
