//! The server's bookkeeping between games: filling a table from the queue of
//! connected players, and handing the players of a finished game back.
use vstd::prelude::*;
use crate::connection::{
    ConnectedPlayer, ConnectionStatus, ListenPoll, check_outcome, check_counts_failure,
};
use crate::game::{Reply, Request};
use crate::model::ReplyView;

verus! {

/// A game the server can host.
pub trait Game<P, L>: Sized {
    /// The seats, in order.
    spec fn seats(&self) -> Seq<ConnectedPlayer<P, L>>;

    /// How many players fill the table.
    spec fn limit(&self) -> nat;

    spec fn is_error(&self) -> bool;

    spec fn is_over(&self) -> bool;

    /// The game is in a state its steps accept.
    spec fn well_formed(&self) -> bool;

    /// The game has not started: seats may be added and removed freely.
    spec fn open_table(&self) -> bool;

    /// The game can take this reply to its last request.
    spec fn accepts(&self, reply: ReplyView) -> bool;

    fn new(players: usize) -> (g: Self)
        ensures
            g.seats() == Seq::<ConnectedPlayer<P, L>>::empty(),
            g.limit() == players,
            g.well_formed(),
            g.open_table(),
            !g.is_error(),
            !g.is_over(),
    ;

    /// One step of play: takes the reply to the last request, returns what
    /// to do next on the network.
    fn run_game(&mut self, reply: Reply) -> (r: Request)
        requires
            old(self).well_formed(),
            old(self).accepts(reply@),
        ensures
            final(self).well_formed(),
            final(self).limit() == old(self).limit(),
    ;

    /// Whether the game can take this reply to its last request.
    fn accepts_reply(&self, reply: &Reply) -> (b: bool)
        requires
            self.well_formed(),
        ensures
            b == self.accepts(reply@),
    ;

    fn error(&self) -> (b: bool)
        ensures
            b == self.is_error(),
    ;

    fn over(&self) -> (b: bool)
        ensures
            b == self.is_over(),
    ;

    fn player_list(&self) -> (r: &Vec<ConnectedPlayer<P, L>>)
        ensures
            r@ == self.seats(),
    ;

    fn player_list_mut(&mut self) -> (r: &mut Vec<ConnectedPlayer<P, L>>)
        ensures
            r@ == old(self).seats(),
            final(self).seats() == final(r)@,
            final(self).limit() == old(self).limit(),
            final(self).is_error() == old(self).is_error(),
            final(self).is_over() == old(self).is_over(),
            old(self).open_table() ==> final(self).open_table() && final(self).well_formed(),
    ;

    /// The network handles of one seat; the rest of the game, what it
    /// accepts and whether it is well formed stay as they are.
    fn link_mut(&mut self, seat: usize) -> (r: &mut L)
        requires
            seat < old(self).seats().len(),
        ensures
            *r == old(self).seats()[seat as int].link,
            final(self).seats() == old(self).seats().update(
                seat as int,
                (ConnectedPlayer { link: *final(r), ..old(self).seats()[seat as int] }),
            ),
            final(self).limit() == old(self).limit(),
            final(self).is_error() == old(self).is_error(),
            final(self).is_over() == old(self).is_over(),
            final(self).well_formed() == old(self).well_formed(),
            final(self).open_table() == old(self).open_table(),
            forall|reply: ReplyView| #[trigger] final(self).accepts(reply) == old(self).accepts(reply),
    ;

    fn max_players(&self) -> (n: usize)
        ensures
            n == self.limit(),
    ;

    fn max_players_mut(&mut self) -> (r: &mut usize)
        ensures
            *r == old(self).limit(),
            final(self).limit() == *final(r),
            final(self).seats() == old(self).seats(),
    ;

    fn get_state(&self) -> String;
}

/// A new player joins the table being filled. Returns the table still being
/// filled and the table that is now full, if any: a table is full once it
/// holds at least as many players as its limit. Without a table, a new one of
/// eight seats is opened for the player.
pub fn join_lobby<P, L, G: Game<P, L>>(lobby: Option<G>, player: ConnectedPlayer<P, L>) -> (r: (
    Option<G>,
    Option<G>,
))
    requires
        lobby matches Some(g) ==> g.open_table(),
    ensures
        match lobby {
            Some(g) => {
                let s = g.seats().push(player);
                if s.len() >= g.limit() {
                    &&& r.0 is None
                    &&& r.1 matches Some(full) && full.seats() == s && full.limit() == g.limit()
                        && full.well_formed() && full.open_table() && full.is_error() == g.is_error()
                        && full.is_over() == g.is_over()
                } else {
                    &&& r.1 is None
                    &&& r.0 matches Some(l) && l.seats() == s && l.limit() == g.limit()
                        && l.well_formed() && l.open_table() && l.is_error() == g.is_error()
                        && l.is_over() == g.is_over()
                }
            },
            None => {
                &&& r.1 is None
                &&& r.0 matches Some(l) && l.seats() == seq![player] && l.limit() == 8
                    && l.well_formed() && l.open_table() && !l.is_error() && !l.is_over()
            },
        },
        // a table that was short of its limit leaves the queue with exactly
        // its limit of players, or stays short of it
        (lobby matches Some(g) ==> g.seats().len() < g.limit()) ==> {
            &&& r.0 matches Some(l) ==> l.seats().len() < l.limit()
            &&& r.1 matches Some(full) ==> full.seats().len() == full.limit()
        },
{
    match lobby {
        Some(mut lobby) => {
            let players = lobby.player_list_mut();
            players.push(player);
            if players.len() >= lobby.max_players() {
                (None, Some(lobby))
            } else {
                (Some(lobby), None)
            }
        },
        None => {
            let mut lobby = G::new(8);
            lobby.player_list_mut().push(player);
            (Some(lobby), None)
        },
    }
}

/// The tables a queue of players fills, `k` seats each: the first `k` in
/// the queue form a table, then the next `k`, and so on.
pub open spec fn tables_of<X>(queue: Seq<X>, k: nat) -> Seq<Seq<X>>
    decreases queue.len(),
{
    if k == 0 || queue.len() < k {
        Seq::empty()
    } else {
        seq![queue.take(k as int)] + tables_of(queue.skip(k as int), k)
    }
}

/// The players of a queue still waiting once its full tables of `k` are gone.
pub open spec fn left_waiting<X>(queue: Seq<X>, k: nat) -> Seq<X>
    decreases queue.len(),
{
    if k == 0 || queue.len() < k {
        queue
    } else {
        left_waiting(queue.skip(k as int), k)
    }
}

/// One more player at the back of a queue either completes the waiting
/// players into a new table or joins them.
pub proof fn lemma_queue_push<X>(queue: Seq<X>, k: nat, p: X)
    requires
        k > 0,
    ensures
        left_waiting(queue, k).len() < k,
        left_waiting(queue, k).len() + 1 == k ==> tables_of(queue.push(p), k) == tables_of(queue, k).push(
            left_waiting(queue, k).push(p),
        ) && left_waiting(queue.push(p), k) == Seq::<X>::empty(),
        left_waiting(queue, k).len() + 1 < k ==> tables_of(queue.push(p), k) == tables_of(queue, k)
            && left_waiting(queue.push(p), k) == left_waiting(queue, k).push(p),
    decreases queue.len(),
{
    let q2 = queue.push(p);
    if queue.len() < k {
        if queue.len() + 1 == k {
            assert(q2.take(k as int) =~= q2);
            assert(q2.skip(k as int) =~= Seq::<X>::empty());
            assert(tables_of(Seq::<X>::empty(), k) == Seq::<Seq<X>>::empty());
            assert(left_waiting(Seq::<X>::empty(), k) == Seq::<X>::empty());
            assert(tables_of(q2, k) =~= tables_of(queue, k).push(left_waiting(queue, k).push(p)));
            assert(left_waiting(q2, k) == Seq::<X>::empty());
        }
    } else {
        assert(q2.take(k as int) =~= queue.take(k as int));
        assert(q2.skip(k as int) =~= queue.skip(k as int).push(p));
        lemma_queue_push(queue.skip(k as int), k, p);
        let rest = queue.skip(k as int);
        if left_waiting(queue, k).len() + 1 == k {
            assert(tables_of(q2, k) =~= seq![queue.take(k as int)] + tables_of(rest, k).push(
                left_waiting(rest, k).push(p),
            ));
            assert(tables_of(q2, k) =~= tables_of(queue, k).push(left_waiting(queue, k).push(p)));
        }
    }
}

/// A table that is being filled: open, of eight seats, holding between one
/// and seven players, neither failed nor over.
pub open spec fn filling<P, L, G: Game<P, L>>(g: G) -> bool {
    &&& g.open_table()
    &&& g.limit() == 8
    &&& 0 < g.seats().len() < 8
    &&& !g.is_error()
    &&& !g.is_over()
}

/// The players waiting at a table being filled, if there is one.
pub open spec fn waiting_at<P, L, G: Game<P, L>>(lobby: Option<G>) -> Seq<ConnectedPlayer<P, L>> {
    match lobby {
        Some(g) => g.seats(),
        None => Seq::empty(),
    }
}

/// Players who arrived together join the table being filled, one after the
/// other in arrival order. Returns the table still being filled, if any,
/// and the tables that filled up, in the order they filled: the queue (the
/// players already waiting, then those arriving) is cut into tables of
/// eight from the front, and those left over keep waiting.
pub fn admit_arrivals<P, L, G: Game<P, L>>(lobby: Option<G>, arrivals: Vec<ConnectedPlayer<P, L>>) -> (r: (
    Option<G>,
    Vec<G>,
))
    requires
        lobby matches Some(g) ==> filling(g),
    ensures
        ({
            let queue = waiting_at(lobby) + arrivals@;
            &&& r.1@.len() == tables_of(queue, 8).len()
            &&& forall|j: int|
                0 <= j < r.1@.len() ==> {
                    let t = #[trigger] r.1@[j];
                    &&& t.seats() == tables_of(queue, 8)[j]
                    &&& t.limit() == 8
                    &&& t.well_formed()
                    &&& t.open_table()
                    &&& !t.is_error()
                    &&& !t.is_over()
                }
            &&& match r.0 {
                Some(l) => filling(l) && l.seats() == left_waiting(queue, 8),
                None => left_waiting(queue, 8).len() == 0,
            }
        }),
{
    let ghost start = waiting_at(lobby);
    let mut lobby = lobby;
    let mut full: Vec<G> = Vec::new();
    let mut rest = arrivals;
    let ghost mut taken: int = 0;
    proof {
        assert(left_waiting(start, 8) == start);
        assert(start + arrivals@.take(0) =~= start);
    }
    while rest.len() > 0
        invariant
            0 <= taken <= arrivals@.len(),
            rest@ == arrivals@.skip(taken),
            ({
                let done = start + arrivals@.take(taken);
                &&& full@.len() == tables_of(done, 8).len()
                &&& forall|j: int|
                    0 <= j < full@.len() ==> {
                        let t = #[trigger] full@[j];
                        &&& t.seats() == tables_of(done, 8)[j]
                        &&& t.limit() == 8
                        &&& t.well_formed()
                        &&& t.open_table()
                        &&& !t.is_error()
                        &&& !t.is_over()
                    }
                &&& match lobby {
                    Some(l) => filling(l) && l.seats() == left_waiting(done, 8),
                    None => left_waiting(done, 8).len() == 0,
                }
            }),
        decreases rest.len(),
    {
        let ghost done = start + arrivals@.take(taken);
        let p = rest.remove(0);
        proof {
            assert(p == arrivals@[taken]);
            assert(start + arrivals@.take(taken + 1) =~= done.push(p));
            lemma_queue_push(done, 8, p);
            taken = taken + 1;
            assert(rest@ =~= arrivals@.skip(taken));
        }
        let ghost old_full = full@;
        let (l, f) = join_lobby(lobby, p);
        lobby = l;
        match f {
            Some(t) => {
                full.push(t);
            },
            None => {},
        }
        proof {
            let now = start + arrivals@.take(taken);
            assert(now == done.push(p));
            assert forall|j: int| 0 <= j < old_full.len() implies #[trigger] full@[j] == old_full[j] by {}
        }
    }
    proof {
        assert(arrivals@.take(taken) =~= arrivals@);
    }
    (lobby, full)
}

/// A finished game (over or broken) gives its players back.
pub fn game_finished<P, L, G: Game<P, L>>(game: &G) -> (b: bool)
    ensures
        b == (game.is_error() || game.is_over()),
{
    game.error() || game.over()
}

/// The connection of a player of a finished game is checked once more; the
/// player goes back to the queue unless the check reports an error. Returns
/// whether to keep the player, and whether to shut its stream down.
pub fn release_player<P, L>(player: &mut ConnectedPlayer<P, L>, poll: ListenPoll) -> (r: (bool, bool))
    requires
        check_counts_failure(old(player).link_state(), poll) ==> old(player).failure_count
            < usize::MAX,
    ensures
        ({
            let (l, status, close) = check_outcome(old(player).link_state(), poll);
            &&& final(player).link_state() == l
            &&& r.0 == (status != ConnectionStatus::Error)
            &&& r.1 == close
        }),
        final(player).link == old(player).link,
        final(player).player == old(player).player,
{
    let (status, close) = player.check_connections(poll);
    (status != ConnectionStatus::Error, close)
}

} // verus!
