//! The game of Mafia, played one step at a time: each step takes the reply to
//! the last request and returns what the caller is to do next on the network.
use vstd::prelude::*;
use crate::connection::Player;
use crate::connection::{ConnectedPlayer, ListenPoll, SocketStatus};
use crate::model::{
    Delivery, Detail, EffectView, Filter, MafiaView, NeedView, Phase, ReplyView, RequestView,
    SeatView, StageView, alive, check_step, describe, game_text, is_shuffle, lemma_verdict,
    open_round, phase_name, players_text, private_game_text, reply_fits, role_vec, seat_role,
    selects, step, tally, wf,
};

use crate::player::{Guess, GuessView, MafiaPlayer, PlayerView, Role, Status, ballot_view};
use crate::text::push_decimal;
use crate::server::Game;
use crate::answers::count_votes;

verus! {

pub enum Stage {
    Idle,
    Checking { seat: usize, second: bool },
    Assigning,
    Reading { readers: Vec<usize>, closing: bool },
}

pub open spec fn ints(v: Seq<usize>) -> Seq<int> {
    v.map_values(|x: usize| x as int)
}

impl View for Stage {
    type V = StageView;

    open spec fn view(&self) -> StageView {
        match self {
            Stage::Idle => StageView::Idle,
            Stage::Checking { seat, second } => StageView::Checking { seat: *seat as int, second: *second },
            Stage::Assigning => StageView::Assigning,
            Stage::Reading { readers, closing } => StageView::Reading {
                readers: ints(readers@),
                closing: *closing,
            },
        }
    }
}

/// Something the caller is to do on the network: write a message to a seat,
/// or shut a seat's stream down.
pub enum Effect {
    Send { to: usize, text: String },
    Close { seat: usize },
}

impl View for Effect {
    type V = EffectView;

    open spec fn view(&self) -> EffectView {
        match self {
            Effect::Send { to, text } => EffectView::Send { to: *to as int, text: text@ },
            Effect::Close { seat } => EffectView::Close { seat: *seat as int },
        }
    }
}

pub open spec fn effects_view(v: Seq<Effect>) -> Seq<EffectView> {
    v.map_values(|e: Effect| e@)
}

pub enum Need {
    Done,
    Resume,
    Poll(usize),
    Read { readers: Vec<usize>, len: usize },
}

impl View for Need {
    type V = NeedView;

    open spec fn view(&self) -> NeedView {
        match self {
            Need::Done => NeedView::Done,
            Need::Resume => NeedView::Resume,
            Need::Poll(i) => NeedView::Poll(*i as int),
            Need::Read { readers, len } => NeedView::Read { readers: ints(readers@), len: *len as nat },
        }
    }
}

/// What a step asks of the caller: the effects to carry out, in order, and
/// what the next step needs.
pub struct Request {
    pub effects: Vec<Effect>,
    pub need: Need,
}

impl View for Request {
    type V = RequestView;

    open spec fn view(&self) -> RequestView {
        RequestView { effects: effects_view(self.effects@), need: self.need@ }
    }
}

/// The reply to the last request: nothing, what a poll found, or the answers
/// read, one per requested seat and in the requested order.
pub enum Reply {
    Resume,
    Polled(ListenPoll),
    Ballots(Vec<Vec<Guess>>),
}

pub open spec fn ballots_view(bs: Seq<Vec<Guess>>) -> Seq<Seq<GuessView>> {
    bs.map_values(|b: Vec<Guess>| ballot_view(b@))
}

impl View for Reply {
    type V = ReplyView;

    open spec fn view(&self) -> ReplyView {
        match self {
            Reply::Resume => ReplyView::Resume,
            Reply::Polled(p) => ReplyView::Polled(*p),
            Reply::Ballots(bs) => ReplyView::Ballots(ballots_view(bs@)),
        }
    }
}

pub open spec fn player_view(p: Option<MafiaPlayer>) -> Option<PlayerView> {
    match p {
        Some(p) => Some(p@),
        None => None,
    }
}

pub open spec fn seat_view<L>(c: ConnectedPlayer<MafiaPlayer, L>) -> SeatView {
    SeatView {
        socket: c.socket,
        has_stream: c.has_stream,
        failure_count: c.failure_count as nat,
        player: player_view(c.player),
    }
}

pub open spec fn seats_view<L>(v: Seq<ConnectedPlayer<MafiaPlayer, L>>) -> Seq<SeatView> {
    v.map_values(|c: ConnectedPlayer<MafiaPlayer, L>| seat_view(c))
}

/// A game of Mafia.
pub struct Mafia<L> {
    pub players: Vec<ConnectedPlayer<MafiaPlayer, L>>,
    pub phase: Phase,
    pub day: usize,
    pub mafia_left: usize,
    pub innocent_left: usize,
    pub max_players: usize,
    pub stage: Stage,
}

impl<L> View for Mafia<L> {
    type V = MafiaView;

    open spec fn view(&self) -> MafiaView {
        MafiaView {
            seats: seats_view(self.players@),
            phase: self.phase,
            day: self.day as nat,
            mafia_left: self.mafia_left as nat,
            innocent_left: self.innocent_left as nat,
            max_players: self.max_players as nat,
            stage: self.stage@,
        }
    }
}

impl<L> Mafia<L> {
    /// The network handles of the seats, in seat order.
    pub open spec fn links(&self) -> Seq<L> {
        self.players@.map_values(|c: ConnectedPlayer<MafiaPlayer, L>| c.link)
    }
}

pub fn phase_str(p: Phase) -> (s: &'static str)
    ensures
        s@ == phase_name(p),
{
    proof {
        reveal_strlit("Start");
        reveal_strlit("Detect");
        reveal_strlit("PreVote");
        reveal_strlit("Vote");
        reveal_strlit("PreKill");
        reveal_strlit("Kill");
        reveal_strlit("End");
        reveal_strlit("Error");
    }
    match p {
        Phase::Start => "Start",
        Phase::Detect => "Detect",
        Phase::PreVote => "PreVote",
        Phase::Vote => "Vote",
        Phase::PreKill => "PreKill",
        Phase::Kill => "Kill",
        Phase::End => "End",
        Phase::Error => "Error",
    }
}

pub fn describe_player(d: Detail, p: &MafiaPlayer) -> (s: String)
    ensures
        s@ == describe(d, p@),
{
    match d {
        Detail::Public => p.get_public_state(),
        Detail::Private => p.get_private_state(),
        Detail::Full => p.get_state(),
    }
}

/// Appends `, <description>` for every seat that has a player.
pub fn push_players<L>(out: &mut String, players: &Vec<ConnectedPlayer<MafiaPlayer, L>>, d: Detail)
    ensures
        final(out)@ == old(out)@ + players_text(seats_view(players@), d),
{
    let n = players.len();
    let ghost sv = seats_view(players@);
    for i in 0..n
        invariant
            n == players@.len(),
            sv == seats_view(players@),
            out@ == old(out)@ + players_text(sv.take(i as int), d),
    {
        proof {
            reveal_strlit(", ");
            assert(sv.take(i + 1).drop_last() =~= sv.take(i as int));
        }
        match &players[i].player {
            Some(p) => {
                out.append(", ");
                let t = describe_player(d, p);
                out.append(t.as_str());
            },
            None => {},
        }
        assert(out@ =~= old(out)@ + players_text(sv.take(i + 1), d));
    }
    assert(sv.take(n as int) =~= sv);
}

impl<L> ConnectedPlayer<MafiaPlayer, L> {
    /// Alive or dead; a seat without a player counts as dead.
    pub fn get_status(&self) -> (s: Status)
        ensures
            s == (if alive(seat_view(*self)) { Status::Alive } else { Status::Dead }),
    {
        if let Some(player) = &self.player {
            return player.status;
        }
        Status::Dead
    }

    /// The role; a seat without a player counts as innocent.
    pub fn get_role(&self) -> (r: Role)
        ensures
            r == seat_role(seat_view(*self)),
    {
        if let Some(player) = &self.player {
            return player.role;
        }
        Role::Innocent
    }
}

impl<L> Mafia<L> {
    /// The roles to deal: one Detective, a Mafia member for every four seats,
    /// Innocents up to the size of the table.
    pub fn create_role_vec(&self) -> (roles: Vec<Role>)
        ensures
            roles@ == role_vec(self.max_players as nat),
    {
        let mut roles: Vec<Role> = Vec::new();
        roles.push(Role::Detective);
        let mafia = self.max_players / 4;
        for i in 0..mafia
            invariant
                roles@ =~= seq![Role::Detective] + Seq::new(i as nat, |k: int| Role::Mafia),
        {
            roles.push(Role::Mafia);
        }
        let ghost head = roles@;
        while roles.len() < self.max_players
            invariant
                head =~= seq![Role::Detective] + Seq::new(mafia as nat, |k: int| Role::Mafia),
                roles@.len() >= head.len(),
                roles@.len() <= head.len() || roles@.len() <= self.max_players,
                roles@ =~= head + Seq::new((roles@.len() - head.len()) as nat, |k: int| Role::Innocent),
            decreases self.max_players - roles.len(),
        {
            roles.push(Role::Innocent);
        }
        assert(roles@ =~= role_vec(self.max_players as nat));
        roles
    }

    fn state_with(&self, d: Detail) -> (s: String)
        ensures
            s@ == "Phase: "@ + phase_name(self.phase) + ", Day: "@ + crate::text::decimal(
                self.day as nat,
            ) + players_text(self@.seats, d),
    {
        proof {
            reveal_strlit("Phase: ");
            reveal_strlit(", Day: ");
        }
        let mut s = String::from_str("Phase: ");
        s.append(phase_str(self.phase));
        s.append(", Day: ");
        push_decimal(&mut s, self.day);
        push_players(&mut s, &self.players, d);
        s
    }

    /// The state of the game with every player's hidden guesses.
    pub fn get_private_state(&self) -> (s: String)
        ensures
            s@ == private_game_text(self@),
    {
        self.state_with(Detail::Private)
    }
}

pub open spec fn deliveries_view(v: Seq<(usize, String)>) -> Seq<Delivery> {
    v.map_values(|d: (usize, String)| (d.0 as int, d.1@))
}

pub fn copy_indices(v: &Vec<usize>) -> (r: Vec<usize>)
    ensures
        r@ == v@,
{
    let mut r: Vec<usize> = Vec::new();
    let n = v.len();
    for i in 0..n
        invariant
            n == v@.len(),
            r@ =~= v@.take(i as int),
    {
        r.push(v[i]);
    }
    assert(v@.take(n as int) =~= v@);
    r
}

pub(crate) fn seat_selected<L>(c: &ConnectedPlayer<MafiaPlayer, L>, f: Filter) -> (b: bool)
    ensures
        b == selects(f, seat_view(*c)),
{
    let alive = match &c.player {
        Some(p) => p.status == Status::Alive,
        None => false,
    };
    match f {
        Filter::Alive => alive,
        Filter::AliveMafia => alive && c.get_role() == Role::Mafia,
        Filter::AliveDetective => alive && c.get_role() == Role::Detective,
        Filter::Streamed => c.has_stream,
    }
}

pub(crate) proof fn lemma_seats_view_update<L>(v: Seq<ConnectedPlayer<MafiaPlayer, L>>, i: int, c: ConnectedPlayer<MafiaPlayer, L>)
    requires
        0 <= i < v.len(),
    ensures
        seats_view(v.update(i, c)) == seats_view(v).update(i, seat_view(c)),
{
    assert(seats_view(v.update(i, c)) =~= seats_view(v).update(i, seat_view(c)));
}

impl<L> Game<MafiaPlayer, L> for Mafia<L> {
    open spec fn seats(&self) -> Seq<ConnectedPlayer<MafiaPlayer, L>> {
        self.players@
    }

    open spec fn limit(&self) -> nat {
        self.max_players as nat
    }

    open spec fn is_error(&self) -> bool {
        self.phase == Phase::Error
    }

    open spec fn is_over(&self) -> bool {
        self.phase == Phase::End
    }

    open spec fn well_formed(&self) -> bool {
        wf(self@)
    }

    open spec fn open_table(&self) -> bool {
        wf(self@) && self@.stage == StageView::Idle
    }

    open spec fn accepts(&self, reply: ReplyView) -> bool {
        reply_fits(self@, reply)
    }

    fn new(max_players: usize) -> (g: Mafia<L>)
        ensures
            g@ == (MafiaView {
                seats: Seq::empty(),
                phase: Phase::Start,
                day: 0,
                mafia_left: max_players as nat / 4,
                innocent_left: (max_players - max_players / 4) as nat,
                max_players: max_players as nat,
                stage: StageView::Idle,
            }),
            wf(g@),
    {
        let g = Mafia {
            players: Vec::new(),
            phase: Phase::Start,
            day: 0,
            mafia_left: max_players / 4,
            innocent_left: max_players - max_players / 4,
            max_players: max_players,
            stage: Stage::Idle,
        };
        assert(g@.seats =~= Seq::<SeatView>::empty());
        g
    }

    /// One step of the game. `reply` answers the last request (nothing at the
    /// start of a round). The roles dealt at the start are a shuffle of
    /// [`role_vec`] that no caller chooses.
    fn run_game(&mut self, reply: Reply) -> (r: Request)
        ensures
            exists|roles: Seq<Role>| #[trigger] is_shuffle(roles, old(self).max_players as nat) && (final(self)@, r@) == step(old(self)@, reply@, roles),
            final(self).links() == old(self).links(),
    {
        let ghost g = self@;
        let ghost canonical = role_vec(self.max_players as nat);
        assert(is_shuffle(canonical, self.max_players as nat));
        match &self.stage {
            Stage::Idle => {
                let r = self.open_round();
                assert(is_shuffle(canonical, g.max_players) && (self@, r@) == step(g, reply@, canonical));
                r
            },
            Stage::Checking { seat, second } => {
                let seat = *seat;
                let second = *second;
                let poll = match reply {
                    Reply::Polled(p) => p,
                    _ => ListenPoll::Waiting,
                };
                let r = self.check_step(seat, second, poll);
                assert(is_shuffle(canonical, g.max_players) && (self@, r@) == step(g, reply@, canonical));
                r
            },
            Stage::Assigning => {
                let mut roles = self.create_role_vec();
                let mut rng = crate::chance::thread_rng();
                crate::chance::shuffle(&mut roles, &mut rng);
                let ghost dealt = roles@;
                let r = self.deal(roles);
                assert(is_shuffle(dealt, g.max_players) && (self@, r@) == step(g, reply@, dealt));
                r
            },
            Stage::Reading { readers, closing } => {
                let readers = copy_indices(readers);
                let closing = *closing;
                match reply {
                    Reply::Ballots(bs) => {
                        let r = self.answers(&readers, closing, &bs);
                        assert(is_shuffle(canonical, g.max_players) && (self@, r@) == step(g, reply@, canonical));
                        r
                    },
                    _ => {
                        let r = Request { effects: Vec::new(), need: Need::Done };
                        assert(r@.effects =~= Seq::<EffectView>::empty());
                        r
                    },
                }
            },
        }
    }
    /// Whether `reply` answers the last request in a way the rules can carry
    /// out (see [`reply_fits`]); a caller tests this before each step.
    fn accepts_reply(&self, reply: &Reply) -> (b: bool)
    {
        match &self.stage {
            Stage::Idle => true,
            Stage::Checking { seat, second } => {
                let seat = *seat;
                assert(self@.seats[seat as int] == seat_view(self.players@[seat as int]));
                let listening = self.players[seat].socket == SocketStatus::Listening;
                let polled = match reply {
                    Reply::Polled(_) => true,
                    _ => false,
                };
                let poll = match reply {
                    Reply::Polled(p) => *p,
                    _ => ListenPoll::Waiting,
                };
                let counts = listening && poll == ListenPoll::Waiting || self.players[seat].socket
                    == SocketStatus::Uninitialized;
                (!listening || polled) && (!counts || self.players[seat].failure_count < usize::MAX)
            },
            Stage::Assigning => self.players.len() <= self.create_role_vec().len(),
            Stage::Reading { readers, closing } => {
                let bs = match reply {
                    Reply::Ballots(bs) => bs,
                    _ => {
                        return false;
                    },
                };
                if bs.len() != readers.len() {
                    return false;
                }
                assert(ballots_view(bs@).len() == readers@.len());
                if *closing {
                    return true;
                }
                if self.phase == Phase::Detect {
                    assert(ballots_view(bs@)[0] == ballot_view(bs@[0]@));
                    return match crate::tally::ballot_top(&bs[0]) {
                        Some(t) => {
                            if t < self.players.len() {
                                assert(self@.seats[t as int] == seat_view(self.players@[t as int]));
                                self.players[t].player.is_some()
                            } else {
                                false
                            }
                        },
                        None => true,
                    };
                }
                if self.phase != Phase::Vote && self.phase != Phase::Kill {
                    return true;
                }
                let open = self.phase == Phase::Vote;
                let votes = match count_votes(bs, self.max_players, open) {
                    Some(v) => v,
                    None => {
                        return false;
                    },
                };
                match crate::tally::max_index(&votes) {
                    Some(v) => {
                        proof {
                            lemma_verdict(votes@, v as int);
                        }
                        let count = votes[v];
                        let carried = if open {
                            count > (self.mafia_left + self.innocent_left) / 2
                        } else {
                            count >= self.mafia_left / 2
                        };
                        if !carried {
                            return true;
                        }
                        if v >= self.players.len() {
                            return false;
                        }
                        assert(self@.seats[v as int] == seat_view(self.players@[v as int]));
                        match &self.players[v].player {
                            Some(p) => {
                                if p.status != Status::Alive {
                                    true
                                } else if p.role == Role::Mafia {
                                    self.mafia_left > 0
                                } else {
                                    self.innocent_left > 0
                                }
                            },
                            None => true,
                        }
                    },
                    None => true,
                }
            },
        }
    }
    fn error(&self) -> (b: bool)
        ensures
            b == (self.phase == Phase::Error),
    {
        self.phase == Phase::Error
    }

    fn over(&self) -> (b: bool)
        ensures
            b == (self.phase == Phase::End),
    {
        self.phase == Phase::End
    }

    fn player_list(&self) -> (r: &Vec<ConnectedPlayer<MafiaPlayer, L>>) {
        &self.players
    }

    fn player_list_mut(&mut self) -> (r: &mut Vec<ConnectedPlayer<MafiaPlayer, L>>) {
        &mut self.players
    }

    fn link_mut(&mut self, seat: usize) -> (r: &mut L) {
        proof {
            assert forall|v: Seq<ConnectedPlayer<MafiaPlayer, L>>|
                v.len() == self.players@.len() && (forall|i: int|
                    0 <= i < v.len() ==> #[trigger] seat_view(v[i]) == seat_view(self.players@[i])) implies
                #[trigger] seats_view(v) == seats_view(self.players@) by {
                assert(seats_view(v) =~= seats_view(self.players@));
            }
        }
        &mut self.players[seat].link
    }

    fn max_players(&self) -> (n: usize) {
        self.max_players
    }

    fn max_players_mut(&mut self) -> (r: &mut usize) {
        &mut self.max_players
    }

    /// The public state of the game: phase, day and every player's status and
    /// public guesses.
    fn get_state(&self) -> (s: String)
        ensures
            s@ == game_text(self@),
    {
        self.state_with(Detail::Public)
    }
}

} // verus!
