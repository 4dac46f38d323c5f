//! The rules of the game as mathematical functions over plain values: what a
//! game looks like, what it says to the players, and what one step of it does.
use vstd::prelude::*;
use crate::connection::{ListenPoll, LinkState, SocketStatus, ConnectionStatus, check_outcome};
use crate::player::{GuessView, PlayerView, Role, Status, player_text, public_text, private_text};
use crate::tally::top_of;
use crate::text::decimal;

verus! {

#[derive(PartialEq, Eq, Structural, Clone, Copy, Debug)]
pub enum Phase {
    Start,
    Detect,
    PreVote,
    Vote,
    PreKill,
    Kill,
    End,
    Error,
}

pub open spec fn phase_name(p: Phase) -> Seq<char> {
    match p {
        Phase::Start => "Start"@,
        Phase::Detect => "Detect"@,
        Phase::PreVote => "PreVote"@,
        Phase::Vote => "Vote"@,
        Phase::PreKill => "PreKill"@,
        Phase::Kill => "Kill"@,
        Phase::End => "End"@,
        Phase::Error => "Error"@,
    }
}

/// A seat as the rules see it.
pub struct SeatView {
    pub socket: SocketStatus,
    pub has_stream: bool,
    pub failure_count: nat,
    pub player: Option<PlayerView>,
}

/// Where a game is inside one round of play.
pub enum StageView {
    /// Between rounds.
    Idle,
    /// Checking the connection of `seat`, for the first or second time.
    Checking { seat: int, second: bool },
    /// Every seat is connected; roles are dealt next.
    Assigning,
    /// Waiting for the answers of `readers`; `closing` for the answers to
    /// the end-of-game message.
    Reading { readers: Seq<int>, closing: bool },
}

pub struct MafiaView {
    pub seats: Seq<SeatView>,
    pub phase: Phase,
    pub day: nat,
    pub mafia_left: nat,
    pub innocent_left: nat,
    pub max_players: nat,
    pub stage: StageView,
}

/// Something the caller is to do on the network.
pub enum EffectView {
    Send { to: int, text: Seq<char> },
    Close { seat: int },
}

/// What the game needs before it can go on.
pub enum NeedView {
    /// The round is over.
    Done,
    /// Nothing from the network; call again.
    Resume,
    /// Poll the listening socket of this seat.
    Poll(int),
    /// Read one answer from each of these seats, with a header of `len` bytes.
    Read { readers: Seq<int>, len: nat },
}

pub struct RequestView {
    pub effects: Seq<EffectView>,
    pub need: NeedView,
}

pub enum ReplyView {
    Resume,
    Polled(ListenPoll),
    Ballots(Seq<Seq<GuessView>>),
}

// ---------------------------------------------------------------- seats

pub open spec fn alive(s: SeatView) -> bool {
    s.player matches Some(p) && p.status == Status::Alive
}

pub open spec fn seat_role(s: SeatView) -> Role {
    match s.player {
        Some(p) => p.role,
        None => Role::Innocent,
    }
}

pub open spec fn alive_mafia(s: SeatView) -> bool {
    alive(s) && seat_role(s) == Role::Mafia
}

pub open spec fn alive_detective(s: SeatView) -> bool {
    alive(s) && seat_role(s) == Role::Detective
}

/// Which seats a round addresses.
#[derive(PartialEq, Eq, Structural, Clone, Copy)]
pub enum Filter {
    Alive,
    AliveMafia,
    AliveDetective,
    Streamed,
}

pub open spec fn selects(f: Filter, s: SeatView) -> bool {
    match f {
        Filter::Alive => alive(s),
        Filter::AliveMafia => alive_mafia(s),
        Filter::AliveDetective => alive_detective(s),
        Filter::Streamed => s.has_stream,
    }
}

/// The positions of the seats that `f` selects, in order.
pub open spec fn seats_where(seats: Seq<SeatView>, f: Filter) -> Seq<int>
    decreases seats.len(),
{
    if seats.len() == 0 {
        Seq::empty()
    } else {
        let rest = seats_where(seats.drop_last(), f);
        if selects(f, seats.last()) {
            rest.push(seats.len() - 1)
        } else {
            rest
        }
    }
}

pub open spec fn with_link(s: SeatView, l: LinkState) -> SeatView {
    SeatView { socket: l.socket, has_stream: l.has_stream, failure_count: l.failure_count, ..s }
}

pub open spec fn link_of(s: SeatView) -> LinkState {
    LinkState { socket: s.socket, has_stream: s.has_stream, failure_count: s.failure_count }
}

pub open spec fn broken(s: SeatView) -> SeatView {
    SeatView { socket: SocketStatus::ConnectionError, ..s }
}

// ---------------------------------------------------------------- texts

/// Which description of a player a message carries.
#[derive(PartialEq, Eq, Structural, Clone, Copy)]
pub enum Detail {
    Public,
    Private,
    Full,
}

pub open spec fn describe(d: Detail, p: PlayerView) -> Seq<char> {
    match d {
        Detail::Public => public_text(p),
        Detail::Private => private_text(p),
        Detail::Full => player_text(p),
    }
}

/// `, <description of player>` for every seat that has a player.
pub open spec fn players_text(seats: Seq<SeatView>, d: Detail) -> Seq<char>
    decreases seats.len(),
{
    if seats.len() == 0 {
        Seq::empty()
    } else {
        let rest = players_text(seats.drop_last(), d);
        match seats.last().player {
            Some(p) => rest + ", "@ + describe(d, p),
            None => rest,
        }
    }
}

/// `Phase: <phase>, Day: <day>` and the public state of every player.
pub open spec fn game_text(g: MafiaView) -> Seq<char> {
    "Phase: "@ + phase_name(g.phase) + ", Day: "@ + decimal(g.day) + players_text(g.seats, Detail::Public)
}

/// `Phase: <phase>, Day: <day>` and the hidden state of every player.
pub open spec fn private_game_text(g: MafiaView) -> Seq<char> {
    "Phase: "@ + phase_name(g.phase) + ", Day: "@ + decimal(g.day) + players_text(g.seats, Detail::Private)
}

/// `End` and the full state of every player.
pub open spec fn end_text(seats: Seq<SeatView>) -> Seq<char> {
    "End"@ + players_text(seats, Detail::Full)
}

pub open spec fn seat_text(s: SeatView) -> Seq<char> {
    player_text(s.player.unwrap())
}

// ---------------------------------------------------------------- sending

/// A message for a seat.
pub type Delivery = (int, Seq<char>);

/// How many of `ds` go out before the first one whose seat has no stream
/// (`ds.len()` when all of them go out).
pub open spec fn first_gap(seats: Seq<SeatView>, ds: Seq<Delivery>) -> int
    decreases ds.len(),
{
    if ds.len() == 0 {
        0
    } else {
        let k = first_gap(seats, ds.drop_last());
        if k < ds.len() - 1 {
            k
        } else if seats[ds.last().0].has_stream {
            ds.len() as int
        } else {
            ds.len() - 1
        }
    }
}

pub open spec fn sends(ds: Seq<Delivery>) -> Seq<EffectView> {
    ds.map_values(|d: Delivery| EffectView::Send { to: d.0, text: d.1 })
}

/// `Action, <player>, <state>` for each target.
pub open spec fn action_deliveries(seats: Seq<SeatView>, targets: Seq<int>, state: Seq<char>) -> Seq<
    Delivery,
> {
    targets.map_values(|i: int| (i, "Action, "@ + seat_text(seats[i]) + ", "@ + state))
}

/// A round is cut short: the seat that could not be written to is marked
/// broken and the game is over.
pub open spec fn aborted(g: MafiaView, seat: int, effects: Seq<EffectView>) -> (MafiaView, RequestView) {
    (
        MafiaView {
            seats: g.seats.update(seat, broken(g.seats[seat])),
            phase: Phase::End,
            stage: StageView::Idle,
            ..g
        },
        RequestView { effects, need: NeedView::Done },
    )
}

pub open spec fn done(g: MafiaView, effects: Seq<EffectView>) -> (MafiaView, RequestView) {
    (MafiaView { stage: StageView::Idle, ..g }, RequestView { effects, need: NeedView::Done })
}

/// Send the prompts `ds`, then wait for the answers of `targets`.
pub open spec fn prompt_then_read(g: MafiaView, targets: Seq<int>, ds: Seq<Delivery>) -> (
    MafiaView,
    RequestView,
) {
    let k = first_gap(g.seats, ds);
    if k < ds.len() {
        aborted(g, ds[k].0, sends(ds.take(k)))
    } else {
        (
            MafiaView { stage: StageView::Reading { readers: targets, closing: false }, ..g },
            RequestView {
                effects: sends(ds),
                need: NeedView::Read { readers: targets, len: g.max_players },
            },
        )
    }
}

// ---------------------------------------------------------------- opening a round

pub open spec fn check_need(seats: Seq<SeatView>, seat: int) -> NeedView {
    if seats[seat].socket == SocketStatus::Listening {
        NeedView::Poll(seat)
    } else {
        NeedView::Resume
    }
}

pub open spec fn open_round(g: MafiaView) -> (MafiaView, RequestView) {
    match g.phase {
        Phase::Start => if g.seats.len() > 0 {
            (
                MafiaView { stage: StageView::Checking { seat: 0, second: false }, ..g },
                RequestView { effects: Seq::empty(), need: check_need(g.seats, 0) },
            )
        } else {
            (
                MafiaView { stage: StageView::Assigning, ..g },
                RequestView { effects: Seq::empty(), need: NeedView::Resume },
            )
        },
        Phase::Detect => {
            let dets = seats_where(g.seats, Filter::AliveDetective);
            if dets.len() == 0 {
                done(MafiaView { phase: Phase::PreVote, ..g }, Seq::empty())
            } else {
                let targets = seq![dets[0]];
                prompt_then_read(g, targets, action_deliveries(g.seats, targets, game_text(g)))
            }
        },
        Phase::PreVote | Phase::Vote => {
            let targets = seats_where(g.seats, Filter::Alive);
            prompt_then_read(g, targets, action_deliveries(g.seats, targets, game_text(g)))
        },
        Phase::PreKill | Phase::Kill => {
            let targets = seats_where(g.seats, Filter::AliveMafia);
            prompt_then_read(g, targets, action_deliveries(g.seats, targets, private_game_text(g)))
        },
        _ => done(g, Seq::empty()),
    }
}

// ---------------------------------------------------------------- connection checks

pub open spec fn poll_of(reply: ReplyView) -> ListenPoll {
    match reply {
        ReplyView::Polled(p) => p,
        _ => ListenPoll::Waiting,
    }
}

pub open spec fn check_step(g: MafiaView, seat: int, second: bool, poll: ListenPoll) -> (
    MafiaView,
    RequestView,
) {
    let (l, status, close) = check_outcome(link_of(g.seats[seat]), poll);
    let seats = g.seats.update(seat, with_link(g.seats[seat], l));
    let effects = if close {
        seq![EffectView::Close { seat }]
    } else {
        Seq::empty()
    };
    let g1 = MafiaView { seats, ..g };
    if !second {
        if status == ConnectionStatus::Error {
            done(MafiaView { phase: Phase::Error, ..g1 }, effects)
        } else {
            (
                MafiaView { stage: StageView::Checking { seat, second: true }, ..g1 },
                RequestView { effects, need: check_need(seats, seat) },
            )
        }
    } else if status == ConnectionStatus::NotConnected {
        done(g1, effects)
    } else if seat + 1 < seats.len() {
        (
            MafiaView { stage: StageView::Checking { seat: seat + 1, second: false }, ..g1 },
            RequestView { effects, need: check_need(seats, seat + 1) },
        )
    } else {
        (
            MafiaView { stage: StageView::Assigning, ..g1 },
            RequestView { effects, need: NeedView::Resume },
        )
    }
}

// ---------------------------------------------------------------- dealing roles

/// One Detective, a Mafia member for every four seats, Innocents for the rest.
pub open spec fn role_vec(max_players: nat) -> Seq<Role> {
    let mafia = max_players / 4;
    let innocents = if max_players > 1 + mafia { max_players - 1 - mafia } else { 0 };
    seq![Role::Detective] + Seq::new(mafia, |i: int| Role::Mafia) + Seq::new(
        innocents as nat,
        |i: int| Role::Innocent,
    )
}

/// A fresh guess list: `max_players` zeros.
pub open spec fn zero_guesses(max_players: nat) -> Seq<GuessView> {
    Seq::new(max_players, |i: int| GuessView { key: Some(0i64), text: "0"@ })
}

/// The player dealt to seat `i`: roles are taken from the back of `roles`.
pub open spec fn dealt_player(roles: Seq<Role>, i: int, max_players: nat) -> PlayerView {
    PlayerView {
        role: roles[roles.len() - 1 - i],
        status: Status::Alive,
        id: i as u8,
        guesses: zero_guesses(max_players),
        hid_guess: zero_guesses(max_players),
    }
}

/// Seats `0..upto` get their dealt player, the others are left as they are.
pub open spec fn deal_seats(seats: Seq<SeatView>, roles: Seq<Role>, upto: int, max_players: nat) -> Seq<
    SeatView,
> {
    Seq::new(
        seats.len(),
        |i: int|
            if i < upto {
                SeatView { player: Some(dealt_player(roles, i, max_players)), ..seats[i] }
            } else {
                seats[i]
            },
    )
}

pub open spec fn start_deliveries(seats: Seq<SeatView>, max_players: nat) -> Seq<Delivery> {
    Seq::new(
        seats.len(),
        |i: int| (i, "Start, "@ + seat_text(seats[i]) + ", "@ + decimal(max_players)),
    )
}

/// Every Mafia member learns who every Mafia member is.
pub open spec fn mafia_deliveries(seats: Seq<SeatView>) -> Seq<Delivery> {
    let members = seats_where(seats, Filter::AliveMafia);
    let m = members.len();
    Seq::new(m * m, |j: int| (members[j / (m as int)], seat_text(seats[members[j % (m as int)]])))
}

pub open spec fn deal_step(g: MafiaView, roles: Seq<Role>) -> (MafiaView, RequestView) {
    let n = g.seats.len() as int;
    let dealt = deal_seats(g.seats, roles, n, g.max_players);
    let ds1 = start_deliveries(dealt, g.max_players);
    let k1 = first_gap(dealt, ds1);
    if k1 < n {
        aborted(
            MafiaView { seats: deal_seats(g.seats, roles, k1 + 1, g.max_players), ..g },
            k1,
            sends(ds1.take(k1)),
        )
    } else {
        let ds2 = mafia_deliveries(dealt);
        let k2 = first_gap(dealt, ds2);
        if k2 < ds2.len() {
            aborted(MafiaView { seats: dealt, ..g }, ds2[k2].0, sends(ds1) + sends(ds2.take(k2)))
        } else {
            done(MafiaView { seats: dealt, phase: Phase::Detect, ..g }, sends(ds1) + sends(ds2))
        }
    }
}

/// `roles` is an arrangement of the roles a game of `max_players` deals.
pub open spec fn is_shuffle(roles: Seq<Role>, max_players: nat) -> bool {
    roles.to_multiset() == role_vec(max_players).to_multiset()
}

// ---------------------------------------------------------------- answers

/// How an answer is recorded in a phase.
#[derive(PartialEq, Eq, Structural, Clone, Copy)]
pub enum Record {
    /// Both guess lists take the answer.
    Open,
    /// Both guess lists take the answer, when it points at someone with a
    /// value above zero.
    OpenVote,
    /// Only the hidden list takes the answer.
    Hidden,
    /// Only the hidden list takes the answer, when it points at someone.
    HiddenVote,
}

/// A key that stands for a value `<= 0`.
pub open spec fn at_most_zero(k: Option<i64>) -> bool {
    k matches Some(x) && x <= 0
}

/// The seat an answer votes for, if it is counted.
pub open spec fn vote_of(b: Seq<GuessView>, positive_only: bool) -> Option<int> {
    match top_of(b) {
        Some(t) => if positive_only && at_most_zero(b[t].key) {
            None
        } else {
            Some(t)
        },
        None => None,
    }
}

pub open spec fn records(mode: Record, b: Seq<GuessView>) -> bool {
    match mode {
        Record::Open | Record::Hidden => true,
        Record::OpenVote => vote_of(b, true) is Some,
        Record::HiddenVote => vote_of(b, false) is Some,
    }
}

pub open spec fn with_answer(s: SeatView, b: Seq<GuessView>, mode: Record) -> SeatView {
    match s.player {
        Some(p) => SeatView {
            player: Some(
                match mode {
                    Record::Open | Record::OpenVote => PlayerView { guesses: b, hid_guess: b, ..p },
                    _ => PlayerView { hid_guess: b, ..p },
                },
            ),
            ..s
        },
        None => s,
    }
}

/// The seats after the answers `bs` of `readers` are recorded, in order.
pub open spec fn record_answers(
    seats: Seq<SeatView>,
    readers: Seq<int>,
    bs: Seq<Seq<GuessView>>,
    mode: Record,
) -> Seq<SeatView>
    decreases readers.len(),
{
    if readers.len() == 0 || bs.len() == 0 {
        seats
    } else {
        let s = record_answers(seats, readers.drop_last(), bs.drop_last(), mode);
        let i = readers.last();
        if records(mode, bs.last()) {
            s.update(i, with_answer(s[i], bs.last(), mode))
        } else {
            s
        }
    }
}

/// The votes each seat received, for a table of `len` positions.
pub open spec fn tally(bs: Seq<Seq<GuessView>>, len: nat, positive_only: bool) -> Seq<usize>
    decreases bs.len(),
{
    if bs.len() == 0 {
        Seq::new(len, |i: int| 0usize)
    } else {
        let c = tally(bs.drop_last(), len, positive_only);
        match vote_of(bs.last(), positive_only) {
            Some(t) => if 0 <= t < c.len() {
                c.update(t, (c[t] + 1) as usize)
            } else {
                c
            },
            None => c,
        }
    }
}

/// The position with the most votes; the earliest on a tie.
pub open spec fn verdict(votes: Seq<usize>) -> Option<int> {
    if votes.len() == 0 {
        None
    } else {
        Some(choose|i: int| crate::tally::is_first_max(votes, i))
    }
}

/// Whether the verdict `v`, with `count` votes, carries in this phase.
pub open spec fn carries(g: MafiaView, count: nat) -> bool {
    if g.phase == Phase::Vote {
        count > (g.mafia_left + g.innocent_left) / 2
    } else {
        count >= g.mafia_left / 2
    }
}

/// The seat that dies in this vote, if any.
pub open spec fn victim(g: MafiaView, votes: Seq<usize>) -> Option<int> {
    match verdict(votes) {
        Some(v) => if carries(g, votes[v] as nat) && 0 <= v < g.seats.len() && alive(g.seats[v]) {
            Some(v)
        } else {
            None
        },
        None => None,
    }
}

pub open spec fn killed(s: SeatView) -> SeatView {
    SeatView { player: Some(PlayerView { status: Status::Dead, ..s.player.unwrap() }), ..s }
}

/// The game after seat `v` died: the count of its side goes down by one.
pub open spec fn after_kill(g: MafiaView, v: int) -> MafiaView {
    let role = seat_role(g.seats[v]);
    MafiaView {
        seats: g.seats.update(v, killed(g.seats[v])),
        mafia_left: if role == Role::Mafia { (g.mafia_left - 1) as nat } else { g.mafia_left },
        innocent_left: if role == Role::Mafia { g.innocent_left } else { (g.innocent_left - 1) as nat },
        ..g
    }
}

/// Whether the game is decided after a vote of this phase.
pub open spec fn game_decided(g: MafiaView) -> bool {
    ||| g.mafia_left == 0
    ||| g.mafia_left >= g.innocent_left
    ||| (g.phase == Phase::Kill && g.day >= 100)
}

pub open spec fn all_seats(n: nat) -> Seq<int> {
    Seq::new(n, |i: int| i)
}

/// The end of the game: everyone who can be written to gets the full state;
/// the others are marked broken. Then everyone's answer is awaited.
pub open spec fn finish(g: MafiaView, effects: Seq<EffectView>) -> (MafiaView, RequestView) {
    let msg = end_text(g.seats);
    let n = g.seats.len();
    let targets = seats_where(g.seats, Filter::Streamed);
    (
        MafiaView {
            seats: Seq::new(
                n,
                |i: int|
                    if g.seats[i].has_stream {
                        g.seats[i]
                    } else {
                        broken(g.seats[i])
                    },
            ),
            stage: StageView::Reading { readers: all_seats(n), closing: true },
            ..g
        },
        RequestView {
            effects: effects + sends(targets.map_values(|i: int| (i, msg))),
            need: NeedView::Read { readers: all_seats(n), len: g.max_players },
        },
    )
}

/// Tell the living who died, then close the game or move on.
pub open spec fn after_vote(g: MafiaView, v: Option<int>) -> (MafiaView, RequestView) {
    let ds = match v {
        Some(v) => {
            let msg = "Info, "@ + seat_text(g.seats[v]);
            seats_where(g.seats, Filter::Alive).map_values(|i: int| (i, msg))
        },
        None => Seq::empty(),
    };
    let k = first_gap(g.seats, ds);
    if k < ds.len() {
        aborted(g, ds[k].0, sends(ds.take(k)))
    } else if game_decided(g) {
        finish(g, sends(ds))
    } else if g.phase == Phase::Vote {
        done(MafiaView { phase: Phase::PreKill, ..g }, sends(ds))
    } else {
        done(MafiaView { phase: Phase::Detect, day: g.day + 1, ..g }, sends(ds))
    }
}

/// The answer to the end-of-game message: an empty answer, or one that
/// starts with zero, leaves the game.
pub open spec fn quits(b: Seq<GuessView>) -> bool {
    b.len() == 0 || b[0].key == Some(0i64)
}

pub open spec fn answers_step(g: MafiaView, readers: Seq<int>, closing: bool, bs: Seq<Seq<GuessView>>) -> (
    MafiaView,
    RequestView,
) {
    if closing {
        done(
            MafiaView {
                seats: Seq::new(
                    g.seats.len(),
                    |i: int|
                        if quits(bs[i]) {
                            broken(g.seats[i])
                        } else {
                            g.seats[i]
                        },
                ),
                phase: Phase::End,
                ..g
            },
            Seq::empty(),
        )
    } else {
        match g.phase {
            Phase::Detect => match top_of(bs[0]) {
                Some(t) => {
                    let d = readers[0];
                    let ds = seq![(d, "Info, "@ + seat_text(g.seats[t]))];
                    if g.seats[d].has_stream {
                        done(MafiaView { phase: Phase::PreVote, ..g }, sends(ds))
                    } else {
                        aborted(g, d, Seq::empty())
                    }
                },
                None => done(MafiaView { phase: Phase::PreVote, ..g }, Seq::empty()),
            },
            Phase::PreVote => done(
                MafiaView {
                    seats: record_answers(g.seats, readers, bs, Record::Open),
                    phase: Phase::Vote,
                    ..g
                },
                Seq::empty(),
            ),
            Phase::PreKill => done(
                MafiaView {
                    seats: record_answers(g.seats, readers, bs, Record::Hidden),
                    phase: Phase::Kill,
                    ..g
                },
                Seq::empty(),
            ),
            _ => {
                let open = g.phase == Phase::Vote;
                let mode = if open { Record::OpenVote } else { Record::HiddenVote };
                let g1 = MafiaView { seats: record_answers(g.seats, readers, bs, mode), ..g };
                let v = victim(g1, tally(bs, g.max_players, open));
                match v {
                    Some(v) => after_vote(after_kill(g1, v), Some(v)),
                    None => after_vote(g1, None),
                }
            },
        }
    }
}

// ---------------------------------------------------------------- one step

/// One step of the game: what it becomes and what it asks of the caller,
/// given the reply to its last request. `roles` is the shuffled deal, read
/// only when roles are dealt.
pub open spec fn step(g: MafiaView, reply: ReplyView, roles: Seq<Role>) -> (MafiaView, RequestView) {
    match g.stage {
        StageView::Idle => open_round(g),
        StageView::Checking { seat, second } => check_step(g, seat, second, poll_of(reply)),
        StageView::Assigning => deal_step(g, roles),
        StageView::Reading { readers, closing } => match reply {
            ReplyView::Ballots(bs) => answers_step(g, readers, closing, bs),
            _ => (g, RequestView { effects: Seq::empty(), need: NeedView::Done }),
        },
    }
}

// ---------------------------------------------------------------- well-formedness

pub open spec fn wf(g: MafiaView) -> bool {
    &&& g.mafia_left + g.innocent_left <= g.max_players
    &&& g.max_players <= usize::MAX
    &&& g.day <= usize::MAX
    &&& (g.phase == Phase::End || g.phase == Phase::Error) ==> g.stage == StageView::Idle
    &&& match g.stage {
        StageView::Idle => true,
        StageView::Checking { seat, second } => g.phase == Phase::Start && 0 <= seat
            < g.seats.len(),
        StageView::Assigning => g.phase == Phase::Start,
        StageView::Reading { readers, closing } => {
            &&& forall|j: int| 0 <= j < readers.len() ==> 0 <= #[trigger] readers[j] < g.seats.len()
            &&& closing ==> (g.phase == Phase::Vote || g.phase == Phase::Kill) && readers
                == all_seats(g.seats.len())
            &&& !closing ==> g.phase != Phase::Start
            &&& g.phase == Phase::Detect && !closing ==> readers.len() == 1
        },
    }
}

/// A vote's verdict can be carried out: when it carries, it names a seat, and
/// the side of a living victim still has members to lose.
pub open spec fn verdict_fits(g: MafiaView, votes: Seq<usize>) -> bool {
    match verdict(votes) {
        Some(v) => carries(g, votes[v] as nat) ==> {
            &&& 0 <= v < g.seats.len()
            &&& alive(g.seats[v]) ==> if seat_role(g.seats[v]) == Role::Mafia {
                g.mafia_left > 0
            } else {
                g.innocent_left > 0
            }
        },
        None => true,
    }
}

/// The reply answers the last request and holds nothing the rules cannot
/// carry out.
pub open spec fn reply_fits(g: MafiaView, reply: ReplyView) -> bool {
    match g.stage {
        StageView::Idle => true,
        StageView::Checking { seat, second } => {
            &&& g.seats[seat].socket == SocketStatus::Listening ==> reply is Polled
            &&& crate::connection::check_counts_failure(link_of(g.seats[seat]), poll_of(reply))
                ==> g.seats[seat].failure_count < usize::MAX
        },
        StageView::Assigning => g.seats.len() <= role_vec(g.max_players).len(),
        StageView::Reading { readers, closing } => match reply {
            ReplyView::Ballots(bs) => {
                &&& bs.len() == readers.len()
                &&& !closing && g.phase == Phase::Detect ==> (top_of(bs[0]) matches Some(t) ==> 0
                    <= t < g.seats.len() && g.seats[t].player is Some)
                &&& !closing && (g.phase == Phase::Vote || g.phase == Phase::Kill) ==> {
                    let open = g.phase == Phase::Vote;
                    &&& forall|j: int|
                        0 <= j < bs.len() ==> (#[trigger] vote_of(bs[j], open) matches Some(t)
                            ==> t < g.max_players)
                    &&& verdict_fits(g, tally(bs, g.max_players, open))
                }
            },
            _ => false,
        },
    }
}

// ---------------------------------------------------------------- lemmas

pub proof fn lemma_first_gap(seats: Seq<SeatView>, ds: Seq<Delivery>)
    ensures
        0 <= first_gap(seats, ds) <= ds.len(),
        forall|j: int| 0 <= j < first_gap(seats, ds) ==> #[trigger] seats[ds[j].0].has_stream,
        first_gap(seats, ds) < ds.len() ==> !seats[ds[first_gap(seats, ds)].0].has_stream,
    decreases ds.len(),
{
    if ds.len() > 0 {
        lemma_first_gap(seats, ds.drop_last());
        let k = first_gap(seats, ds.drop_last());
        assert forall|j: int| 0 <= j < first_gap(seats, ds) implies #[trigger] seats[ds[j].0].has_stream by {
            if j < ds.len() - 1 {
                assert(ds.drop_last()[j] == ds[j]);
            }
        }
        if k < ds.len() - 1 {
            assert(ds.drop_last()[k] == ds[k]);
        }
    }
}

/// Once a prefix of the deliveries stops at a gap, so do all of them.
pub proof fn lemma_first_gap_prefix(seats: Seq<SeatView>, ds: Seq<Delivery>, m: int)
    requires
        0 <= m <= ds.len(),
        first_gap(seats, ds.take(m)) < m,
    ensures
        first_gap(seats, ds) == first_gap(seats, ds.take(m)),
    decreases ds.len() - m,
{
    if ds.len() == m {
        assert(ds.take(m) =~= ds);
    } else {
        assert(ds.drop_last().take(m) =~= ds.take(m));
        lemma_first_gap_prefix(seats, ds.drop_last(), m);
    }
}

/// The deliveries that all go out.
pub proof fn lemma_first_gap_full(seats: Seq<SeatView>, ds: Seq<Delivery>)
    requires
        forall|j: int| 0 <= j < ds.len() ==> #[trigger] seats[ds[j].0].has_stream,
    ensures
        first_gap(seats, ds) == ds.len(),
    decreases ds.len(),
{
    if ds.len() > 0 {
        assert forall|j: int| 0 <= j < ds.drop_last().len() implies #[trigger] seats[ds.drop_last()[j].0].has_stream by {
            assert(ds.drop_last()[j] == ds[j]);
        }
        lemma_first_gap_full(seats, ds.drop_last());
    }
}

/// Deliveries only look at whether seats hold a stream.
pub proof fn lemma_first_gap_streams(a: Seq<SeatView>, b: Seq<SeatView>, ds: Seq<Delivery>)
    requires
        a.len() == b.len(),
        forall|i: int| 0 <= i < a.len() ==> #[trigger] a[i].has_stream == b[i].has_stream,
        forall|j: int| 0 <= j < ds.len() ==> 0 <= #[trigger] ds[j].0 < a.len(),
    ensures
        first_gap(a, ds) == first_gap(b, ds),
    decreases ds.len(),
{
    if ds.len() > 0 {
        assert forall|j: int| 0 <= j < ds.drop_last().len() implies 0 <= #[trigger] ds.drop_last()[j].0 < a.len() by {
            assert(ds.drop_last()[j] == ds[j]);
        }
        lemma_first_gap_streams(a, b, ds.drop_last());
        assert(0 <= ds[ds.len() - 1].0 < a.len());
    }
}

pub proof fn lemma_seats_where(seats: Seq<SeatView>, f: Filter)
    ensures
        forall|j: int| 0 <= j < seats_where(seats, f).len() ==> 0 <= #[trigger] seats_where(seats, f)[j] < seats.len()
            && selects(f, seats[seats_where(seats, f)[j]]),
        forall|j: int, k: int| 0 <= j < k < seats_where(seats, f).len() ==> #[trigger] seats_where(seats, f)[j]
            < #[trigger] seats_where(seats, f)[k],
        seats_where(seats, f).len() <= seats.len(),
    decreases seats.len(),
{
    if seats.len() > 0 {
        lemma_seats_where(seats.drop_last(), f);
        let rest = seats_where(seats.drop_last(), f);
        assert forall|j: int| 0 <= j < rest.len() implies selects(f, seats[#[trigger] rest[j]]) by {
            assert(seats.drop_last()[rest[j]] == seats[rest[j]]);
        }
    }
}

pub proof fn lemma_flat_index(a: int, b: int, m: int)
    requires
        0 <= a,
        0 <= b < m,
    ensures
        (a * m + b) / m == a,
        (a * m + b) % m == b,
{
    assert((a * m + b) / m == a && (a * m + b) % m == b) by (nonlinear_arith)
        requires
            0 <= a,
            0 <= b < m,
    ;
}

pub proof fn lemma_first_max_unique(s: Seq<usize>, i: int, j: int)
    requires
        crate::tally::is_first_max(s, i),
        crate::tally::is_first_max(s, j),
    ensures
        i == j,
{
    if i < j {
        assert(s[i] < s[j]);
    } else if j < i {
        assert(s[j] < s[i]);
    }
}

pub proof fn lemma_verdict(s: Seq<usize>, v: int)
    requires
        crate::tally::is_first_max(s, v),
    ensures
        verdict(s) == Some(v),
{
    let k = choose|i: int| crate::tally::is_first_max(s, i);
    lemma_first_max_unique(s, k, v);
}

pub proof fn lemma_tally_len(bs: Seq<Seq<GuessView>>, len: nat, open: bool)
    ensures
        tally(bs, len, open).len() == len,
        forall|x: int| 0 <= x < len ==> #[trigger] tally(bs, len, open)[x] <= bs.len(),
    decreases bs.len(),
{
    if bs.len() > 0 {
        lemma_tally_len(bs.drop_last(), len, open);
    }
}

/// Recording answers changes nobody's life, role, connection or seat.
pub proof fn lemma_record_keeps(seats: Seq<SeatView>, readers: Seq<int>, bs: Seq<Seq<GuessView>>, mode: Record)
    requires
        forall|j: int| 0 <= j < readers.len() ==> 0 <= #[trigger] readers[j] < seats.len(),
    ensures
        record_answers(seats, readers, bs, mode).len() == seats.len(),
        forall|i: int| 0 <= i < seats.len() ==> {
            let r = #[trigger] record_answers(seats, readers, bs, mode)[i];
            &&& alive(r) == alive(seats[i])
            &&& seat_role(r) == seat_role(seats[i])
            &&& r.has_stream == seats[i].has_stream
            &&& r.socket == seats[i].socket
            &&& r.failure_count == seats[i].failure_count
            &&& (r.player is Some) == (seats[i].player is Some)
            &&& (r.player matches Some(p) ==> p.id == seats[i].player->0.id)
        },
    decreases readers.len(),
{
    if readers.len() > 0 && bs.len() > 0 {
        lemma_record_keeps(seats, readers.drop_last(), bs.drop_last(), mode);
    }
}

} // verus!
