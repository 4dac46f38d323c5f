//! What holds of every step of a game, whatever the network replies.
use vstd::prelude::*;
use crate::connection::{ConnectionStatus, LinkState, ListenPoll, SocketStatus, check_outcome};
use crate::model::{
    Delivery, EffectView, Filter, MafiaView, NeedView, Phase, ReplyView, RequestView, SeatView,
    StageView, after_kill, after_vote, deal_seats, first_gap, lemma_first_gap, lemma_record_keeps,
    lemma_seats_where, mafia_deliveries, prompt_then_read, record_answers, reply_fits, seats_where,
    sends, start_deliveries, step, tally, victim, wf, Record, action_deliveries,
};
use crate::player::Role;
use crate::model::{alive, seat_role, role_vec, is_shuffle};
use crate::server::{left_waiting, tables_of};

verus! {

/// The phases a game can be in after one step from phase `a`: a round moves
/// Start, Detect, PreVote, Vote, PreKill, Kill and back to Detect; the game
/// may end from any phase but Start fails only into Error; End and Error stay.
pub open spec fn may_follow(a: Phase, b: Phase) -> bool {
    match a {
        Phase::Start => b == Phase::Start || b == Phase::Detect || b == Phase::End || b
            == Phase::Error,
        Phase::Detect => b == Phase::Detect || b == Phase::PreVote || b == Phase::End,
        Phase::PreVote => b == Phase::PreVote || b == Phase::Vote || b == Phase::End,
        Phase::Vote => b == Phase::Vote || b == Phase::PreKill || b == Phase::End,
        Phase::PreKill => b == Phase::PreKill || b == Phase::Kill || b == Phase::End,
        Phase::Kill => b == Phase::Kill || b == Phase::Detect || b == Phase::End,
        Phase::End => b == Phase::End,
        Phase::Error => b == Phase::Error,
    }
}

/// The phases follow the order of play, and a finished or failed game stays
/// so.
pub proof fn law_phase_order(g: MafiaView, reply: ReplyView, roles: Seq<Role>)
    requires
        wf(g),
        reply_fits(g, reply),
    ensures
        may_follow(g.phase, step(g, reply, roles).0.phase),
{
}

/// A game that is over, or that failed, does nothing more: every step leaves
/// it as it is and asks for nothing.
pub proof fn law_finished_games_rest(g: MafiaView, reply: ReplyView, roles: Seq<Role>)
    requires
        wf(g),
        g.phase == Phase::End || g.phase == Phase::Error,
    ensures
        step(g, reply, roles) == (g, RequestView { effects: Seq::empty(), need: NeedView::Done }),
{
}

/// The day only moves when the night's vote is resolved, and never past 100.
pub proof fn law_days(g: MafiaView, reply: ReplyView, roles: Seq<Role>)
    requires
        wf(g),
        reply_fits(g, reply),
        g.day <= 100,
    ensures
        ({
            let post = step(g, reply, roles).0;
            &&& post.day <= 100
            &&& post.day == g.day || (post.day == g.day + 1 && g.phase == Phase::Kill
                && post.phase == Phase::Detect)
        }),
{
}

/// A broken connection stays broken and is reported at every check, with
/// its stream shut; a working one stays working.
pub proof fn law_connection_states(s: LinkState, poll: ListenPoll)
    ensures
        s.socket == SocketStatus::ConnectionError ==> check_outcome(s, poll) == (
            LinkState { has_stream: false, ..s },
            ConnectionStatus::Error,
            true,
        ),
        s.socket == SocketStatus::Connected ==> check_outcome(s, poll) == (
            s,
            ConnectionStatus::Connected,
            false,
        ),
{
}

/// Every message of `effects` goes to a seat of `seats` that holds a stream.
pub open spec fn writes_reach_streams(seats: Seq<SeatView>, effects: Seq<EffectView>) -> bool {
    forall|j: int|
        0 <= j < effects.len() ==> (#[trigger] effects[j] matches EffectView::Send { to, .. } ==> 0
            <= to < seats.len() && seats[to].has_stream)
}

proof fn lemma_sends_reach(seats: Seq<SeatView>, ds: Seq<Delivery>, k: int)
    requires
        0 <= k <= first_gap(seats, ds),
        forall|j: int| 0 <= j < ds.len() ==> 0 <= #[trigger] ds[j].0 < seats.len(),
    ensures
        writes_reach_streams(seats, sends(ds.take(k))),
{
    lemma_first_gap(seats, ds);
    assert forall|j: int| 0 <= j < sends(ds.take(k)).len() implies (#[trigger] sends(ds.take(k))[j] matches EffectView::Send { to, .. } ==> 0
        <= to < seats.len() && seats[to].has_stream) by {
        assert(ds.take(k)[j] == ds[j]);
    }
}

proof fn lemma_reach_concat(seats: Seq<SeatView>, a: Seq<EffectView>, b: Seq<EffectView>)
    requires
        writes_reach_streams(seats, a),
        writes_reach_streams(seats, b),
    ensures
        writes_reach_streams(seats, a + b),
{
    assert forall|j: int| 0 <= j < (a + b).len() implies (#[trigger] (a + b)[j] matches EffectView::Send { to, .. } ==> 0
        <= to < seats.len() && seats[to].has_stream) by {
        if j < a.len() {
            assert((a + b)[j] == a[j]);
        } else {
            assert((a + b)[j] == b[j - a.len()]);
        }
    }
}

/// Two tables whose seats hold streams alike.
pub open spec fn same_streams(a: Seq<SeatView>, b: Seq<SeatView>) -> bool {
    &&& a.len() == b.len()
    &&& forall|i: int| 0 <= i < a.len() ==> #[trigger] a[i].has_stream == b[i].has_stream
}

proof fn lemma_reach_transfer(a: Seq<SeatView>, b: Seq<SeatView>, effects: Seq<EffectView>)
    requires
        same_streams(a, b),
        writes_reach_streams(b, effects),
    ensures
        writes_reach_streams(a, effects),
{
    assert forall|j: int| 0 <= j < effects.len() implies (#[trigger] effects[j] matches EffectView::Send { to, .. } ==> 0
        <= to < a.len() && a[to].has_stream) by {
        if let EffectView::Send { to, .. } = effects[j] {
            assert(b[to].has_stream);
        }
    }
}

proof fn lemma_prompt_reach(g: MafiaView, targets: Seq<int>, ds: Seq<Delivery>)
    requires
        forall|j: int| 0 <= j < ds.len() ==> 0 <= #[trigger] ds[j].0 < g.seats.len(),
    ensures
        writes_reach_streams(g.seats, prompt_then_read(g, targets, ds).1.effects),
{
    let k = first_gap(g.seats, ds);
    lemma_first_gap(g.seats, ds);
    lemma_sends_reach(g.seats, ds, k);
    if k == ds.len() {
        assert(ds.take(k) =~= ds);
    }
}

proof fn lemma_action_in_range(seats: Seq<SeatView>, f: Filter, state: Seq<char>)
    ensures
        forall|j: int| 0 <= j < action_deliveries(seats, seats_where(seats, f), state).len() ==> 0
            <= #[trigger] action_deliveries(seats, seats_where(seats, f), state)[j].0 < seats.len(),
{
    lemma_seats_where(seats, f);
}

proof fn lemma_after_vote_reach(g: MafiaView, v: Option<int>)
    requires
        v matches Some(x) ==> 0 <= x < g.seats.len(),
    ensures
        writes_reach_streams(g.seats, after_vote(g, v).1.effects),
{
    let ds = match v {
        Some(x) => {
            let msg = "Info, "@ + crate::model::seat_text(g.seats[x]);
            seats_where(g.seats, Filter::Alive).map_values(|i: int| (i, msg))
        },
        None => Seq::empty(),
    };
    lemma_seats_where(g.seats, Filter::Alive);
    lemma_seats_where(g.seats, Filter::Streamed);
    assert forall|j: int| 0 <= j < ds.len() implies 0 <= #[trigger] ds[j].0 < g.seats.len() by {
    }
    let k = first_gap(g.seats, ds);
    lemma_first_gap(g.seats, ds);
    lemma_sends_reach(g.seats, ds, k);
    if k == ds.len() {
        assert(ds.take(k) =~= ds);
        let msg = crate::model::end_text(g.seats);
        let targets = seats_where(g.seats, Filter::Streamed);
        let ends = sends(targets.map_values(|i: int| (i, msg)));
        assert(writes_reach_streams(g.seats, ends)) by {
            assert forall|j: int| 0 <= j < ends.len() implies (#[trigger] ends[j] matches EffectView::Send { to, .. } ==> 0
                <= to < g.seats.len() && g.seats[to].has_stream) by {
                assert(ends[j] == (EffectView::Send { to: targets[j], text: msg }));
            }
        }
        lemma_reach_concat(g.seats, sends(ds), ends);
    }
}

/// A step writes only to seats that hold a stream.
pub proof fn law_writes_reach_streams(g: MafiaView, reply: ReplyView, roles: Seq<Role>)
    requires
        wf(g),
        reply_fits(g, reply),
    ensures
        writes_reach_streams(g.seats, step(g, reply, roles).1.effects),
{
    match g.stage {
        StageView::Idle => {
            match g.phase {
                Phase::Detect => {
                    let dets = seats_where(g.seats, Filter::AliveDetective);
                    lemma_seats_where(g.seats, Filter::AliveDetective);
                    if dets.len() > 0 {
                        let targets = seq![dets[0]];
                        lemma_prompt_reach(g, targets, action_deliveries(g.seats, targets, crate::model::game_text(g)));
                    }
                },
                Phase::PreVote | Phase::Vote => {
                    lemma_action_in_range(g.seats, Filter::Alive, crate::model::game_text(g));
                    let targets = seats_where(g.seats, Filter::Alive);
                    lemma_prompt_reach(g, targets, action_deliveries(g.seats, targets, crate::model::game_text(g)));
                },
                Phase::PreKill | Phase::Kill => {
                    lemma_action_in_range(g.seats, Filter::AliveMafia, crate::model::private_game_text(g));
                    let targets = seats_where(g.seats, Filter::AliveMafia);
                    lemma_prompt_reach(g, targets, action_deliveries(g.seats, targets, crate::model::private_game_text(g)));
                },
                _ => {},
            }
        },
        StageView::Checking { seat, second } => {},
        StageView::Assigning => {
            let n = g.seats.len() as int;
            let dealt = deal_seats(g.seats, roles, n, g.max_players);
            let ds1 = start_deliveries(dealt, g.max_players);
            let k1 = first_gap(dealt, ds1);
            assert(same_streams(g.seats, dealt));
            lemma_first_gap(dealt, ds1);
            lemma_sends_reach(dealt, ds1, k1);
            if k1 < n {
                let part = deal_seats(g.seats, roles, k1 + 1, g.max_players);
                assert(same_streams(part, dealt));
                lemma_reach_transfer(g.seats, dealt, sends(ds1.take(k1)));
            } else {
                assert(ds1.take(k1) =~= ds1);
                let ds2 = mafia_deliveries(dealt);
                let members = seats_where(dealt, Filter::AliveMafia);
                let m = members.len();
                lemma_seats_where(dealt, Filter::AliveMafia);
                assert forall|j: int| 0 <= j < ds2.len() implies 0 <= #[trigger] ds2[j].0 < dealt.len() by {
                    assert(0 <= j / (m as int) < m) by (nonlinear_arith)
                        requires 0 <= j < m * m;
                }
                let k2 = first_gap(dealt, ds2);
                lemma_first_gap(dealt, ds2);
                lemma_sends_reach(dealt, ds2, k2);
                lemma_reach_concat(dealt, sends(ds1), sends(ds2.take(k2)));
                if k2 == ds2.len() {
                    assert(ds2.take(k2) =~= ds2);
                    lemma_reach_concat(dealt, sends(ds1), sends(ds2));
                }
                lemma_reach_transfer(g.seats, dealt, step(g, reply, roles).1.effects);
            }
        },
        StageView::Reading { readers, closing } => {
            if let ReplyView::Ballots(bs) = reply {
                if !closing {
                    match g.phase {
                        Phase::Vote | Phase::Kill => {
                            let open = g.phase == Phase::Vote;
                            let mode = if open { Record::OpenVote } else { Record::HiddenVote };
                            let g1 = MafiaView { seats: record_answers(g.seats, readers, bs, mode), ..g };
                            lemma_record_keeps(g.seats, readers, bs, mode);
                            assert(same_streams(g.seats, g1.seats));
                            let v = victim(g1, tally(bs, g.max_players, open));
                            match v {
                                Some(x) => {
                                    let g2 = after_kill(g1, x);
                                    assert(same_streams(g1.seats, g2.seats));
                                    lemma_after_vote_reach(g2, Some(x));
                                    assert(same_streams(g.seats, g2.seats));
                                    lemma_reach_transfer(g.seats, g2.seats, after_vote(g2, Some(x)).1.effects);
                                },
                                None => {
                                    lemma_after_vote_reach(g1, None);
                                    lemma_reach_transfer(g.seats, g1.seats, after_vote(g1, None).1.effects);
                                },
                            }
                        },
                        _ => {},
                    }
                }
            }
        },
    }
}

/// Two tables whose seats hold the same players.
pub open spec fn same_players(a: Seq<SeatView>, b: Seq<SeatView>) -> bool {
    &&& a.len() == b.len()
    &&& forall|i: int| 0 <= i < a.len() ==> #[trigger] a[i].player == b[i].player
}

/// A seat keeps its player, role and number, and the dead stay dead.
pub open spec fn keeps_identity(a: SeatView, b: SeatView) -> bool {
    &&& (a.player is Some) == (b.player is Some)
    &&& a.player matches Some(p) ==> b.player->0.role == p.role && b.player->0.id == p.id
    &&& !crate::model::alive(a) ==> !crate::model::alive(b)
}

pub open spec fn dies(a: SeatView, b: SeatView) -> bool {
    crate::model::alive(a) && !crate::model::alive(b)
}

proof fn lemma_prompt_players(g: MafiaView, targets: Seq<int>, ds: Seq<Delivery>)
    requires
        forall|j: int| 0 <= j < ds.len() ==> 0 <= #[trigger] ds[j].0 < g.seats.len(),
    ensures
        same_players(g.seats, prompt_then_read(g, targets, ds).0.seats),
{
    lemma_first_gap(g.seats, ds);
}

proof fn lemma_after_vote_players(g: MafiaView, v: Option<int>)
    requires
        v matches Some(x) ==> 0 <= x < g.seats.len(),
    ensures
        same_players(g.seats, after_vote(g, v).0.seats),
{
    let ds = match v {
        Some(x) => {
            let msg = "Info, "@ + crate::model::seat_text(g.seats[x]);
            seats_where(g.seats, Filter::Alive).map_values(|i: int| (i, msg))
        },
        None => Seq::empty(),
    };
    lemma_seats_where(g.seats, Filter::Alive);
    assert forall|j: int| 0 <= j < ds.len() implies 0 <= #[trigger] ds[j].0 < g.seats.len() by {
    }
    lemma_first_gap(g.seats, ds);
}

/// Past the deal, every seat keeps its player, role and number, the dead
/// stay dead, and at most one player dies in a step.
pub proof fn law_lives(g: MafiaView, reply: ReplyView, roles: Seq<Role>)
    requires
        wf(g),
        reply_fits(g, reply),
        g.phase != Phase::Start,
    ensures
        ({
            let post = step(g, reply, roles).0;
            &&& post.seats.len() == g.seats.len()
            &&& forall|i: int| 0 <= i < g.seats.len() ==> keeps_identity(g.seats[i], #[trigger] post.seats[i])
            &&& forall|i: int, j: int|
                0 <= i < g.seats.len() && 0 <= j < g.seats.len() && dies(g.seats[i], #[trigger] post.seats[i])
                    && dies(g.seats[j], #[trigger] post.seats[j]) ==> i == j
        }),
{
    let post = step(g, reply, roles).0;
    match g.stage {
        StageView::Idle => {
            match g.phase {
                Phase::Detect => {
                    let dets = seats_where(g.seats, Filter::AliveDetective);
                    lemma_seats_where(g.seats, Filter::AliveDetective);
                    if dets.len() > 0 {
                        let targets = seq![dets[0]];
                        lemma_prompt_players(g, targets, action_deliveries(g.seats, targets, crate::model::game_text(g)));
                    }
                },
                Phase::PreVote | Phase::Vote => {
                    lemma_action_in_range(g.seats, Filter::Alive, crate::model::game_text(g));
                    let targets = seats_where(g.seats, Filter::Alive);
                    lemma_prompt_players(g, targets, action_deliveries(g.seats, targets, crate::model::game_text(g)));
                },
                Phase::PreKill | Phase::Kill => {
                    lemma_action_in_range(g.seats, Filter::AliveMafia, crate::model::private_game_text(g));
                    let targets = seats_where(g.seats, Filter::AliveMafia);
                    lemma_prompt_players(g, targets, action_deliveries(g.seats, targets, crate::model::private_game_text(g)));
                },
                _ => {},
            }
            assert(same_players(g.seats, post.seats));
        },
        StageView::Checking { seat, second } => {},
        StageView::Assigning => {},
        StageView::Reading { readers, closing } => {
            if let ReplyView::Ballots(bs) = reply {
                if closing {
                    assert(same_players(g.seats, post.seats));
                } else {
                    match g.phase {
                        Phase::Detect => {
                            assert(same_players(g.seats, post.seats));
                        },
                        Phase::PreVote => {
                            lemma_record_keeps(g.seats, readers, bs, Record::Open);
                        },
                        Phase::PreKill => {
                            lemma_record_keeps(g.seats, readers, bs, Record::Hidden);
                        },
                        _ => {
                            let open = g.phase == Phase::Vote;
                            let mode = if open { Record::OpenVote } else { Record::HiddenVote };
                            let g1 = MafiaView { seats: record_answers(g.seats, readers, bs, mode), ..g };
                            lemma_record_keeps(g.seats, readers, bs, mode);
                            let v = victim(g1, tally(bs, g.max_players, open));
                            match v {
                                Some(x) => {
                                    let g2 = after_kill(g1, x);
                                    lemma_after_vote_players(g2, Some(x));
                                    assert forall|i: int| 0 <= i < g.seats.len() implies keeps_identity(g.seats[i], #[trigger] post.seats[i]) by {
                                        assert(post.seats[i].player == g2.seats[i].player);
                                    }
                                    assert forall|i: int| 0 <= i < g.seats.len() && dies(g.seats[i], #[trigger] post.seats[i]) implies i == x by {
                                        assert(post.seats[i].player == g2.seats[i].player);
                                    }
                                },
                                None => {
                                    lemma_after_vote_players(g1, None);
                                    assert forall|i: int| 0 <= i < g.seats.len() implies keeps_identity(g.seats[i], #[trigger] post.seats[i]) by {
                                        assert(post.seats[i].player == g1.seats[i].player);
                                    }
                                    assert forall|i: int| 0 <= i < g.seats.len() implies !dies(g.seats[i], #[trigger] post.seats[i]) by {
                                        assert(post.seats[i].player == g1.seats[i].player);
                                    }
                                },
                            }
                        },
                    }
                }
            }
        },
    }
}

/// The living members of one side: the Mafia (`mafia`) or everyone else.
pub open spec fn living(seats: Seq<SeatView>, mafia: bool) -> nat
    decreases seats.len(),
{
    if seats.len() == 0 {
        0
    } else {
        living(seats.drop_last(), mafia) + if alive(seats.last()) && ((seat_role(seats.last())
            == Role::Mafia) == mafia) {
            1nat
        } else {
            0nat
        }
    }
}

/// The counters of the game equal the living members of each side.
pub open spec fn counts_match(g: MafiaView) -> bool {
    g.mafia_left == living(g.seats, true) && g.innocent_left == living(g.seats, false)
}

pub open spec fn in_play(p: Phase) -> bool {
    p == Phase::Detect || p == Phase::PreVote || p == Phase::Vote || p == Phase::PreKill || p
        == Phase::Kill
}

/// While the table waits, the counters are those of a new game; once play
/// has begun, they equal the living members of each side.
pub open spec fn counters_hold(g: MafiaView) -> bool {
    &&& g.phase == Phase::Start ==> g.mafia_left == g.max_players / 4 && g.innocent_left
        == g.max_players - g.max_players / 4
    &&& in_play(g.phase) ==> counts_match(g)
}

proof fn lemma_living_same(a: Seq<SeatView>, b: Seq<SeatView>)
    requires
        a.len() == b.len(),
        forall|i: int| 0 <= i < a.len() ==> alive(#[trigger] a[i]) == alive(b[i]) && seat_role(a[i])
            == seat_role(b[i]),
    ensures
        living(a, true) == living(b, true),
        living(a, false) == living(b, false),
    decreases a.len(),
{
    if a.len() > 0 {
        lemma_living_same(a.drop_last(), b.drop_last());
    }
}

proof fn lemma_living_kill(a: Seq<SeatView>, v: int)
    requires
        0 <= v < a.len(),
        alive(a[v]),
    ensures
        ({
            let b = a.update(v, crate::model::killed(a[v]));
            let m = seat_role(a[v]) == Role::Mafia;
            &&& living(b, m) + 1 == living(a, m)
            &&& living(b, !m) == living(a, !m)
        }),
    decreases a.len(),
{
    let b = a.update(v, crate::model::killed(a[v]));
    if v < a.len() - 1 {
        assert(b.drop_last() =~= a.drop_last().update(v, crate::model::killed(a[v])));
        lemma_living_kill(a.drop_last(), v);
    } else {
        assert(b.drop_last() =~= a.drop_last());
    }
}

/// On a table whose counters hold, the side of a living player always has a
/// member left to lose.
pub proof fn law_counts_cover_the_living(g: MafiaView, v: int)
    requires
        counts_match(g),
        0 <= v < g.seats.len(),
        alive(g.seats[v]),
    ensures
        seat_role(g.seats[v]) == Role::Mafia ==> g.mafia_left > 0,
        seat_role(g.seats[v]) != Role::Mafia ==> g.innocent_left > 0,
{
    lemma_living_kill(g.seats, v);
}

proof fn lemma_vote_counts(g1: MafiaView, v: Option<int>)
    requires
        counts_match(g1),
        v matches Some(x) ==> 0 <= x < g1.seats.len() && alive(g1.seats[x]),
    ensures
        ({
            let g2 = match v {
                Some(x) => after_kill(g1, x),
                None => g1,
            };
            let post = after_vote(g2, v).0;
            counts_match(post)
        }),
{
    let g2 = match v {
        Some(x) => after_kill(g1, x),
        None => g1,
    };
    if let Some(x) = v {
        lemma_living_kill(g1.seats, x);
    }
    lemma_after_vote_players(g2, v);
    let post = after_vote(g2, v).0;
    assert forall|i: int| 0 <= i < g2.seats.len() implies alive(#[trigger] g2.seats[i]) == alive(post.seats[i])
        && seat_role(g2.seats[i]) == seat_role(post.seats[i]) by {
        assert(g2.seats[i].player == post.seats[i].player);
    }
    lemma_living_same(g2.seats, post.seats);
}

/// Counting the roles of a sequence.
pub open spec fn role_count(rs: Seq<Role>, mafia: bool) -> nat
    decreases rs.len(),
{
    if rs.len() == 0 {
        0
    } else {
        role_count(rs.drop_last(), mafia) + if (rs.last() == Role::Mafia) == mafia {
            1nat
        } else {
            0nat
        }
    }
}

proof fn lemma_role_count_multiset(rs: Seq<Role>)
    ensures
        role_count(rs, true) == rs.to_multiset().count(Role::Mafia),
        role_count(rs, false) == rs.to_multiset().count(Role::Detective) + rs.to_multiset().count(
            Role::Innocent,
        ),
    decreases rs.len(),
{
    broadcast use vstd::seq_lib::group_to_multiset_ensures;
    if rs.len() == 0 {
        assert(rs.to_multiset() =~= vstd::multiset::Multiset::empty());
    } else {
        lemma_role_count_multiset(rs.drop_last());
        assert(rs =~= rs.drop_last().push(rs.last()));
        assert(rs.to_multiset() =~= rs.drop_last().to_multiset().insert(rs.last()));
    }
}

proof fn lemma_role_count_concat(a: Seq<Role>, b: Seq<Role>, mafia: bool)
    ensures
        role_count(a + b, mafia) == role_count(a, mafia) + role_count(b, mafia),
    decreases b.len(),
{
    if b.len() == 0 {
        assert(a + b =~= a);
    } else {
        assert((a + b).drop_last() =~= a + b.drop_last());
        lemma_role_count_concat(a, b.drop_last(), mafia);
    }
}

proof fn lemma_role_count_const(k: nat, r: Role, mafia: bool)
    ensures
        role_count(Seq::new(k, |i: int| r), mafia) == if (r == Role::Mafia) == mafia { k } else { 0 },
    decreases k,
{
    if k > 0 {
        assert(Seq::new(k, |i: int| r).drop_last() =~= Seq::new((k - 1) as nat, |i: int| r));
        lemma_role_count_const((k - 1) as nat, r, mafia);
    }
}

proof fn lemma_role_vec_counts(mp: nat)
    ensures
        role_count(role_vec(mp), true) == mp / 4,
        mp >= 1 ==> role_count(role_vec(mp), false) == mp - mp / 4,
        mp >= 1 ==> role_vec(mp).len() == mp,
{
    let mafia = mp / 4;
    let innocents = if mp > 1 + mafia { mp - 1 - mafia } else { 0 };
    let a = seq![Role::Detective];
    let b = Seq::new(mafia, |i: int| Role::Mafia);
    let c = Seq::new(innocents as nat, |i: int| Role::Innocent);
    assert(role_vec(mp) == a + b + c);
    lemma_role_count_concat(a + b, c, true);
    lemma_role_count_concat(a, b, true);
    lemma_role_count_concat(a + b, c, false);
    lemma_role_count_concat(a, b, false);
    lemma_role_count_const(mafia, Role::Mafia, true);
    lemma_role_count_const(mafia, Role::Mafia, false);
    lemma_role_count_const(innocents as nat, Role::Innocent, true);
    lemma_role_count_const(innocents as nat, Role::Innocent, false);
    assert(role_count(a, true) == 0) by {
        assert(a.drop_last() =~= Seq::<Role>::empty());
        assert(role_count(a.drop_last(), true) == 0);
        assert(a.last() == Role::Detective);
    }
    assert(role_count(a, false) == 1) by {
        assert(a.drop_last() =~= Seq::<Role>::empty());
        assert(role_count(a.drop_last(), false) == 0);
        assert(a.last() == Role::Detective);
    }
}

/// The seats of a full deal count the roles dealt, taken from the back.
proof fn lemma_living_dealt(seats: Seq<SeatView>, roles: Seq<Role>, mp: nat, k: int)
    requires
        seats.len() == roles.len(),
        0 <= k <= seats.len(),
    ensures
        living(deal_seats(seats, roles, seats.len() as int, mp).take(k), true) == role_count(
            roles.reverse().take(k),
            true,
        ),
        living(deal_seats(seats, roles, seats.len() as int, mp).take(k), false) == role_count(
            roles.reverse().take(k),
            false,
        ),
    decreases k,
{
    let d = deal_seats(seats, roles, seats.len() as int, mp);
    if k > 0 {
        lemma_living_dealt(seats, roles, mp, k - 1);
        assert(d.take(k).drop_last() =~= d.take(k - 1));
        assert(roles.reverse().take(k).drop_last() =~= roles.reverse().take(k - 1));
        assert(seat_role(d[k - 1]) == roles.reverse()[k - 1]);
    }
}

/// The counters of a full table hold through every step: a new game counts
/// a quarter of the seats as Mafia and the rest as town, and once the roles
/// are dealt every death takes one from the side of the dead.
pub proof fn law_counters(g: MafiaView, reply: ReplyView, roles: Seq<Role>)
    requires
        wf(g),
        reply_fits(g, reply),
        g.seats.len() == g.max_players,
        is_shuffle(roles, g.max_players),
        counters_hold(g),
    ensures
        counters_hold(step(g, reply, roles).0),
{
    let post = step(g, reply, roles).0;
    match g.stage {
        StageView::Idle => {
            match g.phase {
                Phase::Detect => {
                    let dets = seats_where(g.seats, Filter::AliveDetective);
                    lemma_seats_where(g.seats, Filter::AliveDetective);
                    if dets.len() > 0 {
                        let targets = seq![dets[0]];
                        lemma_prompt_players(g, targets, action_deliveries(g.seats, targets, crate::model::game_text(g)));
                    }
                },
                Phase::PreVote | Phase::Vote => {
                    lemma_action_in_range(g.seats, Filter::Alive, crate::model::game_text(g));
                    let targets = seats_where(g.seats, Filter::Alive);
                    lemma_prompt_players(g, targets, action_deliveries(g.seats, targets, crate::model::game_text(g)));
                },
                Phase::PreKill | Phase::Kill => {
                    lemma_action_in_range(g.seats, Filter::AliveMafia, crate::model::private_game_text(g));
                    let targets = seats_where(g.seats, Filter::AliveMafia);
                    lemma_prompt_players(g, targets, action_deliveries(g.seats, targets, crate::model::private_game_text(g)));
                },
                _ => {},
            }
            if in_play(post.phase) {
                assert(same_players(g.seats, post.seats));
                assert forall|i: int| 0 <= i < g.seats.len() implies alive(#[trigger] g.seats[i]) == alive(post.seats[i])
                    && seat_role(g.seats[i]) == seat_role(post.seats[i]) by {
                    assert(g.seats[i].player == post.seats[i].player);
                }
                lemma_living_same(g.seats, post.seats);
            }
        },
        StageView::Checking { seat, second } => {},
        StageView::Assigning => {
            let mp = g.max_players;
            let n = g.seats.len() as int;
            if post.phase == Phase::Detect {
                let dealt = deal_seats(g.seats, roles, n, mp);
                assert(post.seats == dealt);
                lemma_role_vec_counts(mp);
                if mp == 0 {
                    assert(dealt.len() == 0);
                } else {
                    broadcast use vstd::seq_lib::group_to_multiset_ensures;
                    assert(roles.len() == roles.to_multiset().len());
                    assert(role_vec(mp).len() == role_vec(mp).to_multiset().len());
                    lemma_living_dealt(g.seats, roles, mp, n);
                    assert(dealt.take(n) =~= dealt);
                    assert(roles.reverse().take(n) =~= roles.reverse());
                    roles.lemma_reverse_to_multiset();
                    lemma_role_count_multiset(roles.reverse());
                    lemma_role_count_multiset(role_vec(mp));
                }
            }
        },
        StageView::Reading { readers, closing } => {
            if let ReplyView::Ballots(bs) = reply {
                if !closing {
                    match g.phase {
                        Phase::Detect => {
                            assert(same_players(g.seats, post.seats));
                            assert forall|i: int| 0 <= i < g.seats.len() implies alive(#[trigger] g.seats[i]) == alive(post.seats[i])
                                && seat_role(g.seats[i]) == seat_role(post.seats[i]) by {
                                assert(g.seats[i].player == post.seats[i].player);
                            }
                            lemma_living_same(g.seats, post.seats);
                        },
                        Phase::PreVote => {
                            lemma_record_keeps(g.seats, readers, bs, Record::Open);
                            lemma_living_same(g.seats, post.seats);
                        },
                        Phase::PreKill => {
                            lemma_record_keeps(g.seats, readers, bs, Record::Hidden);
                            lemma_living_same(g.seats, post.seats);
                        },
                        _ => {
                            let open = g.phase == Phase::Vote;
                            let mode = if open { Record::OpenVote } else { Record::HiddenVote };
                            let g1 = MafiaView { seats: record_answers(g.seats, readers, bs, mode), ..g };
                            lemma_record_keeps(g.seats, readers, bs, mode);
                            lemma_living_same(g.seats, g1.seats);
                            let v = victim(g1, tally(bs, g.max_players, open));
                            lemma_vote_counts(g1, v);
                        },
                    }
                }
            }
        },
    }
}

/// Play goes on past a resolved vote only while the Mafia still has members
/// and is outnumbered, and past a night only before day 100.
pub proof fn law_game_goes_on(g: MafiaView, reply: ReplyView, roles: Seq<Role>)
    requires
        wf(g),
        reply_fits(g, reply),
    ensures
        ({
            let post = step(g, reply, roles).0;
            &&& (g.phase == Phase::Vote && post.phase == Phase::PreKill) ==> 0 < post.mafia_left
                < post.innocent_left
            &&& (g.phase == Phase::Kill && post.phase == Phase::Detect) ==> 0 < post.mafia_left
                < post.innocent_left && g.day < 100
        }),
{
}

/// A seat that passed both checks of the start is connected, unless the
/// second check found it broken.
pub open spec fn passed(s: SeatView) -> bool {
    s.socket == SocketStatus::Connected || s.socket == SocketStatus::ConnectionError
}

/// During the checks of the start, every seat already checked has passed;
/// when the roles are dealt, every seat has.
pub open spec fn checked_so_far(g: MafiaView) -> bool {
    match g.stage {
        StageView::Checking { seat, second } => forall|i: int| 0 <= i < seat ==> passed(#[trigger] g.seats[i]),
        StageView::Assigning => forall|i: int| 0 <= i < g.seats.len() ==> passed(#[trigger] g.seats[i]),
        _ => true,
    }
}

/// Roles are dealt only at a table whose every seat passed its checks: the
/// checks go seat by seat, and a round stops at the first seat found not yet
/// connected.
pub proof fn law_deal_after_checks(g: MafiaView, reply: ReplyView, roles: Seq<Role>)
    requires
        wf(g),
        reply_fits(g, reply),
        checked_so_far(g),
    ensures
        checked_so_far(step(g, reply, roles).0),
{
}

/// Cutting a queue into tables loses, repeats and reorders no player: the
/// tables one after the other, then the players left waiting, are the queue
/// itself; every table holds exactly `k` players, and fewer than `k` wait.
pub proof fn law_tables_keep_the_queue<X>(queue: Seq<X>, k: nat)
    requires
        k > 0,
    ensures
        tables_of(queue, k).flatten() + left_waiting(queue, k) == queue,
        forall|j: int| 0 <= j < tables_of(queue, k).len() ==> (#[trigger] tables_of(queue, k)[j]).len() == k,
        left_waiting(queue, k).len() < k,
    decreases queue.len(),
{
    if queue.len() < k {
        assert(tables_of(queue, k).flatten() =~= Seq::<X>::empty());
        assert(Seq::<X>::empty() + queue =~= queue);
    } else {
        let rest = queue.skip(k as int);
        law_tables_keep_the_queue(rest, k);
        let t = tables_of(queue, k);
        assert(t.first() == queue.take(k as int));
        assert(t.drop_first() =~= tables_of(rest, k));
        assert(t.flatten() == queue.take(k as int) + tables_of(rest, k).flatten());
        assert(queue =~= queue.take(k as int) + (tables_of(rest, k).flatten() + left_waiting(rest, k)));
        assert forall|j: int| 0 <= j < t.len() implies (#[trigger] t[j]).len() == k by {
            if j > 0 {
                assert(t[j] == tables_of(rest, k)[j - 1]);
            }
        }
    }
}

/// Players who arrive in two batches are seated as if they had arrived in
/// one: the tables of the whole queue are those of the first part, then
/// those that the players still waiting fill with the second part.
pub proof fn law_batches_chain<X>(first: Seq<X>, second: Seq<X>, k: nat)
    requires
        k > 0,
    ensures
        tables_of(first + second, k) == tables_of(first, k) + tables_of(left_waiting(first, k) + second, k),
        left_waiting(first + second, k) == left_waiting(left_waiting(first, k) + second, k),
    decreases first.len(),
{
    if first.len() < k {
        assert(tables_of(first, k) + tables_of(first + second, k) =~= tables_of(first + second, k));
    } else {
        let rest = first.skip(k as int);
        law_batches_chain(rest, second, k);
        assert((first + second).take(k as int) =~= first.take(k as int));
        assert((first + second).skip(k as int) =~= rest + second);
        assert(tables_of(first + second, k) =~= tables_of(first, k) + tables_of(
            left_waiting(first, k) + second,
            k,
        ));
    }
}

/// The game waits for the answers to its last message before it ends.
pub open spec fn closing(g: MafiaView) -> bool {
    match g.stage {
        StageView::Reading { readers, closing } => closing,
        _ => false,
    }
}

/// Whether the count of each side ends the game.
pub open spec fn sides_decide(g: MafiaView) -> bool {
    g.mafia_left == 0 || g.mafia_left >= g.innocent_left
}

/// A round whose answers came in moves the game on: detection to the first
/// half of the vote, each first half to its second, the day vote to the
/// night (or, when the sides decide it, to the end), and the night to the
/// next day's detection (or, when the sides decide it or day 100 is over,
/// to the end). A round that cannot deliver a message ends the game at
/// once; the last answers of a decided game end it.
pub proof fn law_rounds_move_on(g: MafiaView, reply: ReplyView, roles: Seq<Role>)
    requires
        wf(g),
        reply_fits(g, reply),
        g.stage is Reading,
        reply is Ballots,
    ensures
        ({
            let post = step(g, reply, roles).0;
            &&& closing(g) ==> post.phase == Phase::End
            &&& !closing(g) && g.phase == Phase::Detect ==> post.phase == Phase::PreVote
                || post.phase == Phase::End
            &&& !closing(g) && g.phase == Phase::PreVote ==> post.phase == Phase::Vote
            &&& !closing(g) && g.phase == Phase::PreKill ==> post.phase == Phase::Kill
            &&& !closing(g) && g.phase == Phase::Vote ==> {
                ||| post.phase == Phase::End
                ||| post.phase == Phase::Vote && closing(post) && sides_decide(post)
                ||| post.phase == Phase::PreKill && !sides_decide(post)
            }
            &&& !closing(g) && g.phase == Phase::Kill ==> {
                ||| post.phase == Phase::End
                ||| post.phase == Phase::Kill && closing(post) && (sides_decide(post) || g.day
                    >= 100)
                ||| post.phase == Phase::Detect && !sides_decide(post) && g.day < 100
                    && post.day == g.day + 1
            }
            &&& post.phase != Phase::Kill || g.phase != Phase::Kill || post.day == g.day
        }),
{
}

/// The rounds left at most before the game is over, counting the last
/// exchange of a decided game: five a day (detection, the two halves of the
/// day vote, the two halves of the night) until the night of day 100.
pub open spec fn rounds_left(g: MafiaView) -> int {
    let d = g.day as int;
    if closing(g) {
        1
    } else {
        match g.phase {
            Phase::End | Phase::Error => 0,
            Phase::Start => 5 * (101 - d) + 2,
            Phase::Detect => 5 * (101 - d) + 1,
            Phase::PreVote => 5 * (101 - d),
            Phase::Vote => 5 * (101 - d) - 1,
            Phase::PreKill => 5 * (101 - d) - 2,
            Phase::Kill => 5 * (101 - d) - 3,
        }
    }
}

/// Play runs down: no step adds to the rounds left, every change of phase
/// and every answered round takes at least one away, and none are left
/// exactly when the game is over. So a game at detection on day `d` is over
/// after at most `5 * (101 - d) + 1` answered rounds.
pub proof fn law_rounds_run_down(g: MafiaView, reply: ReplyView, roles: Seq<Role>)
    requires
        wf(g),
        reply_fits(g, reply),
        g.day <= 100,
    ensures
        ({
            let post = step(g, reply, roles).0;
            &&& 0 <= rounds_left(post) <= rounds_left(g)
            &&& post.phase != g.phase ==> rounds_left(post) < rounds_left(g)
            &&& (g.stage is Reading && reply is Ballots) ==> rounds_left(post) < rounds_left(g)
            &&& (rounds_left(post) == 0) == (post.phase == Phase::End || post.phase
                == Phase::Error)
        }),
{
    law_days(g, reply, roles);
    law_phase_order(g, reply, roles);
    if g.stage is Reading && reply is Ballots {
        law_rounds_move_on(g, reply, roles);
    }
}

/// Once play has begun, the counters follow the living through every later
/// step, the end of the game included: each equals the living members of
/// its side, neither ever grows, and together they fall by at most one in a
/// step. (The dead stay dead: see [`law_lives`].)
pub proof fn law_counts_follow_the_living(g: MafiaView, reply: ReplyView, roles: Seq<Role>)
    requires
        wf(g),
        reply_fits(g, reply),
        g.phase != Phase::Start,
        counts_match(g),
    ensures
        ({
            let post = step(g, reply, roles).0;
            &&& counts_match(post)
            &&& post.mafia_left <= g.mafia_left
            &&& post.innocent_left <= g.innocent_left
            &&& g.mafia_left + g.innocent_left <= post.mafia_left + post.innocent_left + 1
        }),
{
    let post = step(g, reply, roles).0;
    if g.phase == Phase::End || g.phase == Phase::Error {
        law_finished_games_rest(g, reply, roles);
        return;
    }
    match g.stage {
        StageView::Idle => {
            match g.phase {
                Phase::Detect => {
                    let dets = seats_where(g.seats, Filter::AliveDetective);
                    lemma_seats_where(g.seats, Filter::AliveDetective);
                    if dets.len() > 0 {
                        let targets = seq![dets[0]];
                        lemma_prompt_players(g, targets, action_deliveries(g.seats, targets, crate::model::game_text(g)));
                    }
                },
                Phase::PreVote | Phase::Vote => {
                    lemma_action_in_range(g.seats, Filter::Alive, crate::model::game_text(g));
                    let targets = seats_where(g.seats, Filter::Alive);
                    lemma_prompt_players(g, targets, action_deliveries(g.seats, targets, crate::model::game_text(g)));
                },
                _ => {
                    lemma_action_in_range(g.seats, Filter::AliveMafia, crate::model::private_game_text(g));
                    let targets = seats_where(g.seats, Filter::AliveMafia);
                    lemma_prompt_players(g, targets, action_deliveries(g.seats, targets, crate::model::private_game_text(g)));
                },
            }
            assert(same_players(g.seats, post.seats));
            assert forall|i: int| 0 <= i < g.seats.len() implies alive(#[trigger] g.seats[i]) == alive(post.seats[i])
                && seat_role(g.seats[i]) == seat_role(post.seats[i]) by {
                assert(g.seats[i].player == post.seats[i].player);
            }
            lemma_living_same(g.seats, post.seats);
        },
        StageView::Checking { seat, second } => {},
        StageView::Assigning => {},
        StageView::Reading { readers, closing } => {
            if let ReplyView::Ballots(bs) = reply {
                if closing {
                    assert forall|i: int| 0 <= i < g.seats.len() implies alive(#[trigger] g.seats[i]) == alive(post.seats[i])
                        && seat_role(g.seats[i]) == seat_role(post.seats[i]) by {
                        assert(g.seats[i].player == post.seats[i].player);
                    }
                    lemma_living_same(g.seats, post.seats);
                } else {
                    match g.phase {
                        Phase::Detect => {
                            assert(same_players(g.seats, post.seats));
                            assert forall|i: int| 0 <= i < g.seats.len() implies alive(#[trigger] g.seats[i]) == alive(post.seats[i])
                                && seat_role(g.seats[i]) == seat_role(post.seats[i]) by {
                                assert(g.seats[i].player == post.seats[i].player);
                            }
                            lemma_living_same(g.seats, post.seats);
                        },
                        Phase::PreVote => {
                            lemma_record_keeps(g.seats, readers, bs, Record::Open);
                            lemma_living_same(g.seats, post.seats);
                        },
                        Phase::PreKill => {
                            lemma_record_keeps(g.seats, readers, bs, Record::Hidden);
                            lemma_living_same(g.seats, post.seats);
                        },
                        _ => {
                            let open = g.phase == Phase::Vote;
                            let mode = if open { Record::OpenVote } else { Record::HiddenVote };
                            let g1 = MafiaView { seats: record_answers(g.seats, readers, bs, mode), ..g };
                            lemma_record_keeps(g.seats, readers, bs, mode);
                            lemma_living_same(g.seats, g1.seats);
                            let v = victim(g1, tally(bs, g.max_players, open));
                            lemma_vote_counts(g1, v);
                        },
                    }
                }
            }
        },
    }
}

/// In detection, the one seat asked is the living Detective.
pub open spec fn detective_asked(g: MafiaView) -> bool {
    match g.stage {
        StageView::Reading { readers, closing } => g.phase == Phase::Detect && !closing
            ==> readers.len() == 1 && crate::model::alive_detective(g.seats[readers[0]]),
        _ => true,
    }
}

/// Only the living Detective is ever asked in detection.
pub proof fn law_detective_asked(g: MafiaView, reply: ReplyView, roles: Seq<Role>)
    requires
        wf(g),
        reply_fits(g, reply),
        detective_asked(g),
    ensures
        detective_asked(step(g, reply, roles).0),
{
    if g.stage == StageView::Idle && g.phase == Phase::Detect {
        let dets = seats_where(g.seats, Filter::AliveDetective);
        lemma_seats_where(g.seats, Filter::AliveDetective);
        if dets.len() > 0 {
            let targets = seq![dets[0]];
            let ds = action_deliveries(g.seats, targets, crate::model::game_text(g));
            lemma_first_gap(g.seats, ds);
        }
    }
}

/// What a seat outside the Mafia may be told in a step from `g` to `post`:
/// the public state of the game with its own player; its own player as
/// dealt; a player who is no longer alive; and, for the Detective asked in
/// detection, the player its answer points at.
pub open spec fn may_tell(g: MafiaView, post: MafiaView, reply: ReplyView, q: int, text: Seq<char>) -> bool {
    ||| text == "Action, "@ + crate::model::seat_text(g.seats[q]) + ", "@ + crate::model::game_text(g)
    ||| text == "Start, "@ + crate::model::seat_text(post.seats[q]) + ", "@ + crate::text::decimal(
        g.max_players,
    )
    ||| exists|t: int|
        0 <= t < post.seats.len() && !alive(post.seats[t]) && text == "Info, "@
            + crate::model::seat_text(#[trigger] post.seats[t])
    ||| (g.phase == Phase::Detect && crate::model::alive_detective(g.seats[q]) && match reply {
        ReplyView::Ballots(bs) => match crate::tally::top_of(bs[0]) {
            Some(t) => text == "Info, "@ + crate::model::seat_text(g.seats[t]),
            None => false,
        },
        _ => false,
    })
}

/// A message is to a member of the Mafia, or says only what its seat may
/// be told.
pub open spec fn harmless(g: MafiaView, post: MafiaView, reply: ReplyView, d: Delivery) -> bool {
    ||| 0 <= d.0 < post.seats.len() && seat_role(post.seats[d.0]) == Role::Mafia
    ||| may_tell(g, post, reply, d.0, d.1)
}

/// Every message of `effects` is harmless.
pub open spec fn told_nothing_secret(g: MafiaView, post: MafiaView, reply: ReplyView, effects: Seq<
    EffectView,
>) -> bool {
    forall|j: int|
        0 <= j < effects.len() ==> match #[trigger] effects[j] {
            EffectView::Send { to, text } => harmless(g, post, reply, (to, text)),
            EffectView::Close { seat } => true,
        }
}

proof fn lemma_harmless_sends(g: MafiaView, post: MafiaView, reply: ReplyView, ds: Seq<Delivery>, k: int)
    requires
        0 <= k <= ds.len(),
        forall|j: int| 0 <= j < ds.len() ==> harmless(g, post, reply, #[trigger] ds[j]),
    ensures
        told_nothing_secret(g, post, reply, sends(ds.take(k))),
{
    assert forall|j: int| 0 <= j < sends(ds.take(k)).len() implies match #[trigger] sends(ds.take(k))[j] {
        EffectView::Send { to, text } => harmless(g, post, reply, (to, text)),
        EffectView::Close { seat } => true,
    } by {
        assert(ds.take(k)[j] == ds[j]);
        assert((ds[j].0, ds[j].1) == ds[j]);
    }
}

proof fn lemma_harmless_concat(g: MafiaView, post: MafiaView, reply: ReplyView, a: Seq<EffectView>, b: Seq<EffectView>)
    requires
        told_nothing_secret(g, post, reply, a),
        told_nothing_secret(g, post, reply, b),
    ensures
        told_nothing_secret(g, post, reply, a + b),
{
    assert forall|j: int| 0 <= j < (a + b).len() implies match #[trigger] (a + b)[j] {
        EffectView::Send { to, text } => harmless(g, post, reply, (to, text)),
        EffectView::Close { seat } => true,
    } by {
        if j < a.len() {
            assert((a + b)[j] == a[j]);
        } else {
            assert((a + b)[j] == b[j - a.len()]);
        }
    }
}

/// Secrets stay with the Mafia until the game is decided: every message a
/// step sends to a seat outside the Mafia carries the public state of the
/// game with the seat's own player, the seat's own player as dealt, a
/// player who is no longer alive, or, for the Detective asked in
/// detection, the one player its answer points at. The hidden state of the
/// game (the night's guesses) and the roles of the living go to nobody
/// else. Only the last message of a decided game tells everyone everything.
pub proof fn law_secrets_kept(g: MafiaView, reply: ReplyView, roles: Seq<Role>)
    requires
        wf(g),
        reply_fits(g, reply),
        detective_asked(g),
        !closing(step(g, reply, roles).0),
    ensures
        told_nothing_secret(g, step(g, reply, roles).0, reply, step(g, reply, roles).1.effects),
{
    let post = step(g, reply, roles).0;
    let effects = step(g, reply, roles).1.effects;
    match g.stage {
        StageView::Idle => {
            match g.phase {
                Phase::Detect | Phase::PreVote | Phase::Vote => {
                    let f = if g.phase == Phase::Detect { Filter::AliveDetective } else { Filter::Alive };
                    let all = seats_where(g.seats, f);
                    lemma_seats_where(g.seats, f);
                    let targets = if g.phase == Phase::Detect { seq![all[0]] } else { all };
                    if g.phase != Phase::Detect || all.len() > 0 {
                        let ds = action_deliveries(g.seats, targets, crate::model::game_text(g));
                        lemma_first_gap(g.seats, ds);
                        let k = first_gap(g.seats, ds);
                        assert forall|j: int| 0 <= j < ds.len() implies harmless(g, post, reply, #[trigger] ds[j]) by {
                            assert(ds[j].0 == targets[j]);
                        }
                        lemma_harmless_sends(g, post, reply, ds, k);
                        if k == ds.len() {
                            assert(ds.take(k) =~= ds);
                        }
                    }
                },
                Phase::PreKill | Phase::Kill => {
                    let targets = seats_where(g.seats, Filter::AliveMafia);
                    lemma_seats_where(g.seats, Filter::AliveMafia);
                    let ds = action_deliveries(g.seats, targets, crate::model::private_game_text(g));
                    lemma_action_in_range(g.seats, Filter::AliveMafia, crate::model::private_game_text(g));
                    lemma_prompt_players(g, targets, ds);
                    lemma_first_gap(g.seats, ds);
                    let k = first_gap(g.seats, ds);
                    assert forall|j: int| 0 <= j < ds.len() implies harmless(g, post, reply, #[trigger] ds[j]) by {
                        assert(ds[j].0 == targets[j]);
                        assert(g.seats[targets[j]].player == post.seats[targets[j]].player);
                    }
                    lemma_harmless_sends(g, post, reply, ds, k);
                    if k == ds.len() {
                        assert(ds.take(k) =~= ds);
                    }
                },
                _ => {},
            }
        },
        StageView::Checking { seat, second } => {},
        StageView::Assigning => {
            let n = g.seats.len() as int;
            let mp = g.max_players;
            let dealt = deal_seats(g.seats, roles, n, mp);
            let ds1 = start_deliveries(dealt, mp);
            let k1 = first_gap(dealt, ds1);
            lemma_first_gap(dealt, ds1);
            if k1 < n {
                assert forall|j: int| 0 <= j < k1 implies harmless(g, post, reply, #[trigger] ds1.take(k1)[j]) by {
                    assert(post.seats[j].player == dealt[j].player);
                }
                lemma_harmless_sends(g, post, reply, ds1.take(k1), k1);
                assert(ds1.take(k1).take(k1) =~= ds1.take(k1));
            } else {
                let ds2 = mafia_deliveries(dealt);
                let members = seats_where(dealt, Filter::AliveMafia);
                let m = members.len();
                lemma_seats_where(dealt, Filter::AliveMafia);
                let k2 = first_gap(dealt, ds2);
                lemma_first_gap(dealt, ds2);
                if k2 < ds2.len() {
                    assert(0 <= k2 / (m as int) < m) by (nonlinear_arith)
                        requires 0 <= k2 < m * m;
                    let a = ds2[k2].0;
                    assert(0 <= a < dealt.len());
                    assert(post.seats == dealt.update(a, crate::model::broken(dealt[a])));
                } else {
                    assert(post.seats == dealt);
                }
                assert forall|j: int| 0 <= j < ds1.len() implies harmless(g, post, reply, #[trigger] ds1[j]) by {
                    assert(post.seats[j].player == dealt[j].player);
                }
                lemma_harmless_sends(g, post, reply, ds1, n);
                assert(ds1.take(n) =~= ds1);
                assert forall|j: int| 0 <= j < ds2.len() implies harmless(g, post, reply, #[trigger] ds2[j]) by {
                    assert(0 <= j / (m as int) < m) by (nonlinear_arith)
                        requires 0 <= j < m * m;
                    let t = members[j / (m as int)];
                    assert(ds2[j].0 == t);
                    assert(post.seats[t].player == dealt[t].player);
                }
                lemma_harmless_sends(g, post, reply, ds2, k2);
                if k2 == ds2.len() {
                    assert(ds2.take(k2) =~= ds2);
                }
                lemma_harmless_concat(g, post, reply, sends(ds1), sends(ds2.take(k2)));
                if k2 == ds2.len() {
                    lemma_harmless_concat(g, post, reply, sends(ds1), sends(ds2));
                }
            }
        },
        StageView::Reading { readers, closing } => {
            if let ReplyView::Ballots(bs) = reply {
                if !closing {
                    match g.phase {
                        Phase::Detect => {
                            assert(effects.len() <= 1);
                            if effects.len() == 1 {
                                assert(readers[0] == readers[0]);
                            }
                        },
                        Phase::Vote | Phase::Kill => {
                            let open = g.phase == Phase::Vote;
                            let mode = if open { Record::OpenVote } else { Record::HiddenVote };
                            let g1 = MafiaView { seats: record_answers(g.seats, readers, bs, mode), ..g };
                            lemma_record_keeps(g.seats, readers, bs, mode);
                            let v = victim(g1, tally(bs, g.max_players, open));
                            if let Some(x) = v {
                                let g2 = after_kill(g1, x);
                                let msg = "Info, "@ + crate::model::seat_text(g2.seats[x]);
                                let ds = seats_where(g2.seats, Filter::Alive).map_values(|i: int| (i, msg));
                                lemma_seats_where(g2.seats, Filter::Alive);
                                lemma_first_gap(g2.seats, ds);
                                let k = first_gap(g2.seats, ds);
                                assert(post.seats[x].player == g2.seats[x].player);
                                assert(!alive(post.seats[x]));
                                assert forall|j: int| 0 <= j < ds.len() implies harmless(g, post, reply, #[trigger] ds[j]) by {
                                    assert(ds[j].1 == "Info, "@ + crate::model::seat_text(post.seats[x]));
                                }
                                lemma_harmless_sends(g, post, reply, ds, k);
                                if k == ds.len() {
                                    assert(ds.take(k) =~= ds);
                                }
                            }
                        },
                        _ => {},
                    }
                }
            }
        },
    }
}

/// Every entry of an answer is a number (none is one that compares with
/// nothing).
pub open spec fn all_numbers(b: Seq<crate::player::GuessView>) -> bool {
    forall|j: int| 0 <= j < b.len() ==> (#[trigger] b[j]).key is Some
}

/// The number at position `j` of an answer.
pub open spec fn number_at(b: Seq<crate::player::GuessView>, j: int) -> int {
    b[j].key->0 as int
}

/// Position `t` holds the first largest number of the answer.
pub open spec fn first_largest(b: Seq<crate::player::GuessView>, t: int) -> bool {
    &&& 0 <= t < b.len()
    &&& forall|j: int| 0 <= j < b.len() ==> number_at(b, j) <= number_at(b, t)
    &&& forall|j: int| 0 <= j < t ==> number_at(b, j) < number_at(b, t)
}

/// An answer votes for `t` when its first largest number is at `t` (and,
/// where only positive votes count, that number is above zero).
pub open spec fn votes_for_seat(b: Seq<crate::player::GuessView>, t: int, positive_only: bool) -> bool {
    first_largest(b, t) && (!positive_only || number_at(b, t) > 0)
}

/// How many of the answers vote for `t`.
pub open spec fn votes_for(bs: Seq<Seq<crate::player::GuessView>>, t: int, positive_only: bool) -> nat
    decreases bs.len(),
{
    if bs.len() == 0 {
        0
    } else {
        votes_for(bs.drop_last(), t, positive_only) + if votes_for_seat(bs.last(), t, positive_only) {
            1nat
        } else {
            0nat
        }
    }
}

proof fn lemma_first_largest_unique(b: Seq<crate::player::GuessView>, t: int, u: int)
    requires
        first_largest(b, t),
        first_largest(b, u),
    ensures
        t == u,
{
    if t < u {
        assert(number_at(b, t) < number_at(b, u));
        assert(number_at(b, t) <= number_at(b, u));
        assert(number_at(b, u) <= number_at(b, t));
    } else if u < t {
        assert(number_at(b, u) < number_at(b, t));
        assert(number_at(b, t) <= number_at(b, u));
    }
}

/// The position an answer points at is its first largest number.
proof fn lemma_top_is_first_largest(b: Seq<crate::player::GuessView>)
    requires
        all_numbers(b),
        b.len() > 0,
    ensures
        crate::tally::top_of(b) matches Some(t) && first_largest(b, t),
    decreases b.len(),
{
    let d = b.drop_last();
    if d.len() > 0 {
        assert(all_numbers(d)) by {
            assert forall|j: int| 0 <= j < d.len() implies (#[trigger] d[j]).key is Some by {
                assert(d[j] == b[j]);
            }
        }
        lemma_top_is_first_largest(d);
        let p = crate::tally::top_of(d)->0;
        assert(b[p] == d[p]);
        assert(b.last() == b[b.len() - 1]);
        assert(b[b.len() - 1].key is Some);
        assert(b[p].key is Some);
        assert forall|j: int| 0 <= j < d.len() implies number_at(b, j) == number_at(d, j) by {
            assert(b[j] == d[j]);
        }
    } else {
        assert(b.len() == 1);
    }
}

proof fn lemma_votes_for_bound(bs: Seq<Seq<crate::player::GuessView>>, t: int, positive_only: bool)
    ensures
        votes_for(bs, t, positive_only) <= bs.len(),
    decreases bs.len(),
{
    if bs.len() > 0 {
        lemma_votes_for_bound(bs.drop_last(), t, positive_only);
    }
}

/// The votes are counted as the rules say: on a table of `n` positions,
/// each position gets one vote for every answer whose first largest number
/// stands there. In the day vote only answers whose largest number is above
/// zero count; at night every answer counts, whatever the sign of its
/// largest number; an empty answer never counts.
pub proof fn law_votes_counted(bs: Seq<Seq<crate::player::GuessView>>, n: nat, positive_only: bool)
    requires
        forall|j: int| 0 <= j < bs.len() ==> all_numbers(#[trigger] bs[j]),
        bs.len() <= usize::MAX,
    ensures
        tally(bs, n, positive_only).len() == n,
        forall|t: int| 0 <= t < n ==> #[trigger] tally(bs, n, positive_only)[t] == votes_for(bs, t, positive_only),
    decreases bs.len(),
{
    crate::model::lemma_tally_len(bs, n, positive_only);
    if bs.len() > 0 {
        let d = bs.drop_last();
        let b = bs.last();
        assert forall|j: int| 0 <= j < d.len() implies all_numbers(#[trigger] d[j]) by {
            assert(d[j] == bs[j]);
        }
        law_votes_counted(d, n, positive_only);
        assert(all_numbers(b)) by {
            assert(b == bs[bs.len() - 1]);
        }
        let c = tally(d, n, positive_only);
        if b.len() == 0 {
            crate::tally::lemma_top_in_range(b);
            assert forall|t: int| 0 <= t < n implies #[trigger] tally(bs, n, positive_only)[t] == votes_for(bs, t, positive_only) by {
                assert(!first_largest(b, t));
            }
        } else {
            lemma_top_is_first_largest(b);
            let u = crate::tally::top_of(b)->0;
            assert forall|t: int| 0 <= t < n implies #[trigger] tally(bs, n, positive_only)[t] == votes_for(bs, t, positive_only) by {
                if first_largest(b, t) {
                    lemma_first_largest_unique(b, t, u);
                }
                if t == u {
                    lemma_votes_for_bound(d, t, positive_only);
                    assert(b[u].key is Some);
                }
            }
        }
    }
}

/// A vote that carries kills its seat. In the day vote (every living player
/// answering, positive numbers only) and in the night vote (the living
/// Mafia, any number), take the seat with the most votes, the first one on a
/// tie. When it is alive and its votes are more than half the living (by
/// day), or at least half the living Mafia, rounded down (by night), that
/// player is dead after the step, and its side counts one member less.
pub proof fn law_carried_vote_kills(g: MafiaView, reply: ReplyView, roles: Seq<Role>, v: int)
    requires
        wf(g),
        reply_fits(g, reply),
        g.phase == Phase::Vote || g.phase == Phase::Kill,
        g.stage matches StageView::Reading { closing, .. } && !closing,
        reply matches ReplyView::Ballots(bs) && bs.len() <= usize::MAX && (forall|j: int|
            0 <= j < bs.len() ==> all_numbers(#[trigger] bs[j])) && {
            let day = g.phase == Phase::Vote;
            &&& 0 <= v < g.max_players
            &&& forall|u: int| 0 <= u < g.max_players ==> votes_for(bs, u, day) <= votes_for(bs, v, day)
            &&& forall|u: int| 0 <= u < v ==> votes_for(bs, u, day) < votes_for(bs, v, day)
            &&& if day {
                votes_for(bs, v, day) > (g.mafia_left + g.innocent_left) / 2
            } else {
                votes_for(bs, v, day) >= g.mafia_left / 2
            }
        },
        0 <= v < g.seats.len(),
        alive(g.seats[v]),
    ensures
        ({
            let post = step(g, reply, roles).0;
            &&& post.seats[v].player matches Some(p) && p.status == crate::player::Status::Dead
            &&& if seat_role(g.seats[v]) == Role::Mafia {
                post.mafia_left + 1 == g.mafia_left && post.innocent_left == g.innocent_left
            } else {
                post.innocent_left + 1 == g.innocent_left && post.mafia_left == g.mafia_left
            }
        }),
{
    let bs = reply->Ballots_0;
    let readers = g.stage->Reading_readers;
    let day = g.phase == Phase::Vote;
    let mode = if day { Record::OpenVote } else { Record::HiddenVote };
    let g1 = MafiaView { seats: record_answers(g.seats, readers, bs, mode), ..g };
    lemma_record_keeps(g.seats, readers, bs, mode);
    let votes = tally(bs, g.max_players, day);
    law_votes_counted(bs, g.max_players, day);
    assert(crate::tally::is_first_max(votes, v));
    crate::model::lemma_verdict(votes, v);
    assert(victim(g1, votes) == Some(v));
    let g2 = after_kill(g1, v);
    lemma_after_vote_players(g2, Some(v));
    let post = step(g, reply, roles).0;
    assert(post.seats[v].player == g2.seats[v].player);
}

/// The Detective learns whom it pointed at: in detection, a non-empty
/// answer (whatever the sign of its numbers) makes the step send the asked
/// seat exactly one message, `Info, ` and the full text of the player at
/// the answer's first largest number, and move on to the first half of the
/// vote; if that seat cannot be written to, the game ends instead.
pub proof fn law_detective_learns(g: MafiaView, reply: ReplyView, roles: Seq<Role>, t: int)
    requires
        wf(g),
        reply_fits(g, reply),
        g.phase == Phase::Detect,
        g.stage matches StageView::Reading { closing, .. } && !closing,
        reply matches ReplyView::Ballots(bs) && all_numbers(bs[0]) && first_largest(bs[0], t),
    ensures
        ({
            let (post, request) = step(g, reply, roles);
            let d = g.stage->Reading_readers[0];
            if g.seats[d].has_stream {
                &&& request.effects == seq![
                    EffectView::Send { to: d, text: "Info, "@ + crate::model::seat_text(g.seats[t]) },
                ]
                &&& post.phase == Phase::PreVote
            } else {
                &&& request.effects == Seq::<EffectView>::empty()
                &&& post.phase == Phase::End
            }
        }),
{
    let bs = reply->Ballots_0;
    lemma_top_is_first_largest(bs[0]);
    lemma_first_largest_unique(bs[0], t, crate::tally::top_of(bs[0])->0);
    let d = g.stage->Reading_readers[0];
    let ds = seq![(d, "Info, "@ + crate::model::seat_text(g.seats[t]))];
    assert(sends(ds) =~= seq![
        EffectView::Send { to: d, text: "Info, "@ + crate::model::seat_text(g.seats[t]) },
    ]);
}

proof fn lemma_record_at(seats: Seq<SeatView>, readers: Seq<int>, bs: Seq<Seq<crate::player::GuessView>>, mode: Record)
    requires
        forall|j: int| 0 <= j < readers.len() ==> 0 <= #[trigger] readers[j] < seats.len(),
        forall|a: int, b: int| 0 <= a < b < readers.len() ==> readers[a] != readers[b],
        bs.len() == readers.len(),
    ensures
        record_answers(seats, readers, bs, mode).len() == seats.len(),
        forall|k: int| 0 <= k < readers.len() ==> #[trigger] record_answers(seats, readers, bs, mode)[readers[k]]
            == if crate::model::records(mode, bs[k]) {
                crate::model::with_answer(seats[readers[k]], bs[k], mode)
            } else {
                seats[readers[k]]
            },
        forall|i: int| 0 <= i < seats.len() && (forall|k: int| 0 <= k < readers.len() ==> readers[k] != i)
            ==> #[trigger] record_answers(seats, readers, bs, mode)[i] == seats[i],
    decreases readers.len(),
{
    lemma_record_keeps(seats, readers, bs, mode);
    if readers.len() > 0 {
        let rd = readers.drop_last();
        let bd = bs.drop_last();
        lemma_record_at(seats, rd, bd, mode);
        let i = readers.last();
        let n = readers.len() - 1;
        assert(forall|k: int| 0 <= k < rd.len() ==> rd[k] == readers[k]);
        assert(forall|k: int| 0 <= k < rd.len() ==> bd[k] == bs[k]);
        assert forall|k: int| 0 <= k < rd.len() implies rd[k] != i by {
            assert(readers[k] != readers[n]);
        }
        let r = record_answers(seats, readers, bs, mode);
        let s0 = record_answers(seats, rd, bd, mode);
        assert(s0[i] == seats[i]);
        assert forall|k: int| 0 <= k < readers.len() implies #[trigger] r[readers[k]]
            == if crate::model::records(mode, bs[k]) {
                crate::model::with_answer(seats[readers[k]], bs[k], mode)
            } else {
                seats[readers[k]]
            } by {
            if k < n {
                assert(readers[k] == rd[k]);
                assert(readers[k] != i);
            }
        }
        assert forall|x: int| 0 <= x < seats.len() && (forall|k: int| 0 <= k < readers.len() ==> readers[k] != x)
            implies #[trigger] r[x] == seats[x] by {
            assert(readers[n] != x);
            assert forall|k: int| 0 <= k < rd.len() implies rd[k] != x by {
                assert(rd[k] == readers[k]);
            }
        }
    }
}

/// A day vote is made public: after the step of the day vote, every player
/// whose vote counted (its first largest number is above zero) shows that
/// answer both as its public and as its hidden guesses, whoever dies.
pub proof fn law_day_votes_published(g: MafiaView, reply: ReplyView, roles: Seq<Role>, j: int, t: int)
    requires
        wf(g),
        reply_fits(g, reply),
        g.phase == Phase::Vote,
        g.stage matches StageView::Reading { readers, closing } && !closing && 0 <= j < readers.len()
            && (forall|a: int, b: int| 0 <= a < b < readers.len() ==> readers[a] != readers[b])
            && g.seats[readers[j]].player is Some,
        reply matches ReplyView::Ballots(bs) && all_numbers(bs[j]) && first_largest(bs[j], t)
            && number_at(bs[j], t) > 0,
    ensures
        ({
            let post = step(g, reply, roles).0;
            let bs = reply->Ballots_0;
            let r = g.stage->Reading_readers[j];
            &&& post.seats[r].player matches Some(p) && p.guesses == bs[j] && p.hid_guess == bs[j]
        }),
{
    let bs = reply->Ballots_0;
    let readers = g.stage->Reading_readers;
    let r = readers[j];
    lemma_record_at(g.seats, readers, bs, Record::OpenVote);
    lemma_top_is_first_largest(bs[j]);
    lemma_first_largest_unique(bs[j], t, crate::tally::top_of(bs[j])->0);
    assert(crate::model::records(Record::OpenVote, bs[j]));
    let g1 = MafiaView { seats: record_answers(g.seats, readers, bs, Record::OpenVote), ..g };
    lemma_record_keeps(g.seats, readers, bs, Record::OpenVote);
    assert(g1.seats[r].player matches Some(p) && p.guesses == bs[j] && p.hid_guess == bs[j]);
    let v = victim(g1, tally(bs, g.max_players, true));
    let g2 = match v {
        Some(x) => after_kill(g1, x),
        None => g1,
    };
    assert(g2.seats[r].player matches Some(p) && p.guesses == bs[j] && p.hid_guess == bs[j]);
    lemma_after_vote_players(g2, v);
    let post = step(g, reply, roles).0;
    assert(post.seats[r].player == g2.seats[r].player);
}

/// What the state of a game says of one seat: nothing for an empty seat;
/// for a seat with a player, dead or alive, `, ` and the player's status
/// with its public guesses, its status with its hidden guesses, or its full
/// text.
pub open spec fn seat_entry(s: SeatView, d: crate::model::Detail) -> Seq<char> {
    match s.player {
        Some(p) => ", "@ + match d {
            crate::model::Detail::Public => crate::player::public_text(p),
            crate::model::Detail::Private => crate::player::private_text(p),
            crate::model::Detail::Full => crate::player::player_text(p),
        },
        None => Seq::empty(),
    }
}

/// The players of a table are listed seat by seat: one entry for every seat
/// that has a player, dead or alive, in seat order.
pub proof fn law_every_player_listed(seats: Seq<SeatView>, d: crate::model::Detail)
    ensures
        crate::model::players_text(seats, d) == Seq::new(seats.len(), |i: int| seat_entry(seats[i], d)).flatten(),
    decreases seats.len(),
{
    let all = Seq::new(seats.len(), |i: int| seat_entry(seats[i], d));
    if seats.len() == 0 {
        assert(all =~= Seq::<Seq<char>>::empty());
    } else {
        let front = seats.drop_last();
        law_every_player_listed(front, d);
        let fs = Seq::new(front.len(), |i: int| seat_entry(front[i], d));
        assert(all =~= fs.push(seat_entry(seats.last(), d)));
        fs.lemma_flatten_push(seat_entry(seats.last(), d));
        if seats.last().player is None {
            assert(fs.flatten() + Seq::<char>::empty() =~= fs.flatten());
        } else {
            assert(crate::model::players_text(seats, d) =~= fs.flatten() + seat_entry(seats.last(), d));
        }
    }
}

/// The public state of a game: its phase and day, then one entry for every
/// seat that has a player, dead or alive, in seat order, with the player's
/// status and public guesses.
pub proof fn law_public_state_lists_everyone(g: MafiaView)
    ensures
        crate::model::game_text(g) == "Phase: "@ + crate::model::phase_name(g.phase) + ", Day: "@
            + crate::text::decimal(g.day) + Seq::new(
            g.seats.len(),
            |i: int| seat_entry(g.seats[i], crate::model::Detail::Public),
        ).flatten(),
{
    law_every_player_listed(g.seats, crate::model::Detail::Public);
}

} // verus!
