//! Opening a round: the connection checks of the start, the deal, and the
//! prompts that ask players for their answers.
use vstd::prelude::*;
use crate::connection::Player;
use crate::server::Game;
use crate::connection::{ConnectionStatus, ListenPoll, SocketStatus};
use crate::model::{
    Delivery, EffectView, Filter, MafiaView, Phase, SeatView, StageView, aborted,
    action_deliveries, check_need, check_step, deal_seats, deal_step, dealt_player, done,
    first_gap, lemma_first_gap_prefix, lemma_flat_index, lemma_seats_where, link_of,
    mafia_deliveries, open_round, prompt_then_read, seat_text, seats_where, selects, sends,
    start_deliveries, wf, with_link,
};

use crate::player::{Guess, GuessView, MafiaPlayer, Role, Status, ballot_view};
use crate::text::push_decimal;
use crate::game::{
    Effect, Mafia, Need, Request, Stage, copy_indices, deliveries_view, effects_view, ints,
    lemma_seats_view_update, seat_selected, seat_view, seats_view,
};

verus! {

impl<L> Mafia<L> {
    /// The seats that `f` selects, in order.
    pub fn select(&self, f: Filter) -> (r: Vec<usize>)
        ensures
            ints(r@) == seats_where(self@.seats, f),
            forall|j: int| 0 <= j < r@.len() ==> #[trigger] r@[j] < self.players@.len(),
            f != Filter::Streamed ==> forall|j: int| 0 <= j < r@.len() ==> (#[trigger] self.players@[r@[j] as int]).player is Some,
    {
        let mut r: Vec<usize> = Vec::new();
        let n = self.players.len();
        let ghost sv = self@.seats;
        for i in 0..n
            invariant
                n == self.players@.len(),
                sv == self@.seats,
                ints(r@) == seats_where(sv.take(i as int), f),
                forall|j: int| 0 <= j < r@.len() ==> #[trigger] r@[j] < i,
        {
            assert(sv.take(i + 1).drop_last() =~= sv.take(i as int));
            if seat_selected(&self.players[i], f) {
                r.push(i);
            }
            assert(ints(r@) =~= seats_where(sv.take(i + 1), f));
        }
        assert(sv.take(n as int) =~= sv);
        proof {
            lemma_seats_where(sv, f);
            assert forall|j: int| 0 <= j < r@.len() && f != Filter::Streamed implies (#[trigger] self.players@[r@[j] as int]).player is Some by {
                assert(ints(r@)[j] == r@[j] as int);
                assert(sv[r@[j] as int] == seat_view(self.players@[r@[j] as int]));
            }
        }
        r
    }

    /// Writes the deliveries in order until one reaches a seat without a
    /// stream; returns how many went out.
    pub(crate) fn send_until_gap(&self, ds: &Vec<(usize, String)>, effects: &mut Vec<Effect>) -> (k: usize)
        requires
            forall|j: int| 0 <= j < ds@.len() ==> #[trigger] ds@[j].0 < self.players@.len(),
        ensures
            k as int == first_gap(self@.seats, deliveries_view(ds@)),
            effects_view(final(effects)@) == effects_view(old(effects)@) + sends(
                deliveries_view(ds@).take(k as int),
            ),
    {
        let n = ds.len();
        let ghost dv = deliveries_view(ds@);
        let ghost sv = self@.seats;
        let mut i: usize = 0;
        while i < n
            invariant
                0 <= i <= n,
                n == ds@.len(),
                dv == deliveries_view(ds@),
                sv == self@.seats,
                forall|j: int| 0 <= j < ds@.len() ==> #[trigger] ds@[j].0 < self.players@.len(),
                first_gap(sv, dv.take(i as int)) == i,
                effects_view(effects@) == effects_view(old(effects)@) + sends(dv.take(i as int)),
            decreases n - i,
        {
            let to = ds[i].0;
            assert(dv.take(i + 1).drop_last() =~= dv.take(i as int));
            assert(dv.take(i + 1).last() == dv[i as int]);
            if !self.players[to].has_stream {
                proof {
                    lemma_first_gap_prefix(sv, dv, i + 1);
                }
                return i;
            }
            let text = ds[i].1.clone();
            let ghost prev = effects@;
            let e = Effect::Send { to, text };
            assert(e@ == sends(dv.take(i + 1)).last());
            effects.push(e);
            assert(effects_view(effects@) =~= effects_view(prev).push(e@));
            assert(sends(dv.take(i + 1)) =~= sends(dv.take(i as int)).push(e@));
            assert(effects_view(effects@) =~= effects_view(old(effects)@) + sends(dv.take(i + 1)));
            i = i + 1;
        }
        assert(dv.take(n as int) =~= dv);
        n
    }

    pub(crate) fn abort(&mut self, seat: usize, effects: Vec<Effect>) -> (r: Request)
        requires
            seat < old(self).players@.len(),
        ensures
            (final(self)@, r@) == aborted(old(self)@, seat as int, effects_view(effects@)),
            final(self).links() == old(self).links(),
    {
        let ghost pre = self.players@;
        self.players[seat].socket = SocketStatus::ConnectionError;
        proof {
            lemma_seats_view_update(pre, seat as int, self.players@[seat as int]);
            assert(self.links() =~= old(self).links());
        }
        self.phase = Phase::End;
        self.stage = Stage::Idle;
        Request { effects, need: Need::Done }
    }

    pub(crate) fn finish_round(&mut self, effects: Vec<Effect>) -> (r: Request)
        ensures
            (final(self)@, r@) == done(old(self)@, effects_view(effects@)),
            final(self).players == old(self).players,
    {
        self.stage = Stage::Idle;
        Request { effects, need: Need::Done }
    }

    /// `Action, <player>, <state>` for each target.
    pub(crate) fn action_deliveries(&self, targets: &Vec<usize>, state: &String) -> (ds: Vec<(usize, String)>)
        requires
            forall|j: int| 0 <= j < targets@.len() ==> #[trigger] targets@[j] < self.players@.len()
                && self.players@[targets@[j] as int].player is Some,
        ensures
            deliveries_view(ds@) == action_deliveries(self@.seats, ints(targets@), state@),
            forall|j: int| 0 <= j < ds@.len() ==> #[trigger] ds@[j].0 < self.players@.len(),
    {
        let mut ds: Vec<(usize, String)> = Vec::new();
        let n = targets.len();
        let ghost want = action_deliveries(self@.seats, ints(targets@), state@);
        for j in 0..n
            invariant
                n == targets@.len(),
                want == action_deliveries(self@.seats, ints(targets@), state@),
                forall|j: int| 0 <= j < targets@.len() ==> #[trigger] targets@[j] < self.players@.len()
                    && self.players@[targets@[j] as int].player is Some,
                ds@.len() == j,
                forall|q: int| 0 <= q < j ==> #[trigger] deliveries_view(ds@)[q] == want[q],
                forall|q: int| 0 <= q < j ==> #[trigger] ds@[q].0 < self.players@.len(),
        {
            proof {
                reveal_strlit("Action, ");
                reveal_strlit(", ");
            }
            let t = targets[j];
            let mut msg = String::from_str("Action, ");
            match &self.players[t].player {
                Some(p) => {
                    let st = p.get_state();
                    msg.append(st.as_str());
                },
                None => {},
            }
            msg.append(", ");
            msg.append(state.as_str());
            let ghost prev = ds@;
            ds.push((t, msg));
            assert(deliveries_view(ds@)[j as int] == want[j as int]);
            assert forall|q: int| 0 <= q < j implies #[trigger] deliveries_view(ds@)[q]
                == deliveries_view(prev)[q] by {
                assert(ds@[q] == prev[q]);
            }
        }
        assert(deliveries_view(ds@) =~= want);
        ds
    }

    /// Sends the prompts, then asks for the answers of the targets.
    pub(crate) fn prompt_then_read(&mut self, targets: Vec<usize>, ds: Vec<(usize, String)>) -> (r: Request)
        requires
            wf(old(self)@),
            old(self).phase != Phase::Start && old(self).phase != Phase::End && old(self).phase
                != Phase::Error,
            old(self).phase == Phase::Detect ==> targets@.len() == 1,
            forall|j: int| 0 <= j < ds@.len() ==> #[trigger] ds@[j].0 < old(self).players@.len(),
            forall|j: int| 0 <= j < targets@.len() ==> #[trigger] targets@[j] < old(self).players@.len(),
        ensures
            (final(self)@, r@) == prompt_then_read(old(self)@, ints(targets@), deliveries_view(ds@)),
            final(self).links() == old(self).links(),
            wf(final(self)@),
    {
        let mut effects: Vec<Effect> = Vec::new();
        let k = self.send_until_gap(&ds, &mut effects);
        assert(effects_view(effects@) =~= sends(deliveries_view(ds@).take(k as int)));
        if k < ds.len() {
            let seat = ds[k].0;
            return self.abort(seat, effects);
        }
        assert(deliveries_view(ds@).take(k as int) =~= deliveries_view(ds@));
        let readers = copy_indices(&targets);
        self.stage = Stage::Reading { readers: targets, closing: false };
        Request { effects, need: Need::Read { readers, len: self.max_players } }
    }
}

impl<L> Mafia<L> {
    pub(crate) fn check_need(&self, seat: usize) -> (n: Need)
        requires
            seat < self.players@.len(),
        ensures
            n@ == check_need(self@.seats, seat as int),
    {
        if self.players[seat].socket == SocketStatus::Listening {
            Need::Poll(seat)
        } else {
            Need::Resume
        }
    }

    pub(crate) fn begin_checks(&mut self) -> (r: Request)
        requires
            old(self).phase == Phase::Start,
        ensures
            (final(self)@, r@) == open_round(old(self)@),
            final(self).players == old(self).players,
    {
        if self.players.len() > 0 {
            self.stage = Stage::Checking { seat: 0, second: false };
            let need = self.check_need(0);
            let r = Request { effects: Vec::new(), need };
            assert(r@.effects =~= Seq::<EffectView>::empty());
            r
        } else {
            self.stage = Stage::Assigning;
            let r = Request { effects: Vec::new(), need: Need::Resume };
            assert(r@.effects =~= Seq::<EffectView>::empty());
            r
        }
    }

    /// The start of a round: what the current phase first does.
    pub(crate) fn open_round(&mut self) -> (r: Request)
        requires
            wf(old(self)@),
            old(self).stage@ == StageView::Idle,
        ensures
            (final(self)@, r@) == open_round(old(self)@),
            final(self).links() == old(self).links(),
            wf(final(self)@),
    {
        proof {
            lemma_seats_where(self@.seats, Filter::Alive);
            lemma_seats_where(self@.seats, Filter::AliveMafia);
            lemma_seats_where(self@.seats, Filter::AliveDetective);
        }
        let phase = self.phase;
        match phase {
            Phase::Start => self.begin_checks(),
            Phase::Detect => {
                let state = self.get_state();
                let dets = self.select(Filter::AliveDetective);
                if dets.len() == 0 {
                    self.phase = Phase::PreVote;
                    let effects: Vec<Effect> = Vec::new();
                    assert(effects_view(effects@) =~= Seq::<EffectView>::empty());
                    self.finish_round(effects)
                } else {
                    let targets = vec![dets[0]];
                    assert(ints(targets@) =~= seq![seats_where(self@.seats, Filter::AliveDetective)[0]]);
                    let ds = self.action_deliveries(&targets, &state);
                    self.prompt_then_read(targets, ds)
                }
            },
            Phase::PreVote | Phase::Vote => {
                let state = self.get_state();
                let targets = self.select(Filter::Alive);
                let ds = self.action_deliveries(&targets, &state);
                self.prompt_then_read(targets, ds)
            },
            Phase::PreKill | Phase::Kill => {
                let state = self.get_private_state();
                let targets = self.select(Filter::AliveMafia);
                let ds = self.action_deliveries(&targets, &state);
                self.prompt_then_read(targets, ds)
            },
            _ => {
                let effects: Vec<Effect> = Vec::new();
                assert(effects_view(effects@) =~= Seq::<EffectView>::empty());
                self.finish_round(effects)
            },
        }
    }
}

impl<L> Mafia<L> {
    /// One connection check of the start of the game.
    pub(crate) fn check_step(&mut self, seat: usize, second: bool, poll: ListenPoll) -> (r: Request)
        requires
            wf(old(self)@),
            old(self)@.stage == (StageView::Checking { seat: seat as int, second }),
            crate::connection::check_counts_failure(link_of(old(self)@.seats[seat as int]), poll)
                ==> old(self)@.seats[seat as int].failure_count < usize::MAX,
        ensures
            (final(self)@, r@) == check_step(old(self)@, seat as int, second, poll),
            final(self).links() == old(self).links(),
            wf(final(self)@),
    {
        let ghost pre = self.players@;
        let n = self.players.len();
        let (status, close) = self.players[seat].check_connections(poll);
        proof {
            lemma_seats_view_update(pre, seat as int, self.players@[seat as int]);
            assert(self.players@ == pre.update(seat as int, self.players@[seat as int]));
            assert(self.links() =~= old(self).links());
            assert(seat_view(self.players@[seat as int]) == with_link(old(self)@.seats[seat as int], self.players@[seat as int].link_state()));
        }
        let mut effects: Vec<Effect> = Vec::new();
        if close {
            effects.push(Effect::Close { seat });
        }
        assert(effects_view(effects@) =~= (if close {
            seq![EffectView::Close { seat: seat as int }]
        } else {
            Seq::empty()
        }));
        if !second {
            if status == ConnectionStatus::Error {
                self.phase = Phase::Error;
                self.finish_round(effects)
            } else {
                self.stage = Stage::Checking { seat, second: true };
                let need = self.check_need(seat);
                Request { effects, need }
            }
        } else if status == ConnectionStatus::NotConnected {
            self.finish_round(effects)
        } else if seat < n - 1 {
            self.stage = Stage::Checking { seat: seat + 1, second: false };
            let need = self.check_need(seat + 1);
            Request { effects, need }
        } else {
            self.stage = Stage::Assigning;
            Request { effects, need: Need::Resume }
        }
    }
}

/// A fresh guess list: `n` zeros, printed `0`.
pub fn zero_guesses(n: usize) -> (r: Vec<Guess>)
    ensures
        ballot_view(r@) == crate::model::zero_guesses(n as nat),
{
    let mut r: Vec<Guess> = Vec::new();
    for i in 0..n
        invariant
            r@.len() == i,
            forall|j: int| 0 <= j < i ==> (#[trigger] r@[j])@ == (GuessView { key: Some(0i64), text: "0"@ }),
    {
        proof {
            reveal_strlit("0");
        }
        r.push(Guess { key: Some(0i64), text: String::from_str("0") });
    }
    assert(ballot_view(r@) =~= crate::model::zero_guesses(n as nat));
    r
}

impl<L> Mafia<L> {
    /// Deals `roles` (taken from the back) to the seats, tells every player
    /// its role, and tells the Mafia who its members are.
    pub fn deal(&mut self, roles: Vec<Role>) -> (r: Request)
        requires
            wf(old(self)@),
            old(self)@.stage == StageView::Assigning,
            old(self).players@.len() <= roles@.len(),
        ensures
            (final(self)@, r@) == deal_step(old(self)@, roles@),
            final(self).links() == old(self).links(),
            wf(final(self)@),
    {
        let ghost g = self@;
        let ghost roles0 = roles@;
        let n = self.players.len();
        let mp = self.max_players;
        let ghost dealt = deal_seats(g.seats, roles0, n as int, mp as nat);
        let ghost ds1 = start_deliveries(dealt, mp as nat);
        let mut pool = roles;
        let mut effects: Vec<Effect> = Vec::new();
        let mut members: Vec<usize> = Vec::new();
        let mut member_texts: Vec<String> = Vec::new();
        proof {
            reveal_strlit("Start, ");
            reveal_strlit(", ");
            assert(deal_seats(g.seats, roles0, 0, mp as nat) =~= g.seats);
            assert(ds1.take(0) =~= Seq::<Delivery>::empty());
            assert(dealt.take(0) =~= Seq::<SeatView>::empty());
            assert(effects_view(effects@) =~= sends(ds1.take(0)));
            assert(pool@ =~= roles0.take(roles0.len() - 0));
        }
        for i in 0..n
            invariant
                n == self.players@.len(),
                mp == self.max_players,
                g.seats.len() == n,
                wf(g),
                g.stage == StageView::Assigning,
                self@ == (MafiaView { seats: deal_seats(g.seats, roles0, i as int, mp as nat), ..g }),
                self.links() == old(self).links(),
                pool@ == roles0.take(roles0.len() - i),
                g == old(self)@,
                roles0 == roles@,
                roles0.len() >= n,
                dealt == deal_seats(g.seats, roles0, n as int, mp as nat),
                ds1 == start_deliveries(dealt, mp as nat),
                first_gap(dealt, ds1.take(i as int)) == i,
                effects_view(effects@) == sends(ds1.take(i as int)),
                ints(members@) == seats_where(dealt.take(i as int), Filter::AliveMafia),
                member_texts@.len() == members@.len(),
                forall|q: int| 0 <= q < members@.len() ==> (#[trigger] member_texts@[q])@ == seat_text(dealt[members@[q] as int]),
                forall|q: int| 0 <= q < members@.len() ==> #[trigger] members@[q] < i,
        {
            let ghost before = self.players@;
            let role = match pool.pop() {
                Some(r) => r,
                None => Role::Innocent,
            };
            let p = MafiaPlayer {
                role,
                status: Status::Alive,
                id: #[verifier::truncate] (i as u8),
                guesses: zero_guesses(mp),
                hid_guess: zero_guesses(mp),
            };
            let state = p.get_state();
            self.players[i].player = Some(p);
            proof {
                assert(roles0.take(roles0.len() - i).last() == roles0[roles0.len() - 1 - i]);
                assert((i as int) as u8 == i as u8);
                assert(seats_view(before)[i as int] == deal_seats(g.seats, roles0, i as int, mp as nat)[i as int]);
                assert(seat_view(before[i as int]) == g.seats[i as int]);
                assert(self.players@[i as int].socket == before[i as int].socket);
                assert(self.players@[i as int].has_stream == before[i as int].has_stream);
                assert(self.players@[i as int].failure_count == before[i as int].failure_count);
                assert(self.players@[i as int].player->0@ == dealt_player(roles0, i as int, mp as nat));
                lemma_seats_view_update(before, i as int, self.players@[i as int]);
                assert(seat_view(self.players@[i as int]) == deal_seats(g.seats, roles0, i + 1, mp as nat)[i as int]);
                assert(self@.seats =~= deal_seats(g.seats, roles0, i + 1, mp as nat));
                assert(self.links() =~= old(self).links());
                assert(dealt[i as int] == self@.seats[i as int]);
                assert(dealt.take(i + 1).drop_last() =~= dealt.take(i as int));
                assert(ds1.take(i + 1).drop_last() =~= ds1.take(i as int));
                assert(pool@ =~= roles0.take(roles0.len() - (i + 1)));
            }
            if role == Role::Mafia {
                members.push(i);
                member_texts.push(state.clone());
            }
            assert(ints(members@) =~= seats_where(dealt.take(i + 1), Filter::AliveMafia));
            let mut msg = String::from_str("Start, ");
            msg.append(state.as_str());
            msg.append(", ");
            push_decimal(&mut msg, mp);
            assert(msg@ == ds1[i as int].1);
            if !self.players[i].has_stream {
                proof {
                    assert(!dealt[ds1.take(i + 1).last().0].has_stream);
                    assert(first_gap(dealt, ds1.take(i + 1)) == i);
                    lemma_first_gap_prefix(dealt, ds1, i + 1);
                    assert(first_gap(dealt, ds1) == i);
                    assert(self@ == (MafiaView { seats: deal_seats(g.seats, roles0, i + 1, mp as nat), ..g }));
                }
                return self.abort(i, effects);
            }
            let ghost prev = effects@;
            let e = Effect::Send { to: i, text: msg };
            effects.push(e);
            assert(effects_view(effects@) =~= effects_view(prev).push(e@));
            assert(sends(ds1.take(i + 1)) =~= sends(ds1.take(i as int)).push(e@));
        }
        proof {
            assert(ds1.take(n as int) =~= ds1);
            assert(dealt.take(n as int) =~= dealt);
            assert(self@.seats =~= dealt);
        }
        self.broadcast_mafia(effects, members, member_texts)
    }

    /// Every Mafia member learns who every Mafia member is; then the night
    /// begins.
    pub(crate) fn broadcast_mafia(&mut self, sent: Vec<Effect>, members: Vec<usize>, texts: Vec<String>) -> (r: Request)
        requires
            wf(old(self)@),
            old(self)@.stage == StageView::Assigning,
            ints(members@) == seats_where(old(self)@.seats, Filter::AliveMafia),
            texts@.len() == members@.len(),
            forall|q: int| 0 <= q < members@.len() ==> (#[trigger] texts@[q])@ == seat_text(old(self)@.seats[members@[q] as int]),
        ensures
            ({
                let g = old(self)@;
                let ds2 = mafia_deliveries(g.seats);
                let k2 = first_gap(g.seats, ds2);
                (final(self)@, r@) == if k2 < ds2.len() {
                    aborted(g, ds2[k2].0, effects_view(sent@) + sends(ds2.take(k2)))
                } else {
                    done(MafiaView { phase: Phase::Detect, ..g }, effects_view(sent@) + sends(ds2))
                }
            }),
            final(self).links() == old(self).links(),
            wf(final(self)@),
    {
        let ghost g = self@;
        let ghost ds2 = mafia_deliveries(g.seats);
        let ghost effects0 = effects_view(sent@);
        let mut effects = sent;
        let m = members.len();
        proof {
            lemma_seats_where(g.seats, Filter::AliveMafia);
            assert(ds2.take(0) =~= Seq::<Delivery>::empty());
            assert(first_gap(g.seats, ds2.take(0)) == 0);
            assert(effects0 + sends(ds2.take(0)) =~= effects0);
            assert(0 * m == 0);
        }
        for a in 0..m
            invariant
                m == members@.len(),
                m == texts@.len(),
                self@ == g,
                g == old(self)@,
                effects0 == effects_view(sent@),
                wf(g),
                g.stage == StageView::Assigning,
                self.links() == old(self).links(),
                ints(members@) == seats_where(g.seats, Filter::AliveMafia),
                forall|q: int| 0 <= q < m ==> (#[trigger] texts@[q])@ == seat_text(g.seats[members@[q] as int]),
                ds2 == mafia_deliveries(g.seats),
                ds2.len() == m * m,
                first_gap(g.seats, ds2.take(a * m)) == a * m,
                effects_view(effects@) == effects0 + sends(ds2.take(a * m)),
                a * m <= m * m,
        {
            let target = members[a];
            for b in 0..m
                invariant
                    m == members@.len(),
                    m == texts@.len(),
                    g == old(self)@,
                    effects0 == effects_view(sent@),
                    wf(g),
                    g.stage == StageView::Assigning,
                    0 <= a < m,
                    target == members@[a as int],
                    self@ == g,
                    self.links() == old(self).links(),
                    ints(members@) == seats_where(g.seats, Filter::AliveMafia),
                    forall|q: int| 0 <= q < m ==> (#[trigger] texts@[q])@ == seat_text(g.seats[members@[q] as int]),
                    ds2 == mafia_deliveries(g.seats),
                    ds2.len() == m * m,
                    first_gap(g.seats, ds2.take(a * m + b)) == a * m + b,
                    effects_view(effects@) == effects0 + sends(ds2.take(a * m + b)),
                    a * m + b <= m * m,
            {
                let ghost j: int = a * m + b;
                proof {
                    lemma_flat_index(a as int, b as int, m as int);
                    lemma_seats_where(g.seats, Filter::AliveMafia);
                    assert(ints(members@).len() == m);
                    assert(ints(members@)[a as int] == members@[a as int] as int);
                    assert(ints(members@)[b as int] == members@[b as int] as int);
                    assert(texts@[b as int]@ == seat_text(g.seats[members@[b as int] as int]));
                    assert(0 <= j < m * m) by (nonlinear_arith)
                        requires j == a * m + b, 0 <= b < m, 0 <= a < m;
                    assert(ds2[j as int] == (members@[a as int] as int, texts@[b as int]@));
                    assert(seats_where(g.seats, Filter::AliveMafia)[a as int] == target as int);
                    assert(target < self.players@.len());
                    assert(g.seats[target as int] == seat_view(self.players@[target as int]));
                    assert(ds2.take(j + 1).drop_last() =~= ds2.take(j as int));
                    assert(ds2.take(j + 1).last() == ds2[j as int]);
                    assert(ints(members@)[a as int] == target as int);
                }
                if !self.players[target].has_stream {
                    proof {
                        assert(first_gap(g.seats, ds2.take(j + 1)) == j);
                        lemma_first_gap_prefix(g.seats, ds2, j + 1);
                        assert(first_gap(g.seats, ds2) == j);
                        assert(ds2[j].0 == target as int);
                    }
                    let r = self.abort(target, effects);
                    return r;
                }
                let text = texts[b].clone();
                let ghost prev = effects@;
                let e = Effect::Send { to: target, text };
                effects.push(e);
                assert(effects_view(effects@) =~= effects_view(prev).push(e@));
                assert(sends(ds2.take(j + 1)) =~= sends(ds2.take(j as int)).push(e@));
                assert(effects0 + sends(ds2.take(j + 1)) =~= effects_view(prev).push(e@));
            }
            assert((a + 1) * m == a * m + m) by (nonlinear_arith);
        }
        assert(ds2.take(m * m) =~= ds2);
        self.phase = Phase::Detect;
        self.finish_round(effects)
    }
}

} // verus!
