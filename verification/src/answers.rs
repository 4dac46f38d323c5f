//! Taking the answers: recording guesses, counting votes, killing, and the
//! end of the game.
use vstd::prelude::*;
use crate::connection::Player;
use crate::server::Game;
use crate::connection::SocketStatus;
use crate::model::{
    Delivery, Detail, EffectView, Filter, MafiaView, Phase, Record, ReplyView, SeatView, StageView,
    after_kill, after_vote, alive, all_seats, answers_step, broken, end_text, finish,
    lemma_record_keeps, lemma_seats_where, lemma_tally_len, lemma_verdict, quits, record_answers,
    records, reply_fits, seat_role, seat_text, seats_where, sends, tally, victim, vote_of, wf,
    with_answer,
};
use crate::tally::top_of;
use crate::player::{Guess, GuessView, MafiaPlayer, Role, Status, ballot_view, copy_ballot};
use crate::game::{
    Effect, Mafia, Need, Request, Stage, ballots_view, push_players, copy_indices, deliveries_view,
    effects_view, ints, lemma_seats_view_update, seat_view,
};

verus! {

pub open spec fn vote_mode(mode: Record) -> bool {
    mode == Record::OpenVote || mode == Record::HiddenVote
}

pub(crate) fn ballot_vote(b: &Vec<Guess>, positive_only: bool) -> (r: Option<usize>)
    ensures
        match r {
            Some(t) => vote_of(ballot_view(b@), positive_only) == Some(t as int) && t < b@.len(),
            None => vote_of(ballot_view(b@), positive_only) is None,
        },
{
    match crate::tally::ballot_top(b) {
        Some(t) => {
            let low = match b[t].key {
                Some(x) => x <= 0,
                None => false,
            };
            if positive_only && low {
                None
            } else {
                Some(t)
            }
        },
        None => None,
    }
}

pub(crate) fn records_exec(mode: Record, b: &Vec<Guess>) -> (r: bool)
    ensures
        r == records(mode, ballot_view(b@)),
{
    match mode {
        Record::Open | Record::Hidden => true,
        Record::OpenVote => ballot_vote(b, true).is_some(),
        Record::HiddenVote => ballot_vote(b, false).is_some(),
    }
}

impl<L> Mafia<L> {
    /// Records one answer in the player at `seat`.
    pub(crate) fn record_answer(&mut self, seat: usize, b: &Vec<Guess>, mode: Record)
        requires
            seat < old(self).players@.len(),
        ensures
            final(self)@ == (MafiaView {
                seats: old(self)@.seats.update(seat as int, with_answer(old(self)@.seats[seat as int], ballot_view(b@), mode)),
                ..old(self)@
            }),
            final(self).links() == old(self).links(),
    {
        let ghost pre = self.players@;
        let mut slot: Option<MafiaPlayer> = None;
        std::mem::swap(&mut slot, &mut self.players[seat].player);
        match slot {
            Some(p) => {
                let open = match mode {
                    Record::Open | Record::OpenVote => true,
                    _ => false,
                };
                let guesses = if open { copy_ballot(b) } else { p.guesses };
                let np = MafiaPlayer {
                    role: p.role,
                    status: p.status,
                    id: p.id,
                    guesses,
                    hid_guess: copy_ballot(b),
                };
                self.players[seat].player = Some(np);
            },
            None => {
                self.players[seat].player = None;
            },
        }
        proof {
            lemma_seats_view_update(pre, seat as int, self.players@[seat as int]);
            assert(self.players@ =~= pre.update(seat as int, self.players@[seat as int]));
            assert(self.links() =~= old(self).links());
        }
    }

    /// Records the answers of `readers` and counts the votes they cast.
    pub(crate) fn record_answers(&mut self, readers: &Vec<usize>, bs: &Vec<Vec<Guess>>, mode: Record) -> (votes: Vec<usize>)
        requires
            wf(old(self)@),
            bs@.len() == readers@.len(),
            forall|j: int| 0 <= j < readers@.len() ==> #[trigger] readers@[j] < old(self).players@.len(),
            vote_mode(mode) ==> forall|j: int| 0 <= j < bs@.len() ==> (vote_of(
                #[trigger] ballots_view(bs@)[j],
                mode == Record::OpenVote,
            ) matches Some(t) ==> t < old(self).max_players),
        ensures
            final(self)@ == (MafiaView {
                seats: record_answers(old(self)@.seats, ints(readers@), ballots_view(bs@), mode),
                ..old(self)@
            }),
            final(self).links() == old(self).links(),
            vote_mode(mode) ==> votes@ == tally(ballots_view(bs@), old(self).max_players as nat, mode == Record::OpenVote),
    {
        let ghost g = self@;
        let ghost bv = ballots_view(bs@);
        let ghost rv = ints(readers@);
        let open = match mode {
            Record::OpenVote => true,
            _ => false,
        };
        let counting = match mode {
            Record::OpenVote | Record::HiddenVote => true,
            _ => false,
        };
        let mp = self.max_players;
        let mut votes: Vec<usize> = Vec::new();
        for x in 0..mp
            invariant
                votes@ =~= Seq::new(x as nat, |i: int| 0usize),
        {
            votes.push(0);
        }
        let m = readers.len();
        proof {
            assert(bv.take(0) =~= Seq::<Seq<GuessView>>::empty());
            assert(rv.take(0) =~= Seq::<int>::empty());
            assert(votes@ =~= tally(bv.take(0), mp as nat, open));
        }
        for j in 0..m
            invariant
                m == readers@.len(),
                m == bs@.len(),
                mp == self.max_players,
                g == old(self)@,
                bv == ballots_view(bs@),
                rv == ints(readers@),
                open == (mode == Record::OpenVote),
                counting == vote_mode(mode),
                forall|q: int| 0 <= q < readers@.len() ==> #[trigger] readers@[q] < self.players@.len(),
                vote_mode(mode) ==> forall|q: int| 0 <= q < bs@.len() ==> (vote_of(#[trigger] bv[q], open) matches Some(t)
                    ==> t < mp),
                self@ == (MafiaView { seats: record_answers(g.seats, rv.take(j as int), bv.take(j as int), mode), ..g }),
                self.links() == old(self).links(),
                vote_mode(mode) ==> votes@ == tally(bv.take(j as int), mp as nat, open),
                votes@.len() == mp,
                forall|x: int| 0 <= x < mp ==> #[trigger] votes@[x] <= j,
        {
            let seat = readers[j];
            proof {
                assert(bv.take(j + 1).drop_last() =~= bv.take(j as int));
                assert(rv.take(j + 1).drop_last() =~= rv.take(j as int));
                assert(bv.take(j + 1).last() == bv[j as int]);
                assert(rv.take(j + 1).last() == seat as int);
                assert(bv[j as int] == ballot_view(bs@[j as int]@));
            }
            if records_exec(mode, &bs[j]) {
                self.record_answer(seat, &bs[j], mode);
            }
            if counting {
                if let Some(t) = ballot_vote(&bs[j], open) {
                    assert(vote_of(bv[j as int], open) == Some(t as int));
                    let c = votes[t];
                    votes.set(t, c + 1);
                }
            }
            assert(self@.seats =~= record_answers(g.seats, rv.take(j + 1), bv.take(j + 1), mode));
        }
        proof {
            assert(bv.take(m as int) =~= bv);
            assert(rv.take(m as int) =~= rv);
        }
        votes
    }
}

pub(crate) fn quits_exec(b: &Vec<Guess>) -> (r: bool)
    ensures
        r == quits(ballot_view(b@)),
{
    if b.len() == 0 {
        return true;
    }
    match b[0].key {
        Some(x) => x == 0,
        None => false,
    }
}

impl<L> Mafia<L> {
    /// Seat `v` dies; the count of its side goes down by one.
    pub(crate) fn kill(&mut self, v: usize)
        requires
            v < old(self).players@.len(),
            alive(old(self)@.seats[v as int]),
            seat_role(old(self)@.seats[v as int]) == Role::Mafia ==> old(self).mafia_left > 0,
            seat_role(old(self)@.seats[v as int]) != Role::Mafia ==> old(self).innocent_left > 0,
        ensures
            final(self)@ == after_kill(old(self)@, v as int),
            final(self).links() == old(self).links(),
    {
        let ghost pre = self.players@;
        let mut slot: Option<MafiaPlayer> = None;
        std::mem::swap(&mut slot, &mut self.players[v].player);
        match slot {
            Some(p) => {
                if p.role == Role::Mafia {
                    self.mafia_left = self.mafia_left - 1;
                } else {
                    self.innocent_left = self.innocent_left - 1;
                }
                let np = MafiaPlayer {
                    role: p.role,
                    status: Status::Dead,
                    id: p.id,
                    guesses: p.guesses,
                    hid_guess: p.hid_guess,
                };
                self.players[v].player = Some(np);
            },
            None => {
                self.players[v].player = None;
            },
        }
        proof {
            lemma_seats_view_update(pre, v as int, self.players@[v as int]);
            assert(self.players@ =~= pre.update(v as int, self.players@[v as int]));
            assert(self.links() =~= old(self).links());
        }
    }

    /// The end of the game: the full state goes to everyone who can be
    /// written to, the others are marked broken; then everyone is asked.
    pub(crate) fn finish(&mut self, sent: Vec<Effect>) -> (r: Request)
        requires
            wf(old(self)@),
            old(self).phase == Phase::Vote || old(self).phase == Phase::Kill,
        ensures
            (final(self)@, r@) == finish(old(self)@, effects_view(sent@)),
            final(self).links() == old(self).links(),
            wf(final(self)@),
    {
        let ghost g = self@;
        let mut msg = String::from_str("End");
        proof {
            reveal_strlit("End");
        }
        push_players(&mut msg, &self.players, Detail::Full);
        assert(msg@ == end_text(g.seats));
        let mut effects = sent;
        let n = self.players.len();
        let ghost want = Seq::new(n as nat, |i: int| if g.seats[i].has_stream { g.seats[i] } else { broken(g.seats[i]) });
        let mut readers: Vec<usize> = Vec::new();
        proof {
            assert(g.seats.take(0) =~= Seq::<SeatView>::empty());
            assert(effects_view(effects@) =~= effects_view(sent@) + sends(seats_where(g.seats.take(0), Filter::Streamed).map_values(|i: int| (i, msg@))));
        }
        for i in 0..n
            invariant
                n == self.players@.len(),
                g == old(self)@,
                g.seats.len() == n,
                msg@ == end_text(g.seats),
                want == Seq::new(n as nat, |i: int| if g.seats[i].has_stream { g.seats[i] } else { broken(g.seats[i]) }),
                self@ == (MafiaView { seats: self@.seats, ..g }),
                self@.seats.len() == n,
                forall|q: int| 0 <= q < i ==> #[trigger] self@.seats[q] == want[q],
                forall|q: int| i <= q < n ==> #[trigger] self@.seats[q] == g.seats[q],
                self.links() == old(self).links(),
                effects_view(effects@) == effects_view(sent@) + sends(seats_where(g.seats.take(i as int), Filter::Streamed).map_values(|k: int| (k, msg@))),
                readers@ =~= Seq::new(i as nat, |k: int| k as usize),
        {
            let ghost before = self.players@;
            proof {
                assert(g.seats.take(i + 1).drop_last() =~= g.seats.take(i as int));
                assert(self@.seats[i as int] == seat_view(self.players@[i as int]));
                assert(self@.seats[i as int] == g.seats[i as int]);
            }
            if self.players[i].has_stream {
                let ghost prev = effects@;
                let e = Effect::Send { to: i, text: msg.clone() };
                effects.push(e);
                assert(effects_view(effects@) =~= effects_view(prev).push(e@));
            } else {
                self.players[i].socket = SocketStatus::ConnectionError;
                proof {
                    lemma_seats_view_update(before, i as int, self.players@[i as int]);
                    assert(self.players@ =~= before.update(i as int, self.players@[i as int]));
                    assert(self.links() =~= old(self).links());
                }
            }
            readers.push(i);
            assert(effects_view(effects@) =~= effects_view(sent@) + sends(seats_where(g.seats.take(i + 1), Filter::Streamed).map_values(|k: int| (k, msg@))));
        }
        proof {
            assert(g.seats.take(n as int) =~= g.seats);
            assert(self@.seats =~= want);
            assert(ints(readers@) =~= all_seats(n as nat));
        }
        let asked = copy_indices(&readers);
        self.stage = Stage::Reading { readers, closing: true };
        Request { effects, need: Need::Read { readers: asked, len: self.max_players } }
    }

    /// Tells the living who died, then closes the game or moves on.
    pub(crate) fn after_vote(&mut self, victim: Option<usize>) -> (r: Request)
        requires
            wf(old(self)@),
            old(self).phase == Phase::Vote || old(self).phase == Phase::Kill,
            victim matches Some(v) ==> v < old(self).players@.len() && old(self).players@[v as int].player is Some,
        ensures
            (final(self)@, r@) == after_vote(old(self)@, match victim { Some(v) => Some(v as int), None => None }),
            final(self).links() == old(self).links(),
            wf(final(self)@),
    {
        let ghost g = self@;
        let mut ds: Vec<(usize, String)> = Vec::new();
        proof {
            lemma_seats_where(g.seats, Filter::Alive);
        }
        match victim {
            Some(v) => {
                proof {
                    reveal_strlit("Info, ");
                }
                let mut msg = String::from_str("Info, ");
                match &self.players[v].player {
                    Some(p) => {
                        let st = p.get_state();
                        msg.append(st.as_str());
                    },
                    None => {},
                }
                let targets = self.select(Filter::Alive);
                let ghost want = seats_where(g.seats, Filter::Alive).map_values(|i: int| (i, msg@));
                for q in 0..targets.len()
                    invariant
                        ints(targets@) == seats_where(g.seats, Filter::Alive),
                        forall|j: int| 0 <= j < targets@.len() ==> #[trigger] targets@[j] < self.players@.len(),
                        want == seats_where(g.seats, Filter::Alive).map_values(|i: int| (i, msg@)),
                        ds@.len() == q,
                        forall|j: int| 0 <= j < q ==> #[trigger] deliveries_view(ds@)[j] == want[j],
                        forall|j: int| 0 <= j < q ==> #[trigger] ds@[j].0 < self.players@.len(),
                {
                    let ghost prev = ds@;
                    ds.push((targets[q], msg.clone()));
                    assert(ints(targets@)[q as int] == targets@[q as int] as int);
                    assert forall|j: int| 0 <= j < q implies #[trigger] deliveries_view(ds@)[j] == deliveries_view(prev)[j] by {
                        assert(ds@[j] == prev[j]);
                    }
                }
                assert(deliveries_view(ds@) =~= want);
            },
            None => {
                assert(deliveries_view(ds@) =~= Seq::<Delivery>::empty());
            },
        }
        let mut effects: Vec<Effect> = Vec::new();
        let k = self.send_until_gap(&ds, &mut effects);
        assert(effects_view(effects@) =~= sends(deliveries_view(ds@).take(k as int)));
        if k < ds.len() {
            let seat = ds[k].0;
            return self.abort(seat, effects);
        }
        assert(deliveries_view(ds@).take(k as int) =~= deliveries_view(ds@));
        let decided = self.mafia_left == 0 || self.mafia_left >= self.innocent_left || (
        self.phase == Phase::Kill && self.day >= 100);
        if decided {
            return self.finish(effects);
        }
        if self.phase == Phase::Vote {
            self.phase = Phase::PreKill;
        } else {
            self.day = self.day + 1;
            self.phase = Phase::Detect;
        }
        self.finish_round(effects)
    }
}

impl<L> Mafia<L> {
    pub(crate) fn close_game(&mut self, bs: &Vec<Vec<Guess>>) -> (r: Request)
        requires
            wf(old(self)@),
            bs@.len() == old(self).players@.len(),
        ensures
            (final(self)@, r@) == answers_step(old(self)@, all_seats(old(self).players@.len() as nat), true, ballots_view(bs@)),
            final(self).links() == old(self).links(),
    {
        let ghost g = self@;
        let n = self.players.len();
        let ghost want = Seq::new(n as nat, |i: int| if quits(ballots_view(bs@)[i]) { broken(g.seats[i]) } else { g.seats[i] });
        for i in 0..n
            invariant
                n == self.players@.len(),
                n == bs@.len(),
                g == old(self)@,
                want == Seq::new(n as nat, |i: int| if quits(ballots_view(bs@)[i]) { broken(g.seats[i]) } else { g.seats[i] }),
                self@ == (MafiaView { seats: self@.seats, ..g }),
                self@.seats.len() == n,
                forall|q: int| 0 <= q < i ==> #[trigger] self@.seats[q] == want[q],
                forall|q: int| i <= q < n ==> #[trigger] self@.seats[q] == g.seats[q],
                self.links() == old(self).links(),
        {
            let ghost before = self.players@;
            assert(ballots_view(bs@)[i as int] == ballot_view(bs@[i as int]@));
            assert(self@.seats[i as int] == seat_view(self.players@[i as int]));
            assert(self@.seats[i as int] == g.seats[i as int]);
            if quits_exec(&bs[i]) {
                self.players[i].socket = SocketStatus::ConnectionError;
                proof {
                    lemma_seats_view_update(before, i as int, self.players@[i as int]);
                    assert(self.players@ =~= before.update(i as int, self.players@[i as int]));
                    assert(self.links() =~= old(self).links());
                }
            }
            assert(self@.seats[i as int] == want[i as int]);
        }
        assert(self@.seats =~= want);
        self.phase = Phase::End;
        let effects: Vec<Effect> = Vec::new();
        assert(effects_view(effects@) =~= Seq::<EffectView>::empty());
        self.finish_round(effects)
    }

    /// The detective's answer: it learns the role of the seat it points at.
    pub(crate) fn detect_answer(&mut self, d: usize, b: &Vec<Guess>) -> (r: Request)
        requires
            wf(old(self)@),
            old(self).phase == Phase::Detect,
            d < old(self).players@.len(),
            top_of(ballot_view(b@)) matches Some(t) ==> 0 <= t < old(self).players@.len() && old(self)@.seats[t].player is Some,
        ensures
            (final(self)@, r@) == answers_step(old(self)@, seq![d as int], false, seq![ballot_view(b@)]),
            final(self).links() == old(self).links(),
            wf(final(self)@),
    {
        let mut effects: Vec<Effect> = Vec::new();
        assert(effects_view(effects@) =~= Seq::<EffectView>::empty());
        match crate::tally::ballot_top(b) {
            Some(t) => {
                proof {
                    reveal_strlit("Info, ");
                    assert(self@.seats[t as int] == seat_view(self.players@[t as int]));
                }
                let mut msg = String::from_str("Info, ");
                match &self.players[t].player {
                    Some(p) => {
                        let st = p.get_state();
                        msg.append(st.as_str());
                    },
                    None => {},
                }
                if !self.players[d].has_stream {
                    return self.abort(d, effects);
                }
                let e = Effect::Send { to: d, text: msg };
                effects.push(e);
                assert(effects_view(effects@) =~= sends(seq![(d as int, "Info, "@ + seat_text(old(self)@.seats[t as int]))]));
                self.phase = Phase::PreVote;
                self.finish_round(effects)
            },
            None => {
                self.phase = Phase::PreVote;
                self.finish_round(effects)
            },
        }
    }

    /// The answers to the last prompts.
    pub(crate) fn answers(&mut self, readers: &Vec<usize>, closing: bool, bs: &Vec<Vec<Guess>>) -> (r: Request)
        requires
            wf(old(self)@),
            old(self)@.stage == (StageView::Reading { readers: ints(readers@), closing }),
            reply_fits(old(self)@, ReplyView::Ballots(ballots_view(bs@))),
        ensures
            (final(self)@, r@) == answers_step(old(self)@, ints(readers@), closing, ballots_view(bs@)),
            final(self).links() == old(self).links(),
            wf(final(self)@),
    {
        let ghost g = self@;
        let ghost bv = ballots_view(bs@);
        assert(bs@.len() == readers@.len());
        assert forall|j: int| 0 <= j < readers@.len() implies #[trigger] readers@[j] < self.players@.len() by {
            assert(ints(readers@)[j] == readers@[j] as int);
        }
        if closing {
            assert(ints(readers@) =~= all_seats(self.players@.len() as nat));
            return self.close_game(bs);
        }
        match self.phase {
            Phase::Detect => {
                assert(ints(readers@) =~= seq![readers@[0] as int]);
                assert(bv =~= seq![ballot_view(bs@[0]@)]);
                self.detect_answer(readers[0], &bs[0])
            },
            Phase::PreVote => {
                proof {
                    lemma_record_keeps(g.seats, ints(readers@), bv, Record::Open);
                }
                let _ = self.record_answers(readers, bs, Record::Open);
                self.phase = Phase::Vote;
                let effects: Vec<Effect> = Vec::new();
                assert(effects_view(effects@) =~= Seq::<EffectView>::empty());
                self.finish_round(effects)
            },
            Phase::PreKill => {
                proof {
                    lemma_record_keeps(g.seats, ints(readers@), bv, Record::Hidden);
                }
                let _ = self.record_answers(readers, bs, Record::Hidden);
                self.phase = Phase::Kill;
                let effects: Vec<Effect> = Vec::new();
                assert(effects_view(effects@) =~= Seq::<EffectView>::empty());
                self.finish_round(effects)
            },
            _ => {
                let open = self.phase == Phase::Vote;
                let mode = if open { Record::OpenVote } else { Record::HiddenVote };
                assert forall|j: int| 0 <= j < bs@.len() implies (vote_of(#[trigger] ballots_view(bs@)[j], open) matches Some(t) ==> t < self.max_players) by {
                    assert(vote_of(bv[j], open) matches Some(t) ==> t < g.max_players);
                }
                let votes = self.record_answers(readers, bs, mode);
                let ghost g1 = self@;
                proof {
                    lemma_record_keeps(g.seats, ints(readers@), bv, mode);
                    lemma_tally_len(bv, g.max_players, open);
                }
                let mut dies: Option<usize> = None;
                match crate::tally::max_index(&votes) {
                    Some(v) => {
                        proof {
                            lemma_verdict(votes@, v as int);
                        }
                        let count = votes[v];
                        let carried = if open {
                            count > (self.mafia_left + self.innocent_left) / 2
                        } else {
                            count >= self.mafia_left / 2
                        };
                        if carried {
                            assert(g1.seats[v as int] == seat_view(self.players@[v as int]));
                            let living = match &self.players[v].player {
                                Some(p) => p.status == Status::Alive,
                                None => false,
                            };
                            if living {
                                dies = Some(v);
                            }
                        }
                    },
                    None => {},
                }
                assert(dies matches Some(v) ==> victim(g1, tally(bv, g.max_players, open)) == Some(v as int));
                assert(dies is None ==> victim(g1, tally(bv, g.max_players, open)) is None);
                match dies {
                    Some(v) => {
                        let ghost before_kill = self@;
                        assert(v < before_kill.seats.len());
                        self.kill(v);
                        assert(self@.seats.len() == before_kill.seats.len());
                        assert(self@.seats.len() == self.players@.len());
                        assert(self@.seats[v as int].player is Some);
                        assert(self@.seats[v as int] == seat_view(self.players@[v as int]));
                        assert(self.players@[v as int].player is Some);
                        self.after_vote(Some(v))
                    },
                    None => self.after_vote(None),
                }
            },
        }
    }
}

/// The votes the answers cast for each of `len` seats, or `None` when one of
/// them votes for a seat past the table.
pub fn count_votes(bs: &Vec<Vec<Guess>>, len: usize, open: bool) -> (r: Option<Vec<usize>>)
    ensures
        r is Some <==> forall|j: int| 0 <= j < bs@.len() ==> (vote_of(#[trigger] ballots_view(bs@)[j], open) matches Some(t) ==> t < len),
        r matches Some(v) ==> v@ == tally(ballots_view(bs@), len as nat, open),
{
    let ghost bv = ballots_view(bs@);
    let mut votes: Vec<usize> = Vec::new();
    for x in 0..len
        invariant
            votes@ =~= Seq::new(x as nat, |i: int| 0usize),
    {
        votes.push(0);
    }
    let m = bs.len();
    proof {
        assert(bv.take(0) =~= Seq::<Seq<GuessView>>::empty());
    }
    for j in 0..m
        invariant
            m == bs@.len(),
            bv == ballots_view(bs@),
            votes@ == tally(bv.take(j as int), len as nat, open),
            votes@.len() == len,
            forall|x: int| 0 <= x < len ==> #[trigger] votes@[x] <= j,
            forall|q: int| 0 <= q < j ==> (vote_of(#[trigger] bv[q], open) matches Some(t) ==> t < len),
    {
        assert(bv.take(j + 1).drop_last() =~= bv.take(j as int));
        assert(bv.take(j + 1).last() == bv[j as int]);
        assert(bv[j as int] == ballot_view(bs@[j as int]@));
        if let Some(t) = ballot_vote(&bs[j], open) {
            if t >= len {
                return None;
            }
            let c = votes[t];
            votes.set(t, c + 1);
        }
    }
    assert(bv.take(m as int) =~= bv);
    Some(votes)
}

} // verus!
