use mafia_server::connection::{ConnectedPlayer, ListenPoll, SocketStatus};
use mafia_server::game::{Effect, Mafia, Need, Reply, Stage};
use mafia_server::model::Phase;
use mafia_server::player::{Guess, MafiaPlayer, Role, Status};
use mafia_server::server::Game;

fn table(n: usize) -> Mafia<()> {
    let mut g: Mafia<()> = Game::new(n);
    for _ in 0..n {
        g.player_list_mut().push(ConnectedPlayer {
            socket: SocketStatus::Connected,
            has_stream: true,
            link: (),
            player: None,
            failure_count: 0,
        });
    }
    g
}

fn point_at(target: usize, n: usize) -> Vec<Guess> {
    (0..n)
        .map(|i| Guess { key: Some(if i == target { 1 } else { 0 }), text: "x".to_string() })
        .collect()
}

/// Plays one round; returns the phases seen after each step and the seats written to.
fn round(g: &mut Mafia<()>, answer: &dyn Fn(usize) -> Vec<Guess>) -> (Vec<Phase>, Vec<usize>) {
    let mut phases = Vec::new();
    let mut writes = Vec::new();
    let mut reply = Reply::Resume;
    loop {
        let r = g.run_game(reply);
        phases.push(g.phase);
        for e in r.effects.iter() {
            if let Effect::Send { to, .. } = e {
                writes.push(*to);
            }
        }
        match r.need {
            Need::Done => return (phases, writes),
            Need::Resume => reply = Reply::Resume,
            Need::Poll(_) => reply = Reply::Polled(ListenPoll::Waiting),
            Need::Read { readers, .. } => {
                let closing = matches!(g.stage, Stage::Reading { closing: true, .. });
                reply = Reply::Ballots(
                    readers
                        .iter()
                        .map(|i| if closing { vec![Guess { key: Some(1), text: "1".into() }] } else { answer(*i) })
                        .collect(),
                )
            },
        }
    }
}

fn living(g: &Mafia<()>, mafia: bool) -> usize {
    g.players
        .iter()
        .filter(|p| p.get_status() == Status::Alive && (p.get_role() == Role::Mafia) == mafia)
        .count()
}

fn follows(a: Phase, b: Phase) -> bool {
    match a {
        Phase::Start => matches!(b, Phase::Start | Phase::Detect | Phase::End | Phase::Error),
        Phase::Detect => matches!(b, Phase::Detect | Phase::PreVote | Phase::End),
        Phase::PreVote => matches!(b, Phase::PreVote | Phase::Vote | Phase::End),
        Phase::Vote => matches!(b, Phase::Vote | Phase::PreKill | Phase::End),
        Phase::PreKill => matches!(b, Phase::PreKill | Phase::Kill | Phase::End),
        Phase::Kill => matches!(b, Phase::Kill | Phase::Detect | Phase::End),
        Phase::End => b == Phase::End,
        Phase::Error => b == Phase::Error,
    }
}

#[test]
fn a_whole_game_keeps_its_laws() {
    let mut g = table(8);
    let mut phase = g.phase;
    let (phases, _) = round(&mut g, &|_| Vec::new());
    for p in phases {
        assert!(follows(phase, p));
        phase = p;
    }
    let mut dead: Vec<usize> = Vec::new();
    let roles: Vec<Role> = (0..8).map(|i| g.players[i].get_role()).collect();
    let mut rounds = 0;
    while !g.over() && rounds < 40 {
        rounds += 1;
        let before_day = g.day;
        let before_phase = g.phase;
        // everyone always points at the lowest living seat
        let target = (0..8).find(|i| g.players[*i].get_status() == Status::Alive).unwrap();
        let before_dead = dead.len();
        let (phases, writes) = round(&mut g, &|_| point_at(target, 8));
        for p in phases {
            assert!(follows(phase, p));
            phase = p;
        }
        // only seats with a stream are written to (all of them have one here)
        assert!(writes.iter().all(|w| g.players[*w].has_stream));
        // the dead stay dead, roles never change, at most one death per round
        for d in dead.iter() {
            assert_eq!(g.players[*d].get_status(), Status::Dead);
        }
        for i in 0..8 {
            assert_eq!(g.players[i].get_role(), roles[i]);
            if g.players[i].get_status() == Status::Dead && !dead.contains(&i) {
                dead.push(i);
            }
        }
        assert!(dead.len() <= before_dead + 1);
        // the counters equal the living of each side
        assert_eq!(g.mafia_left, living(&g, true));
        assert_eq!(g.innocent_left, living(&g, false));
        // the day moves only from Kill to Detect
        if g.day != before_day {
            assert_eq!(g.day, before_day + 1);
            assert_eq!(before_phase, Phase::Kill);
            assert_eq!(g.phase, Phase::Detect);
        }
        // play goes on only while the mafia is alive and outnumbered
        if g.phase == Phase::PreKill || (before_phase == Phase::Kill && g.phase == Phase::Detect) {
            assert!(0 < g.mafia_left && g.mafia_left < g.innocent_left);
        }
    }
    assert!(g.over());
    // a finished game rests
    let before: Vec<SocketStatus> = g.players.iter().map(|p| p.socket).collect();
    let r = g.run_game(Reply::Resume);
    assert!(r.effects.is_empty());
    assert!(matches!(r.need, Need::Done));
    assert_eq!(g.players.iter().map(|p| p.socket).collect::<Vec<_>>(), before);
}

#[test]
fn no_message_reaches_a_seat_without_stream() {
    let mut g = table(8);
    round(&mut g, &|_| Vec::new());
    g.phase = Phase::Vote;
    g.players[5].has_stream = false;
    let (_, writes) = round(&mut g, &|_| Vec::new());
    assert_eq!(writes, vec![0, 1, 2, 3, 4]);
    assert_eq!(g.players[5].socket, SocketStatus::ConnectionError);
    assert_eq!(g.phase, Phase::End);
}

#[test]
fn counters_start_from_the_table_size() {
    for n in [1usize, 4, 7, 8, 12] {
        let mut g = table(n);
        assert_eq!(g.mafia_left, n / 4);
        assert_eq!(g.innocent_left, n - n / 4);
        round(&mut g, &|_| Vec::new());
        assert_eq!(g.phase, Phase::Detect);
        assert_eq!(g.mafia_left, living(&g, true));
        assert_eq!(g.innocent_left, living(&g, false));
    }
}

#[test]
fn the_kill_needs_only_half_the_mafia() {
    let mut g = table(8);
    round(&mut g, &|_| Vec::new());
    g.phase = Phase::Kill;
    let town = (0..8).find(|i| g.players[*i].get_role() == Role::Innocent).unwrap();
    let votes = std::cell::Cell::new(0);
    round(&mut g, &|_| {
        votes.set(votes.get() + 1);
        if votes.get() == 1 { point_at(town, 8) } else { Vec::new() }
    });
    // one vote of two Mafia members carries (1 >= 2 / 2)
    assert_eq!(g.players[town].get_status(), Status::Dead);
    let p: &MafiaPlayer = g.players[town].player.as_ref().unwrap();
    assert_eq!(p.status, Status::Dead);
}

fn answers(n: usize, target: usize, text: &str) -> Vec<Guess> {
    (0..n)
        .map(|i| Guess { key: Some(if i == target { 1 } else { 0 }), text: text.to_string() })
        .collect()
}

/// Plays a game to its end; every answer points at `target`, and night
/// answers carry the word "secret". Returns every message sent, with the
/// role of the seat it went to when it was sent.
fn play_out(n: usize, target: usize) -> (Mafia<()>, Vec<(Option<Role>, String)>) {
    let mut g = table(n);
    let mut sent = Vec::new();
    let mut reply = Reply::Resume;
    let mut steps = 0;
    while g.phase != Phase::End && g.phase != Phase::Error {
        steps += 1;
        assert!(steps < 100_000);
        let r = g.run_game(reply);
        for e in r.effects.iter() {
            if let Effect::Send { to, text } = e {
                sent.push((g.players[*to].player.as_ref().map(|p| p.role), text.clone()));
            }
        }
        reply = match r.need {
            Need::Done | Need::Resume => Reply::Resume,
            Need::Poll(_) => Reply::Polled(ListenPoll::Waiting),
            Need::Read { readers, len } => {
                let word = if matches!(g.phase, Phase::PreKill | Phase::Kill) { "secret" } else { "open" };
                Reply::Ballots(readers.iter().map(|_| answers(len, target, word)).collect())
            },
        };
    }
    (g, sent)
}

#[test]
fn night_answers_reach_only_the_mafia() {
    for target in [0usize, 3, 7] {
        let (_, sent) = play_out(8, target);
        assert!(sent.iter().any(|(_, t)| t.contains("secret")));
        for (role, text) in sent.iter() {
            if role.is_some() && *role != Some(Role::Mafia) && !text.starts_with("End") {
                assert!(!text.contains("secret"), "{}", text);
            }
        }
    }
}

#[test]
fn a_game_without_votes_ends_on_day_100() {
    let mut g = table(8);
    let mut rounds = 0;
    while g.phase != Phase::End {
        round(&mut g, &|_| answers(8, 99, "0").into_iter().map(|mut a| { a.key = Some(0); a }).collect());
        rounds += 1;
        assert!(rounds <= 5 * 101 + 2);
        assert!(g.day <= 100);
    }
    assert_eq!(g.day, 100);
    assert_eq!(g.mafia_left, living(&g, true));
    assert_eq!(g.innocent_left, living(&g, false));
}
