use mafia_server::connection::{ConnectedPlayer, ListenPoll, SocketStatus};
use mafia_server::game::{Effect, Mafia, Need, Reply, Request, Stage};
use mafia_server::model::Phase;
use mafia_server::player::{Guess, Role, Status};
use mafia_server::server::Game;

fn seat(socket: SocketStatus, has_stream: bool) -> ConnectedPlayer<mafia_server::player::MafiaPlayer, ()> {
    ConnectedPlayer { socket, has_stream, link: (), player: None, failure_count: 0 }
}

fn table(n: usize) -> Mafia<()> {
    let mut g: Mafia<()> = Game::new(n);
    for _ in 0..n {
        g.player_list_mut().push(seat(SocketStatus::Connected, true));
    }
    g
}

fn guess(key: i64, text: &str) -> Guess {
    Guess { key: Some(key), text: text.to_string() }
}

/// A ballot that points at `target` out of `n` seats with the value 1.
fn point_at(target: usize, n: usize) -> Vec<Guess> {
    (0..n).map(|i| if i == target { guess(1, "1") } else { guess(0, "0") }).collect()
}

fn sends(r: &Request) -> Vec<(usize, String)> {
    r.effects
        .iter()
        .filter_map(|e| match e {
            Effect::Send { to, text } => Some((*to, text.clone())),
            Effect::Close { .. } => None,
        })
        .collect()
}

/// Runs a round to its end: every read is answered by `answer`, the answers
/// to the end-of-game message by `at_end`.
fn round_ending(
    g: &mut Mafia<()>,
    answer: &dyn Fn(usize) -> Vec<Guess>,
    at_end: &dyn Fn(usize) -> Vec<Guess>,
) -> Vec<(usize, String)> {
    let mut out = Vec::new();
    let mut reply = Reply::Resume;
    loop {
        let r = g.run_game(reply);
        out.extend(sends(&r));
        match r.need {
            Need::Done => return out,
            Need::Resume => reply = Reply::Resume,
            Need::Poll(_) => reply = Reply::Polled(ListenPoll::Waiting),
            Need::Read { readers, .. } => {
                let closing = matches!(g.stage, Stage::Reading { closing: true, .. });
                reply = Reply::Ballots(
                    readers.iter().map(|i| if closing { at_end(*i) } else { answer(*i) }).collect(),
                )
            },
        }
    }
}

fn round(g: &mut Mafia<()>, answer: &dyn Fn(usize) -> Vec<Guess>) -> Vec<(usize, String)> {
    round_ending(g, answer, &|_| vec![guess(1, "1")])
}

fn role_of(g: &Mafia<()>, i: usize) -> Role {
    g.players[i].get_role()
}

fn zeros(n: usize) -> String {
    (0..n).map(|_| ", 0").collect()
}

#[test]
fn new_game_counts_a_quarter_as_mafia() {
    let g: Mafia<()> = Game::new(8);
    assert_eq!(g.mafia_left, 2);
    assert_eq!(g.innocent_left, 6);
    assert_eq!(g.max_players(), 8);
    assert!(!g.over());
    assert!(!g.error());
    let g: Mafia<()> = Game::new(5);
    assert_eq!(g.mafia_left, 1);
    assert_eq!(g.innocent_left, 4);
}

#[test]
fn role_vec_has_one_detective_and_a_quarter_mafia() {
    let g: Mafia<()> = Game::new(8);
    let roles = g.create_role_vec();
    assert_eq!(roles.len(), 8);
    assert_eq!(roles[0], Role::Detective);
    assert_eq!(roles.iter().filter(|r| **r == Role::Mafia).count(), 2);
    assert_eq!(roles.iter().filter(|r| **r == Role::Innocent).count(), 5);
    let g: Mafia<()> = Game::new(0);
    assert_eq!(g.create_role_vec(), vec![Role::Detective]);
}

#[test]
fn start_deals_every_seat_and_tells_the_mafia() {
    let mut g = table(8);
    let out = round(&mut g, &|_| Vec::new());
    assert_eq!(g.phase, Phase::Detect);
    let mafia: Vec<usize> = (0..8).filter(|i| role_of(&g, *i) == Role::Mafia).collect();
    assert_eq!(mafia.len(), 2);
    assert_eq!((0..8).filter(|i| role_of(&g, *i) == Role::Detective).count(), 1);
    assert_eq!(out.len(), 8 + 4);
    for i in 0..8 {
        let p = g.players[i].player.as_ref().unwrap();
        assert_eq!(p.id as usize, i);
        assert_eq!(p.status, Status::Alive);
        assert_eq!(p.guesses.len(), 8);
        let role = match p.role {
            Role::Mafia => "Mafia",
            Role::Detective => "Detective",
            Role::Innocent => "Innocent",
        };
        assert_eq!(out[i], (i, format!("Start, Player: {}, Role: {}, Status: Alive, 8", i, role)));
    }
    let expected: Vec<(usize, String)> = mafia
        .iter()
        .flat_map(|m| mafia.iter().map(move |k| (*m, format!("Player: {}, Role: Mafia, Status: Alive", k))))
        .collect();
    assert_eq!(out[8..].to_vec(), expected);
}

#[test]
fn shuffled_deals_differ() {
    let mut seen = std::collections::HashSet::new();
    for _ in 0..40 {
        let mut g = table(8);
        round(&mut g, &|_| Vec::new());
        let deal: Vec<Role> = (0..8).map(|i| role_of(&g, i)).collect();
        seen.insert(format!("{:?}", deal));
    }
    assert!(seen.len() > 1);
}

#[test]
fn start_waits_for_listening_seats() {
    let mut g = table(3);
    g.players[1].socket = SocketStatus::Listening;
    let r = g.run_game(Reply::Resume);
    assert!(matches!(r.need, Need::Resume));
    let r = g.run_game(Reply::Resume);
    assert!(matches!(r.need, Need::Resume));
    let r = g.run_game(Reply::Resume);
    assert!(matches!(r.need, Need::Poll(1)));
    let r = g.run_game(Reply::Polled(ListenPoll::Waiting));
    assert!(matches!(r.need, Need::Poll(1)));
    let r = g.run_game(Reply::Polled(ListenPoll::Waiting));
    assert!(matches!(r.need, Need::Done));
    assert_eq!(g.phase, Phase::Start);
    assert_eq!(g.players[1].failure_count, 2);
    assert!(g.players.iter().all(|p| p.player.is_none()));
}

#[test]
fn accepted_connection_joins_on_the_second_check() {
    let mut g = table(1);
    g.players[0].socket = SocketStatus::Listening;
    g.players[0].has_stream = false;
    assert!(matches!(g.run_game(Reply::Resume).need, Need::Poll(0)));
    assert!(matches!(g.run_game(Reply::Polled(ListenPoll::Accepted)).need, Need::Resume));
    assert!(matches!(g.run_game(Reply::Resume).need, Need::Resume));
    let r = g.run_game(Reply::Resume);
    assert!(matches!(r.need, Need::Done));
    assert_eq!(g.phase, Phase::Detect);
    assert!(g.players[0].has_stream);
    assert_eq!(sends(&r), vec![(0, "Start, Player: 0, Role: Detective, Status: Alive, 1".to_string())]);
}

#[test]
fn broken_seat_fails_the_start() {
    let mut g = table(2);
    g.players[1].socket = SocketStatus::ConnectionError;
    let out = round(&mut g, &|_| Vec::new());
    assert!(out.is_empty());
    assert_eq!(g.phase, Phase::Error);
    assert!(g.error());
    // a failed game does nothing more
    let r = g.run_game(Reply::Resume);
    assert!(r.effects.is_empty());
    assert!(matches!(r.need, Need::Done));
}

#[test]
fn hold_seat_is_closed_and_fails_the_start() {
    let mut g = table(1);
    g.players[0].socket = SocketStatus::Hold;
    let r = g.run_game(Reply::Resume);
    assert!(matches!(r.need, Need::Resume));
    let r = g.run_game(Reply::Resume);
    assert!(matches!(r.effects[..], [Effect::Close { seat: 0 }]));
    assert!(!g.players[0].has_stream);
    assert_eq!(g.phase, Phase::Error);
}

#[test]
fn missing_stream_ends_the_game_at_the_deal() {
    let mut g = table(3);
    g.players[1].has_stream = false;
    let out = round(&mut g, &|_| Vec::new());
    assert_eq!(out.len(), 1);
    assert_eq!(g.phase, Phase::End);
    assert_eq!(g.players[1].socket, SocketStatus::ConnectionError);
    assert!(g.players[0].player.is_some() && g.players[1].player.is_some());
    assert!(g.players[2].player.is_none());
    assert!(g.over());
}

fn dealt_table() -> Mafia<()> {
    let mut g = table(8);
    round(&mut g, &|_| Vec::new());
    g
}

fn public_state(g: &Mafia<()>) -> String {
    let mut s = format!("Phase: {:?}, Day: {}", g.phase, g.day);
    for p in g.players.iter() {
        if let Some(p) = &p.player {
            s.push_str(&format!(", Status: {:?}", p.status));
            for x in p.guesses.iter() {
                s.push_str(&format!(", {}", x.text));
            }
        }
    }
    s
}

#[test]
fn detective_asks_and_learns_a_role() {
    let mut g = dealt_table();
    let d = (0..8).find(|i| role_of(&g, *i) == Role::Detective).unwrap();
    let target = (d + 1) % 8;
    let r = g.run_game(Reply::Resume);
    let expected = format!(
        "Action, Player: {}, Role: Detective, Status: Alive, Phase: Detect, Day: 0{}",
        d,
        (0..8).map(|_| format!(", Status: Alive{}", zeros(8))).collect::<String>()
    );
    assert_eq!(sends(&r), vec![(d, expected)]);
    assert_eq!(g.get_state(), public_state(&g));
    match r.need {
        Need::Read { readers, len } => {
            assert_eq!(readers, vec![d]);
            assert_eq!(len, 8);
        },
        _ => panic!("expected a read"),
    }
    let r = g.run_game(Reply::Ballots(vec![point_at(target, 8)]));
    let role = format!("{:?}", role_of(&g, target));
    assert_eq!(sends(&r), vec![(d, format!("Info, Player: {}, Role: {}, Status: Alive", target, role))]);
    assert_eq!(g.phase, Phase::PreVote);
}

#[test]
fn empty_detective_answer_learns_nothing() {
    let mut g = dealt_table();
    round(&mut g, &|_| Vec::new());
    assert_eq!(g.phase, Phase::PreVote);
}

#[test]
fn prevote_records_every_guess() {
    let mut g = dealt_table();
    g.phase = Phase::PreVote;
    let out = round(&mut g, &|i| vec![guess(i as i64, &format!("{}.5", i))]);
    assert_eq!(out.len(), 8);
    assert_eq!(g.phase, Phase::Vote);
    for i in 0..8 {
        let p = g.players[i].player.as_ref().unwrap();
        assert_eq!(p.guesses.len(), 1);
        assert_eq!(p.guesses[0].text, format!("{}.5", i));
        assert_eq!(p.hid_guess[0].text, format!("{}.5", i));
        assert_eq!(p.get_public_state(), format!("Status: Alive, {}.5", i));
    }
}

#[test]
fn majority_vote_kills_and_counts_down() {
    let mut g = dealt_table();
    g.phase = Phase::Vote;
    let m = (0..8).find(|i| role_of(&g, *i) == Role::Mafia).unwrap();
    let out = round(&mut g, &|_| point_at(m, 8));
    assert_eq!(g.players[m].get_status(), Status::Dead);
    assert_eq!(g.mafia_left, 1);
    assert_eq!(g.innocent_left, 6);
    assert_eq!(g.phase, Phase::PreKill);
    let info = format!("Info, Player: {}, Role: Mafia, Status: Dead", m);
    let infos: Vec<&(usize, String)> = out.iter().filter(|(_, t)| *t == info).collect();
    assert_eq!(infos.len(), 7);
    assert!(infos.iter().all(|(to, _)| *to != m));
}

#[test]
fn split_vote_kills_nobody() {
    let mut g = dealt_table();
    g.phase = Phase::Vote;
    let out = round(&mut g, &|i| point_at(i % 2, 8));
    assert!((0..8).all(|i| g.players[i].get_status() == Status::Alive));
    assert_eq!(out.len(), 8);
    assert_eq!(g.phase, Phase::PreKill);
}

#[test]
fn votes_at_zero_or_below_are_not_counted() {
    let mut g = dealt_table();
    g.phase = Phase::Vote;
    let out = round(&mut g, &|_| vec![guess(0, "0"), guess(-3, "-3")]);
    assert_eq!(out.len(), 8);
    assert!((0..8).all(|i| g.players[i].get_status() == Status::Alive));
    // uncounted ballots are not recorded either
    assert!(g.players[0].player.as_ref().unwrap().guesses.len() == 8);
}

#[test]
fn prekill_and_kill_reach_only_the_mafia() {
    let mut g = dealt_table();
    g.phase = Phase::PreKill;
    let mafia: Vec<usize> = (0..8).filter(|i| role_of(&g, *i) == Role::Mafia).collect();
    let out = round(&mut g, &|_| vec![guess(2, "2")]);
    assert_eq!(out.iter().map(|(to, _)| *to).collect::<Vec<_>>(), mafia);
    assert!(out[0].1.contains("Phase: PreKill, Day: 0"));
    assert_eq!(g.phase, Phase::Kill);
    for m in mafia.iter() {
        assert_eq!(g.players[*m].player.as_ref().unwrap().hid_guess[0].text, "2");
        assert_eq!(g.players[*m].player.as_ref().unwrap().guesses.len(), 8);
    }
    let town = (0..8).find(|i| role_of(&g, *i) != Role::Mafia).unwrap();
    let out = round(&mut g, &|_| point_at(town, 8));
    assert_eq!(g.players[town].get_status(), Status::Dead);
    assert_eq!(g.innocent_left, 5);
    assert_eq!(g.day, 1);
    assert_eq!(g.phase, Phase::Detect);
    assert_eq!(out.iter().filter(|(_, t)| t.starts_with("Info, ")).count(), 7);
}

#[test]
fn last_mafia_dead_ends_the_game() {
    let mut g = dealt_table();
    let mafia: Vec<usize> = (0..8).filter(|i| role_of(&g, *i) == Role::Mafia).collect();
    g.phase = Phase::Vote;
    round(&mut g, &|_| point_at(mafia[0], 8));
    g.phase = Phase::Vote;
    let out = round(&mut g, &|_| point_at(mafia[1], 8));
    assert_eq!(g.mafia_left, 0);
    assert_eq!(g.phase, Phase::End);
    let end: Vec<&(usize, String)> = out.iter().filter(|(_, t)| t.starts_with("End")).collect();
    assert_eq!(end.len(), 8);
    assert!(end[0].1.starts_with("End, Player: 0, Role: "));
    // everyone answered with a non-zero first number: everyone stays
    assert!(g.players.iter().all(|p| p.socket == SocketStatus::Connected));
}

#[test]
fn players_who_answer_zero_leave_at_the_end() {
    let mut g = dealt_table();
    let mafia: Vec<usize> = (0..8).filter(|i| role_of(&g, *i) == Role::Mafia).collect();
    g.mafia_left = 1;
    g.phase = Phase::Vote;
    round_ending(&mut g, &|_| point_at(mafia[0], 8), &|i| {
        if i < 2 {
            vec![guess(0, "0"), guess(1, "1")]
        } else if i < 4 {
            Vec::new()
        } else {
            vec![guess(3, "3"), guess(0, "0")]
        }
    });
    assert_eq!(g.phase, Phase::End);
    for i in 0..8 {
        let left = g.players[i].socket == SocketStatus::ConnectionError;
        assert_eq!(left, i < 4);
    }
}

#[test]
fn mafia_at_parity_wins() {
    let mut g = dealt_table();
    g.mafia_left = 2;
    g.innocent_left = 3;
    g.phase = Phase::Vote;
    let town = (0..8).find(|i| role_of(&g, *i) == Role::Innocent).unwrap();
    round(&mut g, &|_| point_at(town, 8));
    assert_eq!(g.innocent_left, 2);
    assert_eq!(g.phase, Phase::End);
}

#[test]
fn day_hundred_ends_the_game() {
    let mut g = dealt_table();
    g.day = 100;
    g.phase = Phase::Kill;
    round(&mut g, &|_| Vec::new());
    assert_eq!(g.phase, Phase::End);
    assert_eq!(g.day, 100);
}

#[test]
fn silent_seat_ends_the_vote() {
    let mut g = dealt_table();
    g.phase = Phase::PreVote;
    g.players[2].has_stream = false;
    let out = round(&mut g, &|_| Vec::new());
    assert_eq!(out.iter().map(|(to, _)| *to).collect::<Vec<_>>(), vec![0, 1]);
    assert_eq!(g.players[2].socket, SocketStatus::ConnectionError);
    assert_eq!(g.phase, Phase::End);
}

#[test]
fn dead_seats_are_skipped_and_private_state_shows_hidden_guesses() {
    let mut g = dealt_table();
    let m = (0..8).find(|i| role_of(&g, *i) == Role::Mafia).unwrap();
    g.phase = Phase::Vote;
    round(&mut g, &|_| point_at(m, 8));
    g.phase = Phase::PreVote;
    let out = round(&mut g, &|_| vec![guess(4, "4")]);
    assert_eq!(out.len(), 7);
    assert!(out.iter().all(|(to, _)| *to != m));
    let private = g.get_private_state();
    assert!(private.starts_with("Phase: Vote, Day: 0, Status: "));
    assert!(private.contains("Status: Dead"));
}
