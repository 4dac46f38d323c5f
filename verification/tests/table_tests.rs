use mafia_server::connection::ListenPoll;
use mafia_server::mafia::{ConnectedPlayer, Game, Phase, Role, Status, TcpStatus, check_games_step, game_over, seat_arrivals};

fn seat(stream: TcpStatus) -> ConnectedPlayer<()> {
    ConnectedPlayer { stream, link: (), player: None }
}

#[test]
fn table_roles_include_a_doctor() {
    let g: Game<()> = Game::new(8);
    let roles = g.create_role_vec();
    assert_eq!(roles[..2], [Role::Doctor, Role::Detective]);
    assert_eq!(roles.iter().filter(|r| **r == Role::Mafia).count(), 2);
    assert_eq!(roles.len(), 8);
    let g: Game<()> = Game::new(1);
    assert_eq!(g.create_role_vec(), vec![Role::Doctor, Role::Detective]);
}

#[test]
fn table_deals_when_all_connect() {
    let mut g: Game<()> = Game::new(8);
    for _ in 0..8 {
        g.players.push(seat(TcpStatus::Listening));
    }
    let polls = vec![ListenPoll::Accepted; 8];
    g.run_game(&polls);
    assert_eq!(g.phase, Phase::Detect);
    assert!(g.players.iter().all(|p| p.stream == TcpStatus::Connected));
    for (i, p) in g.players.iter().enumerate() {
        let p = p.player.unwrap();
        assert_eq!(p.id as usize, i);
        assert_eq!(p.status, Status::Alive);
    }
    let mut dealt: Vec<Role> = g.players.iter().map(|p| p.player.unwrap().role).collect();
    let mut all = g.create_role_vec();
    dealt.sort_by_key(|r| *r as u8);
    all.sort_by_key(|r| *r as u8);
    assert_eq!(dealt, all);
}

#[test]
fn table_moves_on_without_dealing_when_someone_is_missing() {
    let mut g: Game<()> = Game::new(8);
    g.players.push(seat(TcpStatus::Listening));
    g.players.push(seat(TcpStatus::Listening));
    g.run_game(&vec![ListenPoll::Accepted, ListenPoll::Waiting]);
    assert_eq!(g.phase, Phase::Detect);
    assert!(g.players.iter().all(|p| p.player.is_none()));
    assert_eq!(g.players[0].stream, TcpStatus::Connected);
    assert_eq!(g.players[1].stream, TcpStatus::Listening);
    // later phases do nothing
    g.run_game(&vec![ListenPoll::Accepted, ListenPoll::Accepted]);
    assert_eq!(g.players[1].stream, TcpStatus::Listening);
}

#[test]
fn checking_a_connected_seat_puts_it_on_hold() {
    let mut s = seat(TcpStatus::Connected);
    assert!(!s.check_connections(ListenPoll::Accepted));
    assert_eq!(s.stream, TcpStatus::Hold);
    let mut s = seat(TcpStatus::Listening);
    assert!(!s.check_connections(ListenPoll::Refused));
    assert_eq!(s.stream, TcpStatus::ConnectionError);
}

#[test]
fn table_lobby_waits_for_one_more_than_the_limit() {
    let (lobby, full) = check_games_step(None, seat(TcpStatus::Listening));
    assert!(full.is_none());
    let mut lobby = lobby;
    for _ in 1..8 {
        let (next, full) = check_games_step(lobby, seat(TcpStatus::Listening));
        assert!(full.is_none());
        lobby = next;
    }
    assert_eq!(lobby.as_ref().unwrap().players.len(), 8);
    let (next, full) = check_games_step(lobby, seat(TcpStatus::Listening));
    assert!(next.is_none());
    assert_eq!(full.unwrap().players.len(), 9);
}

#[test]
fn table_is_over_only_at_the_end() {
    let mut g: Game<()> = Game::new(8);
    assert!(!game_over(&g));
    g.phase = Phase::End;
    assert!(game_over(&g));
}

#[test]
fn table_arrivals_are_cut_into_tables_of_nine() {
    let arrivals: Vec<ConnectedPlayer<u32>> =
        (0..20u32).map(|k| ConnectedPlayer { stream: TcpStatus::Listening, link: k, player: None }).collect();
    let (lobby, full) = seat_arrivals(None, arrivals);
    assert_eq!(full.len(), 2);
    for (j, t) in full.iter().enumerate() {
        let links: Vec<u32> = t.players.iter().map(|p| p.link).collect();
        assert_eq!(links, ((9 * j as u32)..(9 * j as u32 + 9)).collect::<Vec<u32>>());
        assert_eq!(t.max_players, 8);
        assert_eq!(t.phase, Phase::Start);
        assert_eq!((t.mafia_left, t.innocent_left), (0, 0));
    }
    let links: Vec<u32> = lobby.unwrap().players.iter().map(|p| p.link).collect();
    assert_eq!(links, vec![18, 19]);
}

#[test]
fn table_past_the_start_reads_no_poll() {
    let mut g: Game<()> = Game::new(8);
    g.players.push(seat(TcpStatus::Listening));
    g.phase = Phase::Detect;
    g.run_game(&vec![]);
    assert_eq!(g.phase, Phase::Detect);
    assert_eq!(g.players[0].stream, TcpStatus::Listening);
}
