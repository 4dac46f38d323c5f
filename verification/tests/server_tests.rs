use mafia_server::connection::{ConnectedPlayer, ListenPoll, SocketStatus};
use mafia_server::game::Mafia;
use mafia_server::model::Phase;
use mafia_server::player::MafiaPlayer;
use mafia_server::server::{Game, admit_arrivals, game_finished, join_lobby, release_player};

fn seat(link: u32) -> ConnectedPlayer<MafiaPlayer, u32> {
    ConnectedPlayer { socket: SocketStatus::Connected, has_stream: true, link, player: None, failure_count: 0 }
}

#[test]
fn lobby_fills_a_table_of_eight() {
    let mut lobby: Option<Mafia<u32>> = None;
    for k in 0..7u32 {
        let (next, full) = join_lobby(lobby, seat(k));
        assert!(full.is_none());
        lobby = next;
        assert_eq!(lobby.as_ref().unwrap().player_list().len(), (k + 1) as usize);
    }
    let (next, full) = join_lobby(lobby, seat(7));
    assert!(next.is_none());
    let full = full.unwrap();
    assert_eq!(full.max_players(), 8);
    let links: Vec<u32> = full.player_list().iter().map(|p| p.link).collect();
    assert_eq!(links, (0..8).collect::<Vec<u32>>());
    // the next player opens a new table
    let (next, full2) = join_lobby(None::<Mafia<u32>>, seat(8));
    assert!(full2.is_none());
    assert_eq!(next.unwrap().player_list().len(), 1);
}

#[test]
fn a_small_table_fills_at_its_limit() {
    let small: Mafia<u32> = Game::new(1);
    let (next, full) = join_lobby(Some(small), seat(0));
    assert!(next.is_none());
    assert_eq!(full.unwrap().player_list().len(), 1);
}

#[test]
fn finished_games_give_players_back() {
    let mut g: Mafia<u32> = Game::new(8);
    assert!(!game_finished(&g));
    g.phase = Phase::End;
    assert!(game_finished(&g));
    g.phase = Phase::Error;
    assert!(game_finished(&g));
    g.phase = Phase::Vote;
    assert!(!game_finished(&g));
}

#[test]
fn released_players_stay_unless_broken() {
    let mut ok = seat(1);
    assert_eq!(release_player(&mut ok, ListenPoll::Waiting), (true, false));
    let mut waiting = seat(2);
    waiting.socket = SocketStatus::Listening;
    waiting.has_stream = false;
    assert_eq!(release_player(&mut waiting, ListenPoll::Waiting), (true, false));
    assert_eq!(waiting.failure_count, 1);
    let mut broken = seat(3);
    broken.socket = SocketStatus::ConnectionError;
    assert_eq!(release_player(&mut broken, ListenPoll::Waiting), (false, true));
    assert!(!broken.has_stream);
}

#[test]
fn max_players_can_be_changed() {
    let mut g: Mafia<u32> = Game::new(8);
    *g.max_players_mut() = 4;
    assert_eq!(g.max_players(), 4);
}

fn links_of(g: &Mafia<u32>) -> Vec<u32> {
    g.player_list().iter().map(|p| p.link).collect()
}

#[test]
fn arrivals_are_cut_into_tables_of_eight() {
    let arrivals: Vec<_> = (0..19u32).map(seat).collect();
    let (lobby, full) = admit_arrivals(None::<Mafia<u32>>, arrivals);
    assert_eq!(full.len(), 2);
    assert_eq!(links_of(&full[0]), (0..8).collect::<Vec<u32>>());
    assert_eq!(links_of(&full[1]), (8..16).collect::<Vec<u32>>());
    assert!(full.iter().all(|t| t.max_players() == 8 && t.phase == Phase::Start));
    assert_eq!(links_of(lobby.as_ref().unwrap()), vec![16, 17, 18]);
}

#[test]
fn arrivals_in_batches_fill_the_same_tables() {
    let (lobby, full) = admit_arrivals(None::<Mafia<u32>>, (0..5u32).map(seat).collect());
    assert!(full.is_empty());
    let (lobby, full) = admit_arrivals(lobby, (5..16u32).map(seat).collect());
    assert_eq!(full.len(), 2);
    assert_eq!(links_of(&full[0]), (0..8).collect::<Vec<u32>>());
    assert_eq!(links_of(&full[1]), (8..16).collect::<Vec<u32>>());
    assert!(lobby.is_none());
    let (lobby, full) = admit_arrivals(lobby, Vec::new());
    assert!(lobby.is_none() && full.is_empty());
}

#[test]
fn a_seats_link_changes_alone() {
    let mut g: Mafia<u32> = Game::new(8);
    g.player_list_mut().push(seat(1));
    g.player_list_mut().push(seat(2));
    *g.link_mut(1) = 9;
    assert_eq!(links_of(&g), vec![1, 9]);
    assert_eq!(g.player_list()[1].socket, SocketStatus::Connected);
    assert!(g.player_list()[1].has_stream);
}
