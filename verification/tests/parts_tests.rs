use mafia_server::connection::{ConnectedPlayer, ConnectionStatus, ListenPoll, Player, SocketStatus};
use mafia_server::player::{Guess, MafiaPlayer, Role, Status};
use mafia_server::tally::{ballot_top, max_index};
use mafia_server::text::push_decimal;
use mafia_server::wire::{byte_be_to_usize, encode_frame};

fn seat(socket: SocketStatus) -> ConnectedPlayer<MafiaPlayer, u32> {
    ConnectedPlayer { socket, has_stream: false, link: 7, player: None, failure_count: 0 }
}

fn guess(key: Option<i64>, text: &str) -> Guess {
    Guess { key, text: text.to_string() }
}

#[test]
fn header_folds_four_bits_per_byte() {
    assert_eq!(byte_be_to_usize(&vec![]), 0);
    assert_eq!(byte_be_to_usize(&vec![7]), 7);
    assert_eq!(byte_be_to_usize(&vec![1, 2]), 0x12);
    assert_eq!(byte_be_to_usize(&vec![0x10, 0x01]), 0x101);
    assert_eq!(byte_be_to_usize(&vec![0x0f, 0xf0]), 0xf0);
    assert_eq!(byte_be_to_usize(&vec![0, 0, 0, 0, 0, 0, 0, 5]), 5);
}

#[test]
fn header_loses_the_bits_shifted_out() {
    let bytes = vec![0xff; 20];
    let mut expected: usize = 0;
    for b in bytes.iter() {
        expected = (expected << 4) | (*b as usize);
    }
    assert_eq!(byte_be_to_usize(&bytes), expected);
    assert_eq!(byte_be_to_usize(&bytes), usize::MAX);
}

#[test]
fn frame_is_length_then_bytes() {
    let f = encode_frame("hi");
    let mut expected = 2usize.to_be_bytes().to_vec();
    expected.extend_from_slice(b"hi");
    assert_eq!(f, expected);
    let f = encode_frame("é");
    assert_eq!(&f[..std::mem::size_of::<usize>()], &2usize.to_be_bytes());
    assert_eq!(&f[std::mem::size_of::<usize>()..], "é".as_bytes());
    assert_eq!(encode_frame(""), 0usize.to_be_bytes().to_vec());
}

#[test]
fn max_index_takes_the_first_largest() {
    assert_eq!(max_index(&vec![]), None);
    assert_eq!(max_index(&vec![0]), Some(0));
    assert_eq!(max_index(&vec![3, 5, 5, 1]), Some(1));
    assert_eq!(max_index(&vec![0, 0, 0]), Some(0));
    assert_eq!(max_index(&vec![1, 2, 3]), Some(2));
}

#[test]
fn ballot_top_follows_strictly_greater_numbers() {
    assert_eq!(ballot_top(&vec![]), None);
    let b = vec![guess(Some(1), "1"), guess(Some(3), "3"), guess(Some(3), "3.0"), guess(Some(-2), "-2")];
    assert_eq!(ballot_top(&b), Some(1));
    // a number that compares with nothing never takes over, and is never beaten
    let b = vec![guess(Some(1), "1"), guess(None, "NaN"), guess(Some(5), "5")];
    assert_eq!(ballot_top(&b), Some(2));
    let b = vec![guess(None, "NaN"), guess(Some(5), "5")];
    assert_eq!(ballot_top(&b), Some(0));
}

#[test]
fn decimal_notation() {
    for n in [0usize, 7, 10, 99, 100, 12345, usize::MAX] {
        let mut s = String::from("x");
        push_decimal(&mut s, n);
        assert_eq!(s, format!("x{}", n));
    }
}

#[test]
fn player_texts() {
    let p = MafiaPlayer {
        role: Role::Mafia,
        status: Status::Alive,
        id: 3,
        guesses: vec![guess(Some(0), "0"), guess(Some(1), "0.5")],
        hid_guess: vec![guess(Some(2), "2")],
    };
    assert_eq!(p.get_state(), "Player: 3, Role: Mafia, Status: Alive");
    assert_eq!(p.get_public_state(), "Status: Alive, 0, 0.5");
    assert_eq!(p.get_private_state(), "Status: Alive, 2");
    let q = MafiaPlayer { role: Role::Detective, status: Status::Dead, id: 200, guesses: vec![], hid_guess: vec![] };
    assert_eq!(q.get_state(), "Player: 200, Role: Detective, Status: Dead");
    assert_eq!(q.get_public_state(), "Status: Dead");
}

#[test]
fn seats_without_players_count_as_dead_innocents() {
    let s = seat(SocketStatus::Connected);
    assert_eq!(s.get_status(), Status::Dead);
    assert_eq!(s.get_role(), Role::Innocent);
}

#[test]
fn listening_seat_waits_and_counts() {
    let mut s = seat(SocketStatus::Listening);
    assert_eq!(s.check_connections(ListenPoll::Waiting), (ConnectionStatus::NotConnected, false));
    assert_eq!(s.socket, SocketStatus::Listening);
    assert_eq!(s.failure_count, 1);
    assert_eq!(s.link, 7);
}

#[test]
fn accepted_seat_is_connected_next_time() {
    let mut s = seat(SocketStatus::Listening);
    assert_eq!(s.check_connections(ListenPoll::Accepted), (ConnectionStatus::NotConnected, false));
    assert_eq!(s.socket, SocketStatus::Connected);
    assert!(s.has_stream);
    assert_eq!(s.check_connections(ListenPoll::Waiting), (ConnectionStatus::Connected, false));
    assert_eq!(s.failure_count, 0);
}

#[test]
fn refused_seat_breaks() {
    let mut s = seat(SocketStatus::Listening);
    assert_eq!(s.check_connections(ListenPoll::Refused), (ConnectionStatus::NotConnected, false));
    assert_eq!(s.socket, SocketStatus::ConnectionError);
    assert_eq!(s.check_connections(ListenPoll::Accepted), (ConnectionStatus::Error, true));
    assert_eq!(s.socket, SocketStatus::ConnectionError);
}

#[test]
fn uninitialized_seat_counts_failures() {
    let mut s = seat(SocketStatus::Uninitialized);
    for k in 1..=3 {
        assert_eq!(s.check_connections(ListenPoll::Accepted), (ConnectionStatus::NotConnected, false));
        assert_eq!(s.failure_count, k);
    }
    assert_eq!(s.socket, SocketStatus::Uninitialized);
}

#[test]
fn many_failures_change_nothing_by_themselves() {
    let mut s = seat(SocketStatus::Connected);
    s.failure_count = 500;
    assert_eq!(s.check_connections(ListenPoll::Waiting), (ConnectionStatus::Connected, false));
    assert_eq!(s.socket, SocketStatus::Connected);
}

#[test]
fn broken_seat_is_reported_at_every_check() {
    let mut s = seat(SocketStatus::Hold);
    s.has_stream = true;
    assert_eq!(s.check_connections(ListenPoll::Waiting), (ConnectionStatus::Error, true));
    assert!(!s.has_stream);
    assert_eq!(s.socket, SocketStatus::ConnectionError);
    assert_eq!(s.check_connections(ListenPoll::Waiting), (ConnectionStatus::Error, true));
    assert!(!s.has_stream);
}

#[test]
fn small_headers_read_back() {
    for n in 0..256usize {
        assert_eq!(byte_be_to_usize(&n.to_be_bytes().to_vec()), n);
    }
    assert_eq!(byte_be_to_usize(&256usize.to_be_bytes().to_vec()), 16);
    let frame = encode_frame("hello");
    assert_eq!(byte_be_to_usize(&frame[..std::mem::size_of::<usize>()].to_vec()), 5);
}

#[test]
fn hex_digit_headers_spell_their_number() {
    assert_eq!(byte_be_to_usize(&vec![1, 2, 3]), 0x123);
    assert_eq!(byte_be_to_usize(&vec![0xf; 16]), usize::MAX);
    assert_eq!(byte_be_to_usize(&vec![0xa, 0, 0xb]), 0xa0b);
}
