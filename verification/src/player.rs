use vstd::prelude::*;
use crate::connection::Player;
use crate::text::{decimal, push_decimal};

verus! {

#[derive(PartialEq, Eq, Structural, Clone, Copy, Debug)]
pub enum Status {
    Alive,
    Dead,
}

#[derive(PartialEq, Eq, Structural, Clone, Copy, Debug)]
pub enum Role {
    Innocent,
    Detective,
    Mafia,
}

/// One number of a player's answer. `key` orders the numbers as the numbers
/// themselves compare (`None` for a value that compares with nothing) and is
/// zero exactly for zero; `text` is how the number is printed.
pub struct Guess {
    pub key: Option<i64>,
    pub text: String,
}

pub struct GuessView {
    pub key: Option<i64>,
    pub text: Seq<char>,
}

impl View for Guess {
    type V = GuessView;

    open spec fn view(&self) -> GuessView {
        GuessView { key: self.key, text: self.text@ }
    }
}

/// The numbers a player answered with, in order.
pub open spec fn ballot_view(b: Seq<Guess>) -> Seq<GuessView> {
    b.map_values(|g: Guess| g@)
}

/// A player of the game: role, whether alive, seat number, and the last
/// public and hidden guesses.
pub struct MafiaPlayer {
    pub role: Role,
    pub status: Status,
    pub id: u8,
    pub guesses: Vec<Guess>,
    pub hid_guess: Vec<Guess>,
}

pub struct PlayerView {
    pub role: Role,
    pub status: Status,
    pub id: u8,
    pub guesses: Seq<GuessView>,
    pub hid_guess: Seq<GuessView>,
}

impl View for MafiaPlayer {
    type V = PlayerView;

    open spec fn view(&self) -> PlayerView {
        PlayerView {
            role: self.role,
            status: self.status,
            id: self.id,
            guesses: ballot_view(self.guesses@),
            hid_guess: ballot_view(self.hid_guess@),
        }
    }
}

pub open spec fn role_name(r: Role) -> Seq<char> {
    match r {
        Role::Innocent => "Innocent"@,
        Role::Detective => "Detective"@,
        Role::Mafia => "Mafia"@,
    }
}

pub open spec fn status_name(s: Status) -> Seq<char> {
    match s {
        Status::Alive => "Alive"@,
        Status::Dead => "Dead"@,
    }
}

/// `Player: <id>, Role: <role>, Status: <status>`
pub open spec fn player_text(p: PlayerView) -> Seq<char> {
    "Player: "@ + decimal(p.id as nat) + ", Role: "@ + role_name(p.role) + ", Status: "@
        + status_name(p.status)
}

/// `, <g1>, <g2>, ...`
pub open spec fn guesses_text(gs: Seq<GuessView>) -> Seq<char>
    decreases gs.len(),
{
    if gs.len() == 0 {
        Seq::empty()
    } else {
        guesses_text(gs.drop_last()) + ", "@ + gs.last().text
    }
}

/// `Status: <status>, <guess>, ...` with the public guesses.
pub open spec fn public_text(p: PlayerView) -> Seq<char> {
    "Status: "@ + status_name(p.status) + guesses_text(p.guesses)
}

/// `Status: <status>, <guess>, ...` with the hidden guesses.
pub open spec fn private_text(p: PlayerView) -> Seq<char> {
    "Status: "@ + status_name(p.status) + guesses_text(p.hid_guess)
}

pub fn role_str(r: Role) -> (s: &'static str)
    ensures
        s@ == role_name(r),
{
    proof {
        reveal_strlit("Innocent");
        reveal_strlit("Detective");
        reveal_strlit("Mafia");
    }
    match r {
        Role::Innocent => "Innocent",
        Role::Detective => "Detective",
        Role::Mafia => "Mafia",
    }
}

pub fn status_str(s: Status) -> (t: &'static str)
    ensures
        t@ == status_name(s),
{
    proof {
        reveal_strlit("Alive");
        reveal_strlit("Dead");
    }
    match s {
        Status::Alive => "Alive",
        Status::Dead => "Dead",
    }
}

/// Appends `, <text>` for every guess.
pub fn push_guesses(out: &mut String, gs: &Vec<Guess>)
    ensures
        final(out)@ == old(out)@ + guesses_text(ballot_view(gs@)),
{
    let n = gs.len();
    for i in 0..n
        invariant
            n == gs@.len(),
            out@ == old(out)@ + guesses_text(ballot_view(gs@.take(i as int))),
    {
        proof {
            reveal_strlit(", ");
            assert(ballot_view(gs@.take(i + 1)).drop_last() =~= ballot_view(gs@.take(i as int)));
        }
        out.append(", ");
        out.append(gs[i].text.as_str());
        assert(out@ =~= old(out)@ + guesses_text(ballot_view(gs@.take(i + 1))));
    }
    assert(gs@.take(n as int) =~= gs@);
}

/// A copy of an answer.
pub fn copy_ballot(b: &Vec<Guess>) -> (r: Vec<Guess>)
    ensures
        ballot_view(r@) == ballot_view(b@),
{
    let mut r: Vec<Guess> = Vec::new();
    let n = b.len();
    for i in 0..n
        invariant
            n == b@.len(),
            r@.len() == i,
            forall|j: int| 0 <= j < i ==> #[trigger] r@[j]@ == b@[j]@,
    {
        let g = Guess { key: b[i].key, text: b[i].text.clone() };
        r.push(g);
    }
    assert(ballot_view(r@) =~= ballot_view(b@));
    r
}

impl Player for MafiaPlayer {
    fn get_state(&self) -> (s: String)
        ensures
            s@ == player_text(self@),
    {
        proof {
            reveal_strlit("Player: ");
            reveal_strlit(", Role: ");
            reveal_strlit(", Status: ");
        }
        let mut s = String::from_str("Player: ");
        push_decimal(&mut s, self.id as usize);
        s.append(", Role: ");
        s.append(role_str(self.role));
        s.append(", Status: ");
        s.append(status_str(self.status));
        s
    }
}

impl MafiaPlayer {
    pub fn get_public_state(&self) -> (s: String)
        ensures
            s@ == public_text(self@),
    {
        proof {
            reveal_strlit("Status: ");
        }
        let mut s = String::from_str("Status: ");
        s.append(status_str(self.status));
        push_guesses(&mut s, &self.guesses);
        s
    }

    pub fn get_private_state(&self) -> (s: String)
        ensures
            s@ == private_text(self@),
    {
        proof {
            reveal_strlit("Status: ");
        }
        let mut s = String::from_str("Status: ");
        s.append(status_str(self.status));
        push_guesses(&mut s, &self.hid_guess);
        s
    }
}

} // verus!
