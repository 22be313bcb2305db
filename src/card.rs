use vstd::prelude::*;
use vstd::string::*;

verus! {

/// Why a card name could not be read.
#[derive(Clone, Copy, Debug, PartialEq, Eq, Structural)]
pub enum ParseError {
    /// The name is not exactly two characters long.
    WrongLength,
    /// The first character is not one of `23456789TJQKA`.
    UnknownRank,
    /// The second character is not one of `cdhs` (either case).
    UnknownSuit,
}

/// A playing card, identified by `id_ = 4 * rank + suit`, with rank 0 (Two)
/// to 12 (Ace) and suit 0 (clubs), 1 (diamonds), 2 (hearts), 3 (spades).
#[derive(Clone, Copy, Debug, PartialEq, Eq, Structural)]
pub struct Card {
    pub id_: i32,
}

/// The rank index (0 for Two to 12 for Ace) of a rank symbol, if it is one.
pub open spec fn rank_of_char(c: char) -> Option<int> {
    if c == '2' { Some(0) }
    else if c == '3' { Some(1) }
    else if c == '4' { Some(2) }
    else if c == '5' { Some(3) }
    else if c == '6' { Some(4) }
    else if c == '7' { Some(5) }
    else if c == '8' { Some(6) }
    else if c == '9' { Some(7) }
    else if c == 'T' { Some(8) }
    else if c == 'J' { Some(9) }
    else if c == 'Q' { Some(10) }
    else if c == 'K' { Some(11) }
    else if c == 'A' { Some(12) }
    else { None }
}

/// The suit index of a suit symbol, read in either case, if it is one.
pub open spec fn suit_of_char(c: char) -> Option<int> {
    if c == 'c' || c == 'C' { Some(0) }
    else if c == 'd' || c == 'D' { Some(1) }
    else if c == 'h' || c == 'H' { Some(2) }
    else if c == 's' || c == 'S' { Some(3) }
    else { None }
}

/// The symbol of a rank index.
pub open spec fn rank_char(r: int) -> char {
    if r == 0 { '2' }
    else if r == 1 { '3' }
    else if r == 2 { '4' }
    else if r == 3 { '5' }
    else if r == 4 { '6' }
    else if r == 5 { '7' }
    else if r == 6 { '8' }
    else if r == 7 { '9' }
    else if r == 8 { 'T' }
    else if r == 9 { 'J' }
    else if r == 10 { 'Q' }
    else if r == 11 { 'K' }
    else { 'A' }
}

/// Names are written with lower-case suit symbols.
pub open spec fn suit_char(s: int) -> char {
    if s == 0 { 'c' }
    else if s == 1 { 'd' }
    else if s == 2 { 'h' }
    else { 's' }
}

/// The two-character name of a card id.
pub open spec fn card_name(id: int) -> Seq<char> {
    seq![rank_char(id / 4), suit_char(id % 4)]
}

/// What reading a name gives.
pub open spec fn parse_name(name: Seq<char>) -> Result<int, ParseError> {
    if name.len() != 2 {
        Err(ParseError::WrongLength)
    } else if rank_of_char(name[0]) is None {
        Err(ParseError::UnknownRank)
    } else if suit_of_char(name[1]) is None {
        Err(ParseError::UnknownSuit)
    } else {
        Ok(4 * rank_of_char(name[0])->0 + suit_of_char(name[1])->0)
    }
}

pub open spec fn rank_word(r: int) -> Seq<char> {
    if r == 0 { seq!['2'] }
    else if r == 1 { seq!['3'] }
    else if r == 2 { seq!['4'] }
    else if r == 3 { seq!['5'] }
    else if r == 4 { seq!['6'] }
    else if r == 5 { seq!['7'] }
    else if r == 6 { seq!['8'] }
    else if r == 7 { seq!['9'] }
    else if r == 8 { seq!['1', '0'] }
    else if r == 9 { seq!['J', 'a', 'c', 'k'] }
    else if r == 10 { seq!['Q', 'u', 'e', 'e', 'n'] }
    else if r == 11 { seq!['K', 'i', 'n', 'g'] }
    else { seq!['A', 'c', 'e'] }
}

pub open spec fn suit_word(s: int) -> Seq<char> {
    if s == 0 { seq!['C', 'l', 'u', 'b', 's'] }
    else if s == 1 { seq!['D', 'i', 'a', 'm', 'o', 'n', 'd', 's'] }
    else if s == 2 { seq!['H', 'e', 'a', 'r', 't', 's'] }
    else { seq!['S', 'p', 'a', 'd', 'e', 's'] }
}

/// The long name of a card id, such as `Queen of Hearts`.
pub open spec fn card_long_name(id: int) -> Seq<char> {
    rank_word(id / 4) + seq![' ', 'o', 'f', ' '] + suit_word(id % 4)
}

/// Reading the name of a card gives the card back.
pub proof fn lemma_name_round_trip(id: int)
    requires
        0 <= id < 52,
    ensures
        parse_name(card_name(id)) == Ok::<int, ParseError>(id),
{
}

fn rank_index(c: char) -> (r: Option<i32>)
    ensures
        r matches Some(v) ==> rank_of_char(c) == Some(v as int),
        r is None ==> rank_of_char(c) is None,
{
    match c {
        '2' => Some(0),
        '3' => Some(1),
        '4' => Some(2),
        '5' => Some(3),
        '6' => Some(4),
        '7' => Some(5),
        '8' => Some(6),
        '9' => Some(7),
        'T' => Some(8),
        'J' => Some(9),
        'Q' => Some(10),
        'K' => Some(11),
        'A' => Some(12),
        _ => None,
    }
}

fn suit_index(c: char) -> (s: Option<i32>)
    ensures
        s matches Some(v) ==> suit_of_char(c) == Some(v as int),
        s is None ==> suit_of_char(c) is None,
{
    match c {
        'c' | 'C' => Some(0),
        'd' | 'D' => Some(1),
        'h' | 'H' => Some(2),
        's' | 'S' => Some(3),
        _ => None,
    }
}

fn rank_text(r: i32) -> (t: &'static str)
    requires
        0 <= r < 13,
    ensures
        t@ == seq![rank_char(r as int)],
{
    proof {
        reveal_strlit("2"); reveal_strlit("3"); reveal_strlit("4"); reveal_strlit("5");
        reveal_strlit("6"); reveal_strlit("7"); reveal_strlit("8"); reveal_strlit("9");
        reveal_strlit("T"); reveal_strlit("J"); reveal_strlit("Q"); reveal_strlit("K");
        reveal_strlit("A");
    }
    match r {
        0 => "2",
        1 => "3",
        2 => "4",
        3 => "5",
        4 => "6",
        5 => "7",
        6 => "8",
        7 => "9",
        8 => "T",
        9 => "J",
        10 => "Q",
        11 => "K",
        _ => "A",
    }
}

fn suit_text(s: i32) -> (t: &'static str)
    requires
        0 <= s < 4,
    ensures
        t@ == seq![suit_char(s as int)],
{
    proof {
        reveal_strlit("c"); reveal_strlit("d"); reveal_strlit("h"); reveal_strlit("s");
    }
    match s {
        0 => "c",
        1 => "d",
        2 => "h",
        _ => "s",
    }
}

fn rank_long_text(r: i32) -> (t: &'static str)
    requires
        0 <= r < 13,
    ensures
        t@ == rank_word(r as int),
{
    proof {
        reveal_strlit("2"); reveal_strlit("3"); reveal_strlit("4"); reveal_strlit("5");
        reveal_strlit("6"); reveal_strlit("7"); reveal_strlit("8"); reveal_strlit("9");
        reveal_strlit("10"); reveal_strlit("Jack"); reveal_strlit("Queen");
        reveal_strlit("King"); reveal_strlit("Ace");
    }
    match r {
        0 => "2",
        1 => "3",
        2 => "4",
        3 => "5",
        4 => "6",
        5 => "7",
        6 => "8",
        7 => "9",
        8 => "10",
        9 => "Jack",
        10 => "Queen",
        11 => "King",
        _ => "Ace",
    }
}

fn suit_long_text(s: i32) -> (t: &'static str)
    requires
        0 <= s < 4,
    ensures
        t@ == suit_word(s as int),
{
    proof {
        reveal_strlit("Clubs"); reveal_strlit("Diamonds"); reveal_strlit("Hearts");
        reveal_strlit("Spades");
    }
    match s {
        0 => "Clubs",
        1 => "Diamonds",
        2 => "Hearts",
        _ => "Spades",
    }
}

impl Card {
    /// A card is valid when its id lies in `0..52`.
    pub open spec fn wf(self) -> bool {
        0 <= self.id_ < 52
    }

    pub open spec fn rank(self) -> int {
        self.id_ as int / 4
    }

    pub open spec fn suit(self) -> int {
        self.id_ as int % 4
    }

    pub fn from_id(id_: i32) -> (c: Card)
        ensures
            c.id_ == id_,
    {
        Card { id_ }
    }

    /// Reads a two-character name such as `Ah` or `Tc`.
    pub fn from_name(name: String) -> (r: Result<Card, ParseError>)
        ensures
            r matches Ok(c) ==> parse_name(name@) == Ok::<int, ParseError>(c.id_ as int) && c.wf(),
            r matches Err(e) ==> parse_name(name@) == Err::<int, ParseError>(e),
    {
        let s = name.as_str();
        if s.unicode_len() != 2 {
            return Err(ParseError::WrongLength);
        }
        let rank = match rank_index(s.get_char(0)) {
            Some(v) => v,
            None => return Err(ParseError::UnknownRank),
        };
        let suit = match suit_index(s.get_char(1)) {
            Some(v) => v,
            None => return Err(ParseError::UnknownSuit),
        };
        Ok(Card { id_: rank * 4 + suit })
    }

    /// The two-character name, with an upper-case rank and a lower-case suit.
    pub fn to_name(&self) -> (r: String)
        requires
            self.wf(),
        ensures
            r@ == card_name(self.id_ as int),
    {
        let mut r = String::from_str(rank_text(self.id_ / 4));
        r.append(suit_text(self.id_ % 4));
        r
    }

    /// The long name, such as `10 of Clubs` or `Ace of Spades`.
    pub fn to_clean_name(&self) -> (r: String)
        requires
            self.wf(),
        ensures
            r@ == card_long_name(self.id_ as int),
    {
        proof {
            reveal_strlit(" of ");
        }
        let mut r = String::from_str(rank_long_text(self.id_ / 4));
        r.append(" of ");
        r.append(suit_long_text(self.id_ % 4));
        r
    }

    pub fn index(&self) -> (r: usize)
        requires
            self.wf(),
        ensures
            r as int == self.id_ as int,
    {
        self.id_ as usize
    }

    /// The card listed under `card_number` when the pack is listed from 1,
    /// Two of Clubs first and Ace of Spades last.
    pub fn by_number(card_number: usize) -> (r: Option<Card>)
        ensures
            r matches Some(c) ==> c.id_ as int == card_number - 1 && c.wf(),
            r is Some <==> 1 <= card_number <= 52,
    {
        if card_number >= 1 && card_number <= 52 {
            Some(Card { id_: (card_number - 1) as i32 })
        } else {
            None
        }
    }

    /// The suit index, 0 (clubs) to 3 (spades).
    pub fn suit_number(&self) -> (s: i32)
        requires
            self.wf(),
        ensures
            s as int == self.suit(),
    {
        self.id_ % 4
    }

    pub fn int32(&self) -> (r: i32)
        ensures
            r == self.id_,
    {
        self.id_
    }
}

} // verus!
