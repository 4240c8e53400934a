//! Hands of five cards, the type of a hand, and what a set of hands wins.

use vstd::prelude::*;
use crate::glyphs::{all_known, parse_tiles, tiles_of, FromByte, FromLine};
use crate::text::{parse_decimal, spec_decimal, spec_words, split_words};

verus! {

/// The type of a hand, strongest first.
#[derive(Debug, Clone, Copy, PartialEq, Eq, PartialOrd, Ord, Structural)]
pub enum HandType {
    FiveOfAKind,
    FourOfAKind,
    FullHouse,
    ThreeOfAKind,
    TwoPair,
    OnePair,
    HighCard,
}

/// A card, strongest first.
#[derive(Debug, Clone, Copy, PartialEq, Eq, PartialOrd, Ord, Hash, Structural)]
pub enum Card {
    A,
    K,
    Q,
    J,
    T,
    N9,
    N8,
    N7,
    N6,
    N5,
    N4,
    N3,
    N2,
}

/// A hand of cards and the bid placed on it.
#[derive(Debug, Clone, PartialEq, Eq)]
pub struct Hand {
    pub cards: Vec<Card>,
    pub bid: u16,
}

/// The place of a card in the order of strength: zero for the ace, twelve
/// for the two.
pub open spec fn card_rank(c: Card) -> int {
    match c {
        Card::A => 0,
        Card::K => 1,
        Card::Q => 2,
        Card::J => 3,
        Card::T => 4,
        Card::N9 => 5,
        Card::N8 => 6,
        Card::N7 => 7,
        Card::N6 => 8,
        Card::N5 => 9,
        Card::N4 => 10,
        Card::N3 => 11,
        Card::N2 => 12,
    }
}

/// The place of a card when the jack is a joker and the weakest card of all.
pub open spec fn joker_rank(c: Card) -> int {
    if c == Card::J {
        13
    } else {
        card_rank(c)
    }
}

/// The place of a hand type in the order of strength: zero for five of a
/// kind, six for a high card.
pub open spec fn type_rank(t: HandType) -> int {
    match t {
        HandType::FiveOfAKind => 0,
        HandType::FourOfAKind => 1,
        HandType::FullHouse => 2,
        HandType::ThreeOfAKind => 3,
        HandType::TwoPair => 4,
        HandType::OnePair => 5,
        HandType::HighCard => 6,
    }
}

/// The card that a character stands for, if it stands for one.
pub open spec fn spec_card_of(c: char) -> Option<Card> {
    if c == 'A' {
        Some(Card::A)
    } else if c == 'K' {
        Some(Card::K)
    } else if c == 'Q' {
        Some(Card::Q)
    } else if c == 'J' {
        Some(Card::J)
    } else if c == 'T' {
        Some(Card::T)
    } else if c == '9' {
        Some(Card::N9)
    } else if c == '8' {
        Some(Card::N8)
    } else if c == '7' {
        Some(Card::N7)
    } else if c == '6' {
        Some(Card::N6)
    } else if c == '5' {
        Some(Card::N5)
    } else if c == '4' {
        Some(Card::N4)
    } else if c == '3' {
        Some(Card::N3)
    } else if c == '2' {
        Some(Card::N2)
    } else {
        None
    }
}

/// How many of the first `n` cards have the given rank.
pub open spec fn count_of(cards: Seq<Card>, rank: int, n: int) -> int
    decreases n,
{
    if n <= 0 {
        0
    } else {
        count_of(cards, rank, n - 1) + if card_rank(cards[n - 1]) == rank {
            1int
        } else {
            0int
        }
    }
}

/// How many of the ranks below `k`, the jack left out if `skip_jack`, occur
/// among the cards.
pub open spec fn kinds(cards: Seq<Card>, skip_jack: bool, k: int) -> int
    decreases k,
{
    if k <= 0 {
        0
    } else {
        kinds(cards, skip_jack, k - 1) + if count_of(cards, k - 1, cards.len() as int) > 0 && !(
        skip_jack && k - 1 == 3) {
            1int
        } else {
            0int
        }
    }
}

/// The most often that one of the ranks below `k`, the jack left out if
/// `skip_jack`, occurs among the cards.
pub open spec fn most(cards: Seq<Card>, skip_jack: bool, k: int) -> int
    decreases k,
{
    if k <= 0 {
        0
    } else {
        let rest = most(cards, skip_jack, k - 1);
        let here = if skip_jack && k - 1 == 3 {
            0
        } else {
            count_of(cards, k - 1, cards.len() as int)
        };
        if here > rest {
            here
        } else {
            rest
        }
    }
}

/// The type of a hand that shows `kinds` different cards, the most frequent
/// of them `most` times.
pub open spec fn type_of(kinds: int, most: int) -> HandType {
    if kinds <= 1 {
        HandType::FiveOfAKind
    } else if kinds == 2 {
        if most >= 4 {
            HandType::FourOfAKind
        } else {
            HandType::FullHouse
        }
    } else if kinds == 3 {
        if most >= 3 {
            HandType::ThreeOfAKind
        } else {
            HandType::TwoPair
        }
    } else if kinds == 4 {
        HandType::OnePair
    } else {
        HandType::HighCard
    }
}

/// The type of a hand of five cards.
pub open spec fn spec_type(cards: Seq<Card>) -> HandType {
    type_of(kinds(cards, false, 13), most(cards, false, 13))
}

/// The type of a hand of five cards when every jack is a joker that counts
/// as the card that is best for the hand: the most frequent other card.
pub open spec fn spec_joker_type(cards: Seq<Card>) -> HandType {
    type_of(kinds(cards, true, 13), most(cards, true, 13) + count_of(cards, 3, cards.len() as int))
}

impl Card {
    /// Reads a card from its character.
    pub fn parse(c: char) -> (r: Option<Card>)
        ensures
            r == spec_card_of(c),
    {
        if c == 'A' {
            Some(Card::A)
        } else if c == 'K' {
            Some(Card::K)
        } else if c == 'Q' {
            Some(Card::Q)
        } else if c == 'J' {
            Some(Card::J)
        } else if c == 'T' {
            Some(Card::T)
        } else if c == '9' {
            Some(Card::N9)
        } else if c == '8' {
            Some(Card::N8)
        } else if c == '7' {
            Some(Card::N7)
        } else if c == '6' {
            Some(Card::N6)
        } else if c == '5' {
            Some(Card::N5)
        } else if c == '4' {
            Some(Card::N4)
        } else if c == '3' {
            Some(Card::N3)
        } else if c == '2' {
            Some(Card::N2)
        } else {
            None
        }
    }

    /// The place of the card in the order of strength.
    pub fn rank(&self) -> (r: usize)
        ensures
            r == card_rank(*self),
            r < 13,
    {
        match self {
            Card::A => 0,
            Card::K => 1,
            Card::Q => 2,
            Card::J => 3,
            Card::T => 4,
            Card::N9 => 5,
            Card::N8 => 6,
            Card::N7 => 7,
            Card::N6 => 8,
            Card::N5 => 9,
            Card::N4 => 10,
            Card::N3 => 11,
            Card::N2 => 12,
        }
    }
}

impl HandType {
    /// The place of the type in the order of strength.
    pub fn rank(&self) -> (r: u8)
        ensures
            r == type_rank(*self),
    {
        match self {
            HandType::FiveOfAKind => 0,
            HandType::FourOfAKind => 1,
            HandType::FullHouse => 2,
            HandType::ThreeOfAKind => 3,
            HandType::TwoPair => 4,
            HandType::OnePair => 5,
            HandType::HighCard => 6,
        }
    }
}

/// Maps a count of kinds and a highest count to the type of the hand.
fn classify(kinds: usize, most: usize) -> (t: HandType)
    ensures
        t == type_of(kinds as int, most as int),
{
    if kinds <= 1 {
        HandType::FiveOfAKind
    } else if kinds == 2 {
        if most >= 4 {
            HandType::FourOfAKind
        } else {
            HandType::FullHouse
        }
    } else if kinds == 3 {
        if most >= 3 {
            HandType::ThreeOfAKind
        } else {
            HandType::TwoPair
        }
    } else if kinds == 4 {
        HandType::OnePair
    } else {
        HandType::HighCard
    }
}

impl Hand {
    /// How often each rank occurs among the cards.
    pub fn tally(&self) -> (counts: Vec<usize>)
        ensures
            counts@.len() == 13,
            forall|k: int|
                0 <= k < 13 ==> #[trigger] counts@[k] == count_of(
                    self.cards@,
                    k,
                    self.cards@.len() as int,
                ),
    {
        let mut counts: Vec<usize> = Vec::with_capacity(13);
        let mut k: usize = 0;
        while k < 13
            invariant
                k <= 13,
                counts@.len() == k,
                forall|j: int| 0 <= j < k ==> counts@[j] == 0,
            decreases 13 - k,
        {
            counts.push(0);
            k += 1;
        }
        let mut i: usize = 0;
        while i < self.cards.len()
            invariant
                i <= self.cards@.len(),
                counts@.len() == 13,
                forall|j: int|
                    0 <= j < 13 ==> #[trigger] counts@[j] == count_of(self.cards@, j, i as int),
                forall|j: int| 0 <= j < 13 ==> #[trigger] counts@[j] <= i,
            decreases self.cards@.len() - i,
        {
            let r = self.cards[i].rank();
            counts[r] = counts[r] + 1;
            i += 1;
        }
        counts
    }

    /// The type of the hand.
    pub fn get_type(&self) -> (t: HandType)
        ensures
            t == spec_type(self.cards@),
    {
        let counts = self.tally();
        let mut kinds_seen: usize = 0;
        let mut highest: usize = 0;
        let mut k: usize = 0;
        while k < 13
            invariant
                k <= 13,
                counts@.len() == 13,
                forall|j: int|
                    0 <= j < 13 ==> #[trigger] counts@[j] == count_of(
                        self.cards@,
                        j,
                        self.cards@.len() as int,
                    ),
                kinds_seen == kinds(self.cards@, false, k as int),
                kinds_seen <= k,
                highest == most(self.cards@, false, k as int),
            decreases 13 - k,
        {
            if counts[k] > 0 {
                kinds_seen += 1;
            }
            if counts[k] > highest {
                highest = counts[k];
            }
            k += 1;
        }
        classify(kinds_seen, highest)
    }

    /// The type of the hand when every jack is a joker.
    pub fn get_part2_type(&self) -> (t: HandType)
        ensures
            t == spec_joker_type(self.cards@),
    {
        let counts = self.tally();
        let n = self.cards.len();
        proof {
            lemma_count_bound(self.cards@, 3, n as int);
        }
        let mut kinds_seen: usize = 0;
        let mut highest: usize = 0;
        let mut k: usize = 0;
        while k < 13
            invariant
                k <= 13,
                n == self.cards@.len(),
                counts@.len() == 13,
                forall|j: int|
                    0 <= j < 13 ==> #[trigger] counts@[j] == count_of(
                        self.cards@,
                        j,
                        self.cards@.len() as int,
                    ),
                kinds_seen == kinds(self.cards@, true, k as int),
                kinds_seen <= k,
                highest == most(self.cards@, true, k as int),
                highest + counts@[3] <= n,
            decreases 13 - k,
        {
            if k != 3 {
                if counts[k] > 0 {
                    kinds_seen += 1;
                }
                if counts[k] > highest {
                    proof {
                        lemma_two_counts(self.cards@, k as int, 3, n as int);
                    }
                    highest = counts[k];
                }
            }
            k += 1;
        }
        classify(kinds_seen, highest + counts[3])
    }
}

/// No rank occurs more often than there are cards.
pub proof fn lemma_count_bound(cards: Seq<Card>, rank: int, n: int)
    requires
        0 <= n,
    ensures
        0 <= count_of(cards, rank, n) <= n,
    decreases n,
{
    if n > 0 {
        lemma_count_bound(cards, rank, n - 1);
    }
}

/// Two different ranks together occur no more often than there are cards.
pub proof fn lemma_two_counts(cards: Seq<Card>, a: int, b: int, n: int)
    requires
        0 <= n,
        a != b,
    ensures
        count_of(cards, a, n) + count_of(cards, b, n) <= n,
    decreases n,
{
    if n > 0 {
        lemma_two_counts(cards, a, b, n - 1);
    }
}

/// How one value stands to another in an order.
#[derive(Debug, Clone, Copy, PartialEq, Eq, Structural)]
pub enum Side {
    Less,
    Equal,
    Greater,
}

/// How the integer `a` stands to the integer `b`.
pub open spec fn side_of(a: int, b: int) -> Side {
    if a < b {
        Side::Less
    } else if a == b {
        Side::Equal
    } else {
        Side::Greater
    }
}

/// The rank of a card, with the jack last if `jokers`.
pub open spec fn rank_in(c: Card, jokers: bool) -> int {
    if jokers {
        joker_rank(c)
    } else {
        card_rank(c)
    }
}

/// How the cards of one hand stand to those of another, from position `k`
/// on: the first position at which the two differ in rank decides; cards
/// that only one hand has are not looked at.
pub open spec fn lex_side(a: Seq<Card>, b: Seq<Card>, jokers: bool, k: int) -> Side
    decreases a.len() - k,
{
    if k < 0 || k >= a.len() || k >= b.len() {
        Side::Equal
    } else if rank_in(a[k], jokers) != rank_in(b[k], jokers) {
        side_of(rank_in(a[k], jokers), rank_in(b[k], jokers))
    } else {
        lex_side(a, b, jokers, k + 1)
    }
}

/// The type of a hand under the rules in force.
pub open spec fn type_in(cards: Seq<Card>, jokers: bool) -> HandType {
    if jokers {
        spec_joker_type(cards)
    } else {
        spec_type(cards)
    }
}

/// How hand `a` stands to hand `b`: by type first, then card by card.
pub open spec fn hand_side(a: Seq<Card>, b: Seq<Card>, jokers: bool) -> Side {
    if type_rank(type_in(a, jokers)) != type_rank(type_in(b, jokers)) {
        side_of(type_rank(type_in(a, jokers)), type_rank(type_in(b, jokers)))
    } else {
        lex_side(a, b, jokers, 0)
    }
}

/// Hand `j` comes before hand `i` when the hands are put in order from the
/// weakest to the strongest, hands of equal strength in the order given.
pub open spec fn comes_before(hands: Seq<Hand>, jokers: bool, j: int, i: int) -> bool {
    match hand_side(hands[j].cards@, hands[i].cards@, jokers) {
        Side::Greater => true,
        Side::Equal => j < i,
        Side::Less => false,
    }
}

/// How many of the first `n` hands come before hand `i`.
pub open spec fn count_before(hands: Seq<Hand>, jokers: bool, i: int, n: int) -> int
    decreases n,
{
    if n <= 0 {
        0
    } else {
        count_before(hands, jokers, i, n - 1) + if comes_before(hands, jokers, n - 1, i) {
            1int
        } else {
            0int
        }
    }
}

/// What the first `n` hands win: each its bid times its place in the order
/// from the weakest to the strongest of all hands, counted from one.
pub open spec fn spec_winnings(hands: Seq<Hand>, jokers: bool, n: int) -> int
    decreases n,
{
    if n <= 0 {
        0
    } else {
        spec_winnings(hands, jokers, n - 1) + hands[n - 1].bid * (1 + count_before(
            hands,
            jokers,
            n - 1,
            hands.len() as int,
        ))
    }
}

/// How one card stands to another, with the jack last if `jokers`.
pub fn card_side(a: &Card, b: &Card, jokers: bool) -> (r: Side)
    ensures
        r == side_of(rank_in(*a, jokers), rank_in(*b, jokers)),
{
    let ra = if jokers && *a == Card::J {
        13
    } else {
        a.rank()
    };
    let rb = if jokers && *b == Card::J {
        13
    } else {
        b.rank()
    };
    if ra < rb {
        Side::Less
    } else if ra == rb {
        Side::Equal
    } else {
        Side::Greater
    }
}

impl Hand {
    /// How the cards of this hand stand to those of another, card by card.
    pub fn cards_side(&self, other: &Hand, jokers: bool) -> (r: Side)
        ensures
            r == lex_side(self.cards@, other.cards@, jokers, 0),
    {
        let mut k: usize = 0;
        while k < self.cards.len() && k < other.cards.len()
            invariant
                k <= self.cards@.len(),
                lex_side(self.cards@, other.cards@, jokers, 0) == lex_side(
                    self.cards@,
                    other.cards@,
                    jokers,
                    k as int,
                ),
            decreases self.cards@.len() - k,
        {
            match card_side(&self.cards[k], &other.cards[k], jokers) {
                Side::Equal => {},
                decided => {
                    return decided;
                },
            }
            k += 1;
        }
        Side::Equal
    }

    /// How this hand stands to another: by type first, then card by card.
    pub fn side(&self, other: &Hand, jokers: bool) -> (r: Side)
        ensures
            r == hand_side(self.cards@, other.cards@, jokers),
    {
        let mine = if jokers {
            self.get_part2_type().rank()
        } else {
            self.get_type().rank()
        };
        let theirs = if jokers {
            other.get_part2_type().rank()
        } else {
            other.get_type().rank()
        };
        if mine < theirs {
            Side::Less
        } else if mine > theirs {
            Side::Greater
        } else {
            self.cards_side(other, jokers)
        }
    }
}

/// A hand stands equal to itself card by card.
pub proof fn lemma_self_side(a: Seq<Card>, jokers: bool, k: int)
    ensures
        lex_side(a, a, jokers, k) == Side::Equal,
    decreases a.len() - k,
{
    if 0 <= k < a.len() {
        lemma_self_side(a, jokers, k + 1);
    }
}

/// What the hands win in total: each its bid times its rank, where the
/// weakest hand has rank one. Returns `None` if the sum cannot be held in a
/// `u64`.
pub fn total_winnings(hands: &Vec<Hand>, jokers: bool) -> (r: Option<u64>)
    ensures
        r matches Some(total) ==> total == spec_winnings(hands@, jokers, hands@.len() as int),
        r is None ==> exists|k: int|
            0 <= k <= hands@.len() && #[trigger] spec_winnings(hands@, jokers, k) > u64::MAX,
{
    let n = hands.len();
    let mut total: u64 = 0;
    let mut i: usize = 0;
    while i < n
        invariant
            i <= n,
            n == hands@.len(),
            total == spec_winnings(hands@, jokers, i as int),
        decreases n - i,
    {
        let mut before: u64 = 0;
        let mut j: usize = 0;
        while j < n
            invariant
                j <= n,
                i < n,
                n == hands@.len(),
                before == count_before(hands@, jokers, i as int, j as int),
                before <= j,
                j > i ==> before < j,
            decreases n - j,
        {
            proof {
                lemma_self_side(hands@[i as int].cards@, jokers, 0);
            }
            let comes_first = match hands[j].side(&hands[i], jokers) {
                Side::Greater => true,
                Side::Equal => j < i,
                Side::Less => false,
            };
            if comes_first {
                before += 1;
            }
            j += 1;
        }
        let bid = hands[i].bid as u64;
        let ghost next = spec_winnings(hands@, jokers, i + 1);
        assert(next == total + bid * (1 + before));
        assert(bid * (1 + before) >= 0) by (nonlinear_arith)
            requires
                bid >= 0,
                before >= 0,
        ;
        let won = match bid.checked_mul(1 + before) {
            None => {
                return None;
            },
            Some(w) => w,
        };
        total = match total.checked_add(won) {
            None => {
                return None;
            },
            Some(t) => t,
        };
        i += 1;
    }
    Some(total)
}

impl FromByte for Card {
    open spec fn of_byte(b: u8) -> Option<Card> {
        spec_card_of(b as char)
    }

    fn from_byte(b: u8) -> (r: Option<Card>) {
        Card::parse(b as char)
    }
}

impl FromLine for Hand {
    /// A hand is written as its cards, one character each, and its bid.
    open spec fn written_as(line: Seq<u8>, value: Hand) -> bool {
        let words = spec_words(line);
        &&& words.len() == 2
        &&& all_known::<Card>(words[0])
        &&& value.cards@ == tiles_of::<Card>(words[0])
        &&& spec_decimal(words[1]) == Some(value.bid as nat)
    }

    fn from_line(line: &[u8]) -> (r: Option<Hand>) {
        let words = split_words(line);
        if words.len() != 2 {
            return None;
        }
        assert(spec_words(line@)[0] == words@[0]@);
        assert(spec_words(line@)[1] == words@[1]@);
        let cards = match parse_tiles::<Card>(words[0].as_slice()) {
            None => {
                return None;
            },
            Some(cards) => cards,
        };
        let bid = match parse_decimal(words[1].as_slice()) {
            None => {
                return None;
            },
            Some(bid) => bid,
        };
        if bid > 0xFFFF {
            return None;
        }
        Some(Hand { cards, bid: bid as u16 })
    }
}

} // verus!
