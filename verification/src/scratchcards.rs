//! Scratchcards: how many of a card's numbers are winning numbers, what the
//! card scores, and how many further cards it wins.

use vstd::prelude::*;
use crate::glyphs::FromLine;
use crate::text::{
    find, small_numbers, spec_decimal, spec_words, split_words, write_numbers, first_occurrence,
};

verus! {

/// A scratchcard: its number, the winning numbers and the numbers one has.
#[derive(Debug, Clone)]
pub struct Card {
    pub card_id: u8,
    pub winning_numbers: Vec<u8>,
    pub numbers: Vec<u8>,
}

/// How many of the first `n` own numbers are winning numbers.
pub open spec fn spec_matches(winning: Seq<u8>, numbers: Seq<u8>, n: int) -> nat
    decreases n,
{
    if n <= 0 {
        0
    } else {
        spec_matches(winning, numbers, n - 1) + if winning.contains(numbers[n - 1]) {
            1nat
        } else {
            0nat
        }
    }
}

/// The score of a card with `m` matches: one point for the first match,
/// doubled for each further one.
pub open spec fn spec_score(m: nat) -> nat
    decreases m,
{
    if m == 0 {
        0
    } else if m == 1 {
        1
    } else {
        2 * spec_score((m - 1) as nat)
    }
}

/// The sum of the scores of the first `n` cards.
pub open spec fn spec_total_score(cards: Seq<Card>, n: int) -> nat
    decreases n,
{
    if n <= 0 {
        0
    } else {
        spec_total_score(cards, n - 1) + spec_score(
            spec_matches(
                cards[n - 1].winning_numbers@,
                cards[n - 1].numbers@,
                cards[n - 1].numbers@.len() as int,
            ),
        )
    }
}

/// Every card wins only cards that exist: card `i` with `wins[i]` matches
/// wins the `wins[i]` cards after it.
pub open spec fn wins_in_range(wins: Seq<usize>) -> bool {
    forall|i: int| 0 <= i < wins.len() ==> i + #[trigger] wins[i] < wins.len()
}

/// The number of cards that the first `k` of the cards won by card `id`
/// bring in, themselves included.
pub open spec fn spec_won(wins: Seq<usize>, id: int, k: int) -> nat
    decreases wins.len() - id, k,
{
    if id < 0 || id >= wins.len() || k <= 0 {
        0
    } else if id + k >= wins.len() {
        spec_won(wins, id, k - 1) + 1
    } else {
        spec_won(wins, id, k - 1) + 1 + spec_won(wins, id + k, wins[id + k] as int)
    }
}

/// The number of cards one ends up with from the first `n` cards: the cards
/// themselves and all they win.
pub open spec fn spec_total_cards(wins: Seq<usize>, n: int) -> nat
    decreases n,
{
    if n <= 0 {
        0
    } else {
        spec_total_cards(wins, n - 1) + 1 + spec_won(wins, n - 1, wins[n - 1] as int)
    }
}

/// Whether the list holds the value.
pub fn contains(list: &Vec<u8>, value: u8) -> (r: bool)
    ensures
        r == list@.contains(value),
{
    let mut i: usize = 0;
    while i < list.len()
        invariant
            i <= list@.len(),
            forall|k: int| 0 <= k < i ==> list@[k] != value,
        decreases list@.len() - i,
    {
        if list[i] == value {
            return true;
        }
        i += 1;
    }
    false
}

impl Card {
    /// How many of the card's numbers are winning numbers.
    pub fn matches(&self) -> (m: usize)
        ensures
            m == spec_matches(self.winning_numbers@, self.numbers@, self.numbers@.len() as int),
            m <= self.numbers@.len(),
    {
        let mut m: usize = 0;
        let mut i: usize = 0;
        while i < self.numbers.len()
            invariant
                i <= self.numbers@.len(),
                m <= i,
                m == spec_matches(self.winning_numbers@, self.numbers@, i as int),
            decreases self.numbers@.len() - i,
        {
            if contains(&self.winning_numbers, self.numbers[i]) {
                m += 1;
            }
            i += 1;
        }
        m
    }

    /// The score of the card, or `None` if it cannot be held in a `u64`.
    pub fn score(&self) -> (r: Option<u64>)
        ensures
            r matches Some(s) ==> s == spec_score(
                spec_matches(self.winning_numbers@, self.numbers@, self.numbers@.len() as int),
            ),
            r is None ==> spec_score(
                spec_matches(self.winning_numbers@, self.numbers@, self.numbers@.len() as int),
            ) > u64::MAX,
    {
        let m = self.matches();
        let mut score: u64 = 0;
        let mut k: usize = 0;
        while k < m
            invariant
                k <= m,
                m == spec_matches(self.winning_numbers@, self.numbers@, self.numbers@.len() as int),
                score == spec_score(k as nat),
                k >= 1 ==> score >= 1,
            decreases m - k,
        {
            if score == 0 {
                score = 1;
            } else {
                score = match score.checked_mul(2) {
                    None => {
                        proof {
                            assert(spec_score((k + 1) as nat) == 2 * spec_score(k as nat));
                            lemma_score_grows((k + 1) as nat, m as nat);
                        }
                        return None;
                    },
                    Some(s) => s,
                };
            }
            k += 1;
        }
        Some(score)
    }
}

/// More matches never score less.
pub proof fn lemma_score_grows(k: nat, m: nat)
    requires
        k <= m,
    ensures
        spec_score(k) <= spec_score(m),
    decreases m - k,
{
    if k < m {
        lemma_score_grows(k, (m - 1) as nat);
    }
}

/// The sum of the scores of all cards, or `None` if a score or the sum
/// cannot be held in a `u64`.
pub fn total_score(cards: &Vec<Card>) -> (r: Option<u64>)
    ensures
        r matches Some(s) ==> s == spec_total_score(cards@, cards@.len() as int),
        r is None <==> spec_total_score(cards@, cards@.len() as int) > u64::MAX,
{
    let mut total: u64 = 0;
    let mut i: usize = 0;
    while i < cards.len()
        invariant
            i <= cards@.len(),
            total == spec_total_score(cards@, i as int),
        decreases cards@.len() - i,
    {
        let score = match cards[i].score() {
            None => {
                proof {
                    lemma_total_score_grows(cards@, i + 1, cards@.len() as int);
                }
                return None;
            },
            Some(s) => s,
        };
        total = match total.checked_add(score) {
            None => {
                proof {
                    lemma_total_score_grows(cards@, i + 1, cards@.len() as int);
                }
                return None;
            },
            Some(t) => t,
        };
        i += 1;
    }
    Some(total)
}

/// The total score does not shrink as more cards are counted.
pub proof fn lemma_total_score_grows(cards: Seq<Card>, k: int, n: int)
    requires
        0 <= k <= n,
    ensures
        spec_total_score(cards, k) <= spec_total_score(cards, n),
    decreases n - k,
{
    if k < n {
        lemma_total_score_grows(cards, k, n - 1);
    }
}

/// The cards brought in do not get fewer as more of the cards won are
/// counted.
pub proof fn lemma_won_grows(wins: Seq<usize>, id: int, k: int, n: int)
    requires
        0 <= k <= n,
    ensures
        spec_won(wins, id, k) <= spec_won(wins, id, n),
    decreases n - k,
{
    if k < n {
        lemma_won_grows(wins, id, k, n - 1);
    }
}

/// The total of cards does not shrink as more cards are counted.
pub proof fn lemma_total_cards_grows(wins: Seq<usize>, k: int, n: int)
    requires
        0 <= k <= n,
    ensures
        spec_total_cards(wins, k) <= spec_total_cards(wins, n),
    decreases n - k,
{
    if k < n {
        lemma_total_cards_grows(wins, k, n - 1);
    }
}

/// The match counts of all cards.
pub fn match_counts(cards: &Vec<Card>) -> (wins: Vec<usize>)
    ensures
        wins@.len() == cards@.len(),
        forall|i: int|
            0 <= i < cards@.len() ==> #[trigger] wins@[i] == spec_matches(
                cards@[i].winning_numbers@,
                cards@[i].numbers@,
                cards@[i].numbers@.len() as int,
            ),
{
    let mut wins: Vec<usize> = Vec::with_capacity(cards.len());
    let mut i: usize = 0;
    while i < cards.len()
        invariant
            i <= cards@.len(),
            wins@.len() == i,
            forall|k: int|
                0 <= k < i ==> #[trigger] wins@[k] == spec_matches(
                    cards@[k].winning_numbers@,
                    cards@[k].numbers@,
                    cards@[k].numbers@.len() as int,
                ),
        decreases cards@.len() - i,
    {
        wins.push(cards[i].matches());
        i += 1;
    }
    wins
}

/// The memo holds, for each card that it has an entry for, the number of
/// cards that the card brings in.
pub open spec fn memo_ok(wins: Seq<usize>, memo: Seq<Option<usize>>) -> bool {
    &&& memo.len() == wins.len()
    &&& forall|i: int|
        0 <= i < memo.len() ==> (#[trigger] memo[i] matches Some(v) ==> v == spec_won(
            wins,
            i,
            wins[i] as int,
        ))
}

/// The number of cards that card `id` brings in: the cards it wins, and all
/// that those win in turn. Returns `None` if the number cannot be held in a
/// `usize`.
pub fn traverse_card_tree(wins: &Vec<usize>, memo: &mut Vec<Option<usize>>, id: usize) -> (r:
    Option<usize>)
    requires
        wins_in_range(wins@),
        memo_ok(wins@, old(memo)@),
        id < wins@.len(),
    ensures
        memo_ok(wins@, final(memo)@),
        r matches Some(v) ==> v == spec_won(wins@, id as int, wins@[id as int] as int),
        r is None <==> spec_won(wins@, id as int, wins@[id as int] as int) > usize::MAX,
    decreases wins@.len() - id,
{
    if let Some(cached) = memo[id] {
        return Some(cached);
    }
    let count = wins[id];
    let n = wins.len();
    let mut total: usize = 0;
    let mut k: usize = 0;
    while k < count
        invariant
            n == wins@.len(),
            wins_in_range(wins@),
            memo_ok(wins@, memo@),
            id < wins@.len(),
            count == wins@[id as int],
            k <= count,
            total == spec_won(wins@, id as int, k as int),
        decreases count - k,
    {
        k += 1;
        assert(id + wins@[id as int] < wins@.len());
        let below = match traverse_card_tree(wins, memo, id + k) {
            None => {
                proof {
                    lemma_won_grows(wins@, id as int, k as int, count as int);
                }
                return None;
            },
            Some(b) => b,
        };
        total = match total.checked_add(1) {
            None => {
                proof {
                    lemma_won_grows(wins@, id as int, k as int, count as int);
                }
                return None;
            },
            Some(t) => t,
        };
        total = match total.checked_add(below) {
            None => {
                proof {
                    lemma_won_grows(wins@, id as int, k as int, count as int);
                }
                return None;
            },
            Some(t) => t,
        };
    }
    memo[id] = Some(total);
    Some(total)
}

/// The number of cards one ends up with: the cards themselves and all they
/// win. Returns `None` if a card wins a card that does not exist or the
/// number cannot be held in a `usize`.
pub fn total_cards(cards: &Vec<Card>) -> (r: Option<usize>)
    ensures
        r matches Some(n) ==> n == spec_total_cards(match_counts_of(cards@), cards@.len() as int),
        r is None <==> !wins_in_range(match_counts_of(cards@)) || spec_total_cards(
            match_counts_of(cards@),
            cards@.len() as int,
        ) > usize::MAX,
{
    let wins = match_counts(cards);
    assert(wins@ =~= match_counts_of(cards@));
    let n = wins.len();
    let mut i: usize = 0;
    while i < n
        invariant
            i <= n,
            n == wins@.len(),
            n == cards@.len(),
            wins@ == match_counts_of(cards@),
            forall|j: int| 0 <= j < i ==> j + #[trigger] wins@[j] < n,
        decreases n - i,
    {
        if wins[i] >= n - i {
            assert(!(i + wins@[i as int] < wins@.len()));
            return None;
        }
        i += 1;
    }
    assert(wins_in_range(wins@));
    let mut memo: Vec<Option<usize>> = Vec::with_capacity(n);
    let mut j: usize = 0;
    while j < n
        invariant
            j <= n,
            memo@.len() == j,
            forall|k: int| 0 <= k < j ==> memo@[k] is None,
        decreases n - j,
    {
        memo.push(None);
        j += 1;
    }
    let mut total: usize = 0;
    let mut id: usize = 0;
    while id < n
        invariant
            id <= n,
            n == wins@.len(),
            n == cards@.len(),
            wins@ == match_counts_of(cards@),
            wins_in_range(wins@),
            memo_ok(wins@, memo@),
            total == spec_total_cards(wins@, id as int),
        decreases n - id,
    {
        let won = match traverse_card_tree(&wins, &mut memo, id) {
            None => {
                proof {
                    lemma_total_cards_grows(wins@, id + 1, n as int);
                }
                return None;
            },
            Some(w) => w,
        };
        total = match total.checked_add(1) {
            None => {
                proof {
                    lemma_total_cards_grows(wins@, id + 1, n as int);
                }
                return None;
            },
            Some(t) => t,
        };
        total = match total.checked_add(won) {
            None => {
                proof {
                    lemma_total_cards_grows(wins@, id + 1, n as int);
                }
                return None;
            },
            Some(t) => t,
        };
        id += 1;
    }
    Some(total)
}

/// The match counts of the cards.
pub open spec fn match_counts_of(cards: Seq<Card>) -> Seq<usize> {
    Seq::new(
        cards.len(),
        |i: int|
            spec_matches(
                cards[i].winning_numbers@,
                cards[i].numbers@,
                cards[i].numbers@.len() as int,
            ) as usize,
    )
}

/// The parts of a card's line: the words before the colon, between the colon
/// and the bar, and after the bar, if the line has a colon and a bar after
/// it.
pub open spec fn card_parts(line: Seq<u8>, colon: int, bar: int) -> bool {
    &&& first_occurrence(line, seq![58u8], Some(colon as usize))
    &&& first_occurrence(line.subrange(colon + 1, line.len() as int), seq![124u8], Some(
        (bar - colon - 1) as usize,
    ))
    &&& 0 <= colon < bar < line.len()
}

impl FromLine for Card {
    /// A card is written as a title and its number, a colon, the winning
    /// numbers, a bar, and the numbers one has.
    open spec fn written_as(line: Seq<u8>, value: Card) -> bool {
        exists|colon: int, bar: int|
            {
                &&& #[trigger] card_parts(line, colon, bar)
                &&& spec_words(line.subrange(0, colon)).len() == 2
                &&& spec_decimal(spec_words(line.subrange(0, colon))[1]) == Some(
                    value.card_id as nat,
                )
                &&& write_numbers(
                    spec_words(line.subrange(colon + 1, bar)),
                    value.winning_numbers@.map_values(|v: u8| v as int),
                    255,
                )
                &&& write_numbers(
                    spec_words(line.subrange(bar + 1, line.len() as int)),
                    value.numbers@.map_values(|v: u8| v as int),
                    255,
                )
            }
    }

    fn from_line(line: &[u8]) -> (r: Option<Card>) {
        let n = line.len();
        let colon_mark: [u8; 1] = [58];
        let bar_mark: [u8; 1] = [124];
        assert(colon_mark@ =~= seq![58u8]);
        assert(bar_mark@ =~= seq![124u8]);
        let colon = match find(line, colon_mark.as_slice()) {
            None => {
                assert forall|value: Card| !Self::written_as(line@, value) by {
                    if Self::written_as(line@, value) {
                        let (c, b) = choose|c: int, b: int| #[trigger] card_parts(line@, c, b);
                    }
                }
                return None;
            },
            Some(colon) => colon,
        };
        let rest = &line[colon + 1..n];
        let bar = match find(rest, bar_mark.as_slice()) {
            None => {
                assert forall|value: Card| !Self::written_as(line@, value) by {
                    if Self::written_as(line@, value) {
                        let (c, b) = choose|c: int, b: int| #[trigger] card_parts(line@, c, b);
                        lemma_first_is_unique(line@, seq![58u8], colon as int, c);
                    }
                }
                return None;
            },
            Some(bar) => colon + 1 + bar,
        };
        let ghost parts_ok = card_parts(line@, colon as int, bar as int);
        assert(parts_ok);
        proof {
            assert forall|c: int, b: int| #[trigger]
                card_parts(line@, c, b) implies c == colon && b == bar by {
                lemma_first_is_unique(line@, seq![58u8], colon as int, c);
                lemma_first_is_unique(
                    line@.subrange(colon + 1, line@.len() as int),
                    seq![124u8],
                    bar - colon - 1,
                    b - c - 1,
                );
            }
        }
        let title = split_words(&line[0..colon]);
        if title.len() != 2 {
            return None;
        }
        assert(spec_words(line@.subrange(0, colon as int))[1] == title@[1]@);
        let id = match crate::text::parse_decimal(title[1].as_slice()) {
            None => {
                return None;
            },
            Some(id) => id,
        };
        if id > 255 {
            return None;
        }
        let winning = match small_numbers(&split_words(&line[colon + 1..bar])) {
            None => {
                return None;
            },
            Some(winning) => winning,
        };
        let own = match small_numbers(&split_words(&line[bar + 1..n])) {
            None => {
                return None;
            },
            Some(own) => own,
        };
        Some(Card { card_id: id as u8, winning_numbers: winning, numbers: own })
    }
}

/// There is only one first place at which a pattern stands.
pub proof fn lemma_first_is_unique(text: Seq<u8>, pattern: Seq<u8>, a: int, b: int)
    requires
        0 <= a <= usize::MAX,
        0 <= b <= usize::MAX,
        first_occurrence(text, pattern, Some(a as usize)),
        first_occurrence(text, pattern, Some(b as usize)),
    ensures
        a == b,
{
}

} // verus!
