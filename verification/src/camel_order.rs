//! The orders of cards and hands, in the terms of the standard library.

use core::cmp::Ordering;
use vstd::prelude::*;
use crate::camel_cards::{card_side, joker_rank, lex_side, side_of, Card, Hand, Side};

verus! {

/// The standard name for how one value stands to another.
pub open spec fn ordering_of(s: Side) -> Ordering {
    match s {
        Side::Less => Ordering::Less,
        Side::Equal => Ordering::Equal,
        Side::Greater => Ordering::Greater,
    }
}

pub fn to_ordering(s: Side) -> (r: Ordering)
    ensures
        r == ordering_of(s),
{
    match s {
        Side::Less => Ordering::Less,
        Side::Equal => Ordering::Equal,
        Side::Greater => Ordering::Greater,
    }
}

impl Card {
    /// How this card stands to another when the jack is the weakest card:
    /// `Less` means stronger.
    pub fn part2_cmp(&self, other: &Card) -> (r: Ordering)
        ensures
            r == ordering_of(side_of(joker_rank(*self), joker_rank(*other))),
    {
        to_ordering(card_side(self, other, true))
    }
}

impl Hand {
    /// How the cards of this hand stand to those of another, card by card,
    /// when the jack is the weakest card: `Less` means stronger.
    pub fn part2_cmp(&self, other: &Self) -> (r: Option<Ordering>)
        ensures
            r == Some(ordering_of(lex_side(self.cards@, other.cards@, true, 0))),
    {
        Some(to_ordering(self.cards_side(other, true)))
    }
}

impl PartialOrd for Hand {
    /// How the cards of this hand stand to those of another, card by card:
    /// `Less` means stronger. Bids and cards that only one hand has play no
    /// part.
    fn partial_cmp(&self, other: &Self) -> (r: Option<Ordering>) {
        Some(to_ordering(self.cards_side(other, false)))
    }
}

impl vstd::std_specs::cmp::PartialOrdSpecImpl for Hand {
    open spec fn obeys_partial_cmp_spec() -> bool {
        true
    }

    open spec fn partial_cmp_spec(&self, other: &Self) -> Option<Ordering> {
        Some(ordering_of(lex_side(self.cards@, other.cards@, false, 0)))
    }
}

} // verus!
