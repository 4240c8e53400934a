//! Extrapolating a sequence of readings from its table of differences.
//!
//! The first layer of the table is the sequence itself; each further layer
//! holds the differences of neighbouring entries of the layer above. The table
//! ends with the last layer whose differences are not all zero.

use vstd::prelude::*;
use crate::grid::tile_rows;
use crate::text::{parse_signed, spec_lines, spec_signed, spec_words, split_lines, split_words};

verus! {

/// The differences of neighbouring entries.
pub open spec fn differences(s: Seq<int>) -> Seq<int> {
    if s.len() < 2 {
        Seq::empty()
    } else {
        Seq::new((s.len() - 1) as nat, |i: int| s[i + 1] - s[i])
    }
}

pub open spec fn all_zero(s: Seq<int>) -> bool {
    forall|i: int| 0 <= i < s.len() ==> s[i] == 0
}

/// Every entry can be held in an `i64`.
pub open spec fn in_range(s: Seq<int>) -> bool {
    forall|i: int| 0 <= i < s.len() ==> i64::MIN <= #[trigger] s[i] <= i64::MAX
}

pub open spec fn as_ints(s: Seq<i64>) -> Seq<int> {
    s.map_values(|x: i64| x as int)
}

/// The layers of the table of differences of `s`.
pub open spec fn spec_layers(s: Seq<int>) -> Seq<Seq<int>>
    decreases s.len(),
{
    if s.len() < 2 || all_zero(differences(s)) {
        seq![s]
    } else {
        seq![s] + spec_layers(differences(s))
    }
}

/// Every layer of the table of `s` below the first can be held in `i64`s.
pub open spec fn creatable(s: Seq<int>) -> bool
    decreases s.len(),
{
    in_range(differences(s)) && (s.len() < 2 || all_zero(differences(s)) || creatable(
        differences(s),
    ))
}

/// The sum of the last entries of the layers from `k` on.
pub open spec fn sum_of_lasts(layers: Seq<Seq<int>>, k: int) -> int
    decreases layers.len() - k,
{
    if k < 0 || k >= layers.len() {
        0
    } else {
        layers[k].last() + sum_of_lasts(layers, k + 1)
    }
}

/// The first entry of layer `k`, less the first entry of the next, plus the
/// first of the one after, and so on.
pub open spec fn alternating_firsts(layers: Seq<Seq<int>>, k: int) -> int
    decreases layers.len() - k,
{
    if k < 0 || k >= layers.len() {
        0
    } else {
        layers[k].first() - alternating_firsts(layers, k + 1)
    }
}

/// The table of a sequence that is not empty has no empty layer.
pub proof fn lemma_layers_filled(s: Seq<int>)
    requires
        s.len() > 0,
    ensures
        forall|k: int| 0 <= k < spec_layers(s).len() ==> (#[trigger] spec_layers(s)[k]).len() > 0,
    decreases s.len(),
{
    let rest = differences(s);
    if s.len() < 2 || all_zero(rest) {
        assert(spec_layers(s) =~= seq![s]);
    } else {
        lemma_layers_filled(rest);
        assert forall|k: int| 0 <= k < spec_layers(s).len() implies (#[trigger] spec_layers(
            s,
        )[k]).len() > 0 by {
            if k > 0 {
                assert(spec_layers(s)[k] == spec_layers(rest)[k - 1]);
            }
        }
    }
}

/// A table of differences.
#[derive(Debug, Clone)]
pub struct DifferencesTable {
    layers: Vec<Vec<i64>>,
}

impl DifferencesTable {
    /// The layers as sequences of integers.
    pub closed spec fn view(&self) -> Seq<Seq<int>> {
        Seq::new(self.layers@.len(), |k: int| as_ints(self.layers@[k]@))
    }

    /// No layer is empty.
    pub open spec fn filled(&self) -> bool {
        forall|k: int| 0 <= k < self@.len() ==> (#[trigger] self@[k]).len() > 0
    }

    /// The value that extends the first layer to the left.
    pub fn predict_previous_number(&self) -> (n: i64)
        requires
            self.filled(),
            forall|k: int|
                0 <= k < self@.len() ==> i64::MIN <= #[trigger] alternating_firsts(self@, k)
                    <= i64::MAX,
        ensures
            n == alternating_firsts(self@, 0),
    {
        let mut n: i64 = 0;
        let mut k: usize = self.layers.len();
        while k > 0
            invariant
                k <= self.layers@.len(),
                self.filled(),
                n == alternating_firsts(self@, k as int),
                forall|j: int|
                    0 <= j < self@.len() ==> i64::MIN <= #[trigger] alternating_firsts(self@, j)
                        <= i64::MAX,
            decreases k,
        {
            k -= 1;
            assert(self@[k as int].len() > 0);
            assert(self@[k as int].first() == self.layers@[k as int]@[0]);
            assert(i64::MIN <= alternating_firsts(self@, k as int) <= i64::MAX);
            n = self.layers[k][0] - n;
        }
        n
    }

    /// The value that extends the first layer to the right.
    pub fn predict_next_number(&self) -> (n: i64)
        requires
            self.filled(),
            forall|k: int|
                0 <= k < self@.len() ==> i64::MIN <= #[trigger] sum_of_lasts(self@, k) <= i64::MAX,
        ensures
            n == sum_of_lasts(self@, 0),
    {
        let mut n: i64 = 0;
        let mut k: usize = self.layers.len();
        while k > 0
            invariant
                k <= self.layers@.len(),
                self.filled(),
                n == sum_of_lasts(self@, k as int),
                forall|j: int|
                    0 <= j < self@.len() ==> i64::MIN <= #[trigger] sum_of_lasts(self@, j)
                        <= i64::MAX,
            decreases k,
        {
            k -= 1;
            let layer = &self.layers[k];
            assert(self@[k as int].len() > 0);
            assert(self@[k as int].last() == layer@[layer@.len() - 1]);
            assert(i64::MIN <= sum_of_lasts(self@, k as int) <= i64::MAX);
            n = n + layer[layer.len() - 1];
        }
        n
    }

    /// Builds the table of differences of a sequence.
    pub fn create(first_layer: &[i64]) -> (table: Self)
        requires
            creatable(as_ints(first_layer@)),
        ensures
            table@ == spec_layers(as_ints(first_layer@)),
            first_layer@.len() > 0 ==> table.filled(),
    {
        proof {
            if first_layer@.len() > 0 {
                lemma_layers_filled(as_ints(first_layer@));
            }
        }
        let mut first: Vec<i64> = Vec::with_capacity(first_layer.len());
        let mut i: usize = 0;
        while i < first_layer.len()
            invariant
                i <= first_layer@.len(),
                first@ == first_layer@.subrange(0, i as int),
            decreases first_layer@.len() - i,
        {
            first.push(first_layer[i]);
            assert(first@ =~= first_layer@.subrange(0, i + 1));
            i += 1;
        }
        assert(first@ =~= first_layer@);
        let mut layers: Vec<Vec<i64>> = Vec::new();
        layers.push(first);
        let ghost whole = spec_layers(as_ints(first_layer@));
        loop
            invariant
                layers@.len() >= 1,
                creatable(as_ints(layers@.last()@)),
                whole == Seq::new((layers@.len() - 1) as nat, |k: int| as_ints(layers@[k]@))
                    + spec_layers(as_ints(layers@.last()@)),
            ensures
                whole == Seq::new(layers@.len(), |k: int| as_ints(layers@[k]@)),
            decreases layers@.last()@.len(),
        {
            let ghost before = layers@;
            let ghost last = as_ints(before.last()@);
            let new_layer = Self::calculate_next_layer(layers[layers.len() - 1].as_slice());
            if Self::is_zero_layer(new_layer.as_slice()) {
                assert(whole =~= Seq::new(layers@.len(), |k: int| as_ints(layers@[k]@)));
                break ;
            }
            assert(last.len() >= 2);
            layers.push(new_layer);
            assert(whole =~= Seq::new((layers@.len() - 1) as nat, |k: int| as_ints(layers@[k]@))
                + spec_layers(as_ints(layers@.last()@))) by {
                let a = Seq::new((before.len() - 1) as nat, |k: int| as_ints(before[k]@));
                let b = Seq::new((layers@.len() - 1) as nat, |k: int| as_ints(layers@[k]@));
                assert(b =~= a + seq![last]);
                assert(spec_layers(last) == seq![last] + spec_layers(differences(last)));
            }
        }
        let table = DifferencesTable { layers };
        assert(table@ =~= whole);
        table
    }

    /// The differences of neighbouring entries of a layer.
    pub fn calculate_next_layer(layer: &[i64]) -> (next: Vec<i64>)
        requires
            in_range(differences(as_ints(layer@))),
        ensures
            as_ints(next@) == differences(as_ints(layer@)),
    {
        let mut next: Vec<i64> = Vec::new();
        if layer.len() < 2 {
            assert(as_ints(next@) =~= differences(as_ints(layer@)));
            return next;
        }
        let ghost want = differences(as_ints(layer@));
        let mut i: usize = 0;
        while i < layer.len() - 1
            invariant
                layer@.len() >= 2,
                i + 1 <= layer@.len(),
                want == differences(as_ints(layer@)),
                in_range(want),
                next@.len() == i,
                forall|k: int| 0 <= k < i ==> next@[k] == want[k],
            decreases layer@.len() - i,
        {
            assert(want[i as int] == layer@[i + 1] - layer@[i as int]);
            assert(i64::MIN <= want[i as int] <= i64::MAX);
            next.push(layer[i + 1] - layer[i]);
            i += 1;
        }
        assert(as_ints(next@) =~= want);
        next
    }

    /// Whether every entry of a layer is zero.
    pub fn is_zero_layer(layer: &[i64]) -> (r: bool)
        ensures
            r == all_zero(as_ints(layer@)),
    {
        let mut i: usize = 0;
        while i < layer.len()
            invariant
                i <= layer@.len(),
                forall|k: int| 0 <= k < i ==> layer@[k] == 0,
            decreases layer@.len() - i,
        {
            if layer[i] != 0 {
                assert(as_ints(layer@)[i as int] != 0);
                return false;
            }
            i += 1;
        }
        assert forall|k: int| 0 <= k < as_ints(layer@).len() implies as_ints(layer@)[k] == 0 by {
            assert(layer@[k] == 0);
        }
        true
    }

    /// The differences of neighbouring entries of a layer, or `None` if one
    /// of them cannot be held in an `i64`.
    pub fn try_next_layer(layer: &[i64]) -> (r: Option<Vec<i64>>)
        ensures
            r is Some <==> in_range(differences(as_ints(layer@))),
            r matches Some(next) ==> as_ints(next@) == differences(as_ints(layer@)),
    {
        let mut next: Vec<i64> = Vec::new();
        if layer.len() < 2 {
            assert(as_ints(next@) =~= differences(as_ints(layer@)));
            return Some(next);
        }
        let ghost want = differences(as_ints(layer@));
        let mut i: usize = 0;
        while i < layer.len() - 1
            invariant
                layer@.len() >= 2,
                i + 1 <= layer@.len(),
                want == differences(as_ints(layer@)),
                next@.len() == i,
                forall|k: int| 0 <= k < i ==> next@[k] == want[k],
                forall|k: int| 0 <= k < i ==> i64::MIN <= #[trigger] want[k] <= i64::MAX,
            decreases layer@.len() - i,
        {
            assert(want[i as int] == layer@[i + 1] - layer@[i as int]);
            match layer[i + 1].checked_sub(layer[i]) {
                None => {
                    assert(!(i64::MIN <= want[i as int] <= i64::MAX));
                    return None;
                },
                Some(d) => {
                    next.push(d);
                },
            }
            i += 1;
        }
        assert(as_ints(next@) =~= want);
        Some(next)
    }

    /// Builds the table of differences of a sequence, or returns `None` if an
    /// entry of the table cannot be held in an `i64`.
    pub fn try_create(first_layer: &[i64]) -> (r: Option<Self>)
        ensures
            r is Some <==> creatable(as_ints(first_layer@)),
            r matches Some(table) ==> table@ == spec_layers(as_ints(first_layer@)) && (
            first_layer@.len() > 0 ==> table.filled()),
    {
        let mut rest: Vec<i64> = Vec::with_capacity(first_layer.len());
        let mut i: usize = 0;
        while i < first_layer.len()
            invariant
                i <= first_layer@.len(),
                rest@ == first_layer@.subrange(0, i as int),
            decreases first_layer@.len() - i,
        {
            rest.push(first_layer[i]);
            assert(rest@ =~= first_layer@.subrange(0, i + 1));
            i += 1;
        }
        assert(rest@ =~= first_layer@);
        loop
            invariant
                creatable(as_ints(first_layer@)) <==> creatable(as_ints(rest@)),
                rest@.len() <= first_layer@.len(),
            ensures
                creatable(as_ints(first_layer@)),
            decreases rest@.len(),
        {
            let next = match Self::try_next_layer(rest.as_slice()) {
                None => {
                    return None;
                },
                Some(next) => next,
            };
            if rest.len() < 2 || Self::is_zero_layer(next.as_slice()) {
                break ;
            }
            rest = next;
        }
        Some(Self::create(first_layer))
    }

    /// The value that extends the first layer to the right, or `None` if a
    /// layer is empty or a sum on the way cannot be held in an `i64`.
    pub fn try_predict_next_number(&self) -> (r: Option<i64>)
        ensures
            r matches Some(n) ==> n == sum_of_lasts(self@, 0),
            r is Some <==> self.filled() && forall|k: int|
                0 <= k < self@.len() ==> i64::MIN <= #[trigger] sum_of_lasts(self@, k) <= i64::MAX,
    {
        let mut n: i64 = 0;
        let mut k: usize = self.layers.len();
        while k > 0
            invariant
                k <= self.layers@.len(),
                n == sum_of_lasts(self@, k as int),
                forall|j: int| k <= j < self@.len() ==> (#[trigger] self@[j]).len() > 0,
                forall|j: int|
                    k <= j < self@.len() ==> i64::MIN <= #[trigger] sum_of_lasts(self@, j)
                        <= i64::MAX,
            decreases k,
        {
            k -= 1;
            let layer = &self.layers[k];
            if layer.len() == 0 {
                assert(self@[k as int].len() == 0);
                return None;
            }
            assert(self@[k as int].last() == layer@[layer@.len() - 1]);
            n = match n.checked_add(layer[layer.len() - 1]) {
                None => {
                    assert(!(i64::MIN <= sum_of_lasts(self@, k as int) <= i64::MAX));
                    return None;
                },
                Some(sum) => sum,
            };
        }
        Some(n)
    }

    /// The value that extends the first layer to the left, or `None` if a
    /// layer is empty or a difference on the way cannot be held in an `i64`.
    pub fn try_predict_previous_number(&self) -> (r: Option<i64>)
        ensures
            r matches Some(n) ==> n == alternating_firsts(self@, 0),
            r is Some <==> self.filled() && forall|k: int|
                0 <= k < self@.len() ==> i64::MIN <= #[trigger] alternating_firsts(self@, k)
                    <= i64::MAX,
    {
        let mut n: i64 = 0;
        let mut k: usize = self.layers.len();
        while k > 0
            invariant
                k <= self.layers@.len(),
                n == alternating_firsts(self@, k as int),
                forall|j: int| k <= j < self@.len() ==> (#[trigger] self@[j]).len() > 0,
                forall|j: int|
                    k <= j < self@.len() ==> i64::MIN <= #[trigger] alternating_firsts(self@, j)
                        <= i64::MAX,
            decreases k,
        {
            k -= 1;
            let layer = &self.layers[k];
            if layer.len() == 0 {
                assert(self@[k as int].len() == 0);
                return None;
            }
            assert(self@[k as int].first() == layer@[0]);
            n = match layer[0].checked_sub(n) {
                None => {
                    assert(!(i64::MIN <= alternating_firsts(self@, k as int) <= i64::MAX));
                    return None;
                },
                Some(difference) => difference,
            };
        }
        Some(n)
    }
}

/// The numbers that the words of a line write, if all of them write numbers
/// that an `i64` can hold.
pub open spec fn is_history(line: Seq<u8>, numbers: Seq<i64>) -> bool {
    &&& numbers.len() == spec_words(line).len()
    &&& forall|j: int|
        0 <= j < numbers.len() ==> spec_signed(#[trigger] spec_words(line)[j]) == Some(
            numbers[j] as int,
        )
}

/// Some word of the line does not write a number that an `i64` can hold.
pub open spec fn has_bad_word(line: Seq<u8>) -> bool {
    exists|j: int|
        0 <= j < spec_words(line).len() && match spec_signed(#[trigger] spec_words(line)[j]) {
            Some(v) => !(i64::MIN <= v <= i64::MAX),
            None => true,
        }
}

/// Reads the numbers of one line.
pub fn parse_history(line: &[u8]) -> (r: Option<Vec<i64>>)
    ensures
        r matches Some(numbers) ==> is_history(line@, numbers@),
        r is None ==> has_bad_word(line@),
{
    let words = split_words(line);
    let mut numbers: Vec<i64> = Vec::with_capacity(words.len());
    let mut j: usize = 0;
    while j < words.len()
        invariant
            j <= words@.len(),
            tile_rows(words@) == spec_words(line@),
            numbers@.len() == j,
            forall|k: int|
                0 <= k < j ==> spec_signed(#[trigger] spec_words(line@)[k]) == Some(
                    numbers@[k] as int,
                ),
        decreases words@.len() - j,
    {
        assert(spec_words(line@)[j as int] == words@[j as int]@);
        match parse_signed(words[j].as_slice()) {
            None => {
                return None;
            },
            Some(v) => {
                numbers.push(v);
            },
        }
        j += 1;
    }
    Some(numbers)
}

/// Reads one sequence of readings from each line of the text.
pub fn parse_histories(text: &[u8]) -> (r: Option<Vec<Vec<i64>>>)
    ensures
        r matches Some(histories) ==> histories@.len() == spec_lines(text@).len() && forall|i: int|
            0 <= i < histories@.len() ==> is_history(
                spec_lines(text@)[i],
                (#[trigger] histories@[i])@,
            ),
        r is None ==> exists|i: int|
            0 <= i < spec_lines(text@).len() && has_bad_word(#[trigger] spec_lines(text@)[i]),
{
    let lines = split_lines(text);
    let mut histories: Vec<Vec<i64>> = Vec::with_capacity(lines.len());
    let mut i: usize = 0;
    while i < lines.len()
        invariant
            i <= lines@.len(),
            tile_rows(lines@) == spec_lines(text@),
            histories@.len() == i,
            forall|k: int|
                0 <= k < i ==> is_history(spec_lines(text@)[k], (#[trigger] histories@[k])@),
        decreases lines@.len() - i,
    {
        assert(spec_lines(text@)[i as int] == lines@[i as int]@);
        match parse_history(lines[i].as_slice()) {
            None => {
                return None;
            },
            Some(h) => {
                histories.push(h);
            },
        }
        i += 1;
    }
    Some(histories)
}

/// Every value on the way to the prediction can be held in an `i64`.
pub open spec fn predictable(layers: Seq<Seq<int>>, backwards: bool) -> bool {
    &&& forall|k: int| 0 <= k < layers.len() ==> (#[trigger] layers[k]).len() > 0
    &&& backwards ==> forall|k: int|
        0 <= k < layers.len() ==> i64::MIN <= #[trigger] alternating_firsts(layers, k) <= i64::MAX
    &&& !backwards ==> forall|k: int|
        0 <= k < layers.len() ==> i64::MIN <= #[trigger] sum_of_lasts(layers, k) <= i64::MAX
}

/// The value that extends a sequence, to the right or, if `backwards`, to the
/// left, if its table and every value on the way can be held in `i64`s.
pub open spec fn spec_prediction(history: Seq<int>, backwards: bool) -> Option<int> {
    if creatable(history) && predictable(spec_layers(history), backwards) {
        Some(
            if backwards {
                alternating_firsts(spec_layers(history), 0)
            } else {
                sum_of_lasts(spec_layers(history), 0)
            },
        )
    } else {
        None
    }
}

/// The sum of the predictions for the first `n` sequences, if there is a
/// prediction for each and every sum on the way can be held in an `i64`.
pub open spec fn spec_sum_of_predictions(histories: Seq<Vec<i64>>, backwards: bool, n: int) -> Option<
    int,
>
    decreases n,
{
    if n <= 0 {
        Some(0)
    } else {
        match (
            spec_sum_of_predictions(histories, backwards, n - 1),
            spec_prediction(as_ints(histories[n - 1]@), backwards),
        ) {
            (Some(before), Some(value)) => if i64::MIN <= before + value <= i64::MAX {
                Some(before + value)
            } else {
                None
            },
            _ => None,
        }
    }
}

/// A sum that has failed stays failed as more sequences are counted.
pub proof fn lemma_sum_fails(histories: Seq<Vec<i64>>, backwards: bool, k: int, n: int)
    requires
        0 <= k <= n,
        spec_sum_of_predictions(histories, backwards, k) is None,
    ensures
        spec_sum_of_predictions(histories, backwards, n) is None,
    decreases n - k,
{
    if k < n {
        lemma_sum_fails(histories, backwards, k, n - 1);
    }
}

/// The sum over all sequences of the value that extends the sequence, to the
/// right or, if `backwards`, to the left. Returns `None` if a sequence is
/// empty or a number on the way cannot be held in an `i64`.
pub fn sum_of_predictions(histories: &Vec<Vec<i64>>, backwards: bool) -> (r: Option<i64>)
    ensures
        match r {
            Some(sum) => spec_sum_of_predictions(histories@, backwards, histories@.len() as int)
                == Some(sum as int),
            None => spec_sum_of_predictions(histories@, backwards, histories@.len() as int)
                is None,
        },
{
    let mut sum: i64 = 0;
    let mut i: usize = 0;
    while i < histories.len()
        invariant
            i <= histories@.len(),
            spec_sum_of_predictions(histories@, backwards, i as int) == Some(sum as int),
        decreases histories@.len() - i,
    {
        let ghost history = as_ints(histories@[i as int]@);
        let table = match DifferencesTable::try_create(histories[i].as_slice()) {
            None => {
                proof {
                    lemma_sum_fails(histories@, backwards, i + 1, histories@.len() as int);
                }
                return None;
            },
            Some(table) => table,
        };
        let value = if backwards {
            table.try_predict_previous_number()
        } else {
            table.try_predict_next_number()
        };
        proof {
            if history.len() > 0 {
                lemma_layers_filled(history);
            } else {
                assert(spec_layers(history)[0].len() == 0);
            }
            assert(value is Some <==> predictable(spec_layers(history), backwards));
        }
        let value = match value {
            None => {
                proof {
                    lemma_sum_fails(histories@, backwards, i + 1, histories@.len() as int);
                }
                return None;
            },
            Some(v) => v,
        };
        sum = match sum.checked_add(value) {
            None => {
                proof {
                    lemma_sum_fails(histories@, backwards, i + 1, histories@.len() as int);
                }
                return None;
            },
            Some(s) => s,
        };
        i += 1;
    }
    Some(sum)
}

} // verus!
