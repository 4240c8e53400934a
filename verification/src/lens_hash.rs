//! The rolling hash that sorts lens labels into 256 boxes.

use vstd::prelude::*;
use vstd::string::StringSliceAdditionalSpecFns;
use crate::text::{find, first_occurrence, parse_decimal, same_text, spec_decimal};

verus! {

/// The hash of a sequence of bytes: start at zero and, for each byte, add it,
/// multiply by 17 and keep the remainder of dividing by 256.
pub open spec fn spec_hash(bytes: Seq<u8>) -> int
    decreases bytes.len(),
{
    if bytes.len() == 0 {
        0
    } else {
        ((spec_hash(bytes.drop_last()) + bytes.last()) * 17) % 256
    }
}

/// A hash is a box number.
pub proof fn lemma_hash_range(bytes: Seq<u8>)
    ensures
        0 <= spec_hash(bytes) < 256,
    decreases bytes.len(),
{
    if bytes.len() > 0 {
        lemma_hash_range(bytes.drop_last());
    }
}

/// The sum of the hashes of the first `n` steps.
pub open spec fn spec_hash_sum(steps: Seq<Vec<u8>>, n: int) -> int
    decreases n,
{
    if n <= 0 {
        0
    } else {
        spec_hash_sum(steps, n - 1) + spec_hash(steps[n - 1]@)
    }
}

/// The hash of a string's bytes.
pub fn hash_string(s: &str) -> (hash: usize)
    ensures
        hash == spec_hash(s.spec_bytes()),
{
    hash_bytes(s.as_bytes())
}

/// The hash of a sequence of bytes.
pub fn hash_bytes(bytes: &[u8]) -> (hash: usize)
    ensures
        hash == spec_hash(bytes@),
        hash < 256,
{
    let mut hash: usize = 0;
    let mut i: usize = 0;
    while i < bytes.len()
        invariant
            i <= bytes@.len(),
            hash == spec_hash(bytes@.subrange(0, i as int)),
            hash < 256,
        decreases bytes@.len() - i,
    {
        assert(bytes@.subrange(0, i + 1).drop_last() =~= bytes@.subrange(0, i as int));
        hash = ((hash + bytes[i] as usize) * 17) % 256;
        i += 1;
    }
    assert(bytes@.subrange(0, i as int) =~= bytes@);
    hash
}

/// The sum of the hashes of all steps.
pub fn sum_of_hashes(steps: &Vec<Vec<u8>>) -> (sum: u64)
    requires
        steps@.len() <= 0xFFFF_FFFF,
    ensures
        sum == spec_hash_sum(steps@, steps@.len() as int),
{
    let mut sum: u64 = 0;
    let mut i: usize = 0;
    while i < steps.len()
        invariant
            i <= steps@.len(),
            steps@.len() <= 0xFFFF_FFFF,
            sum == spec_hash_sum(steps@, i as int),
            sum <= 255 * i,
        decreases steps@.len() - i,
    {
        let h = hash_bytes(steps[i].as_slice());
        sum = sum + h as u64;
        i += 1;
    }
    sum
}

/// A lens: its label and its focal length.
#[derive(Debug, Clone, PartialEq, Eq)]
pub struct Lens {
    pub label: Vec<u8>,
    pub focal: usize,
}

/// The lenses of a box as labels and focal lengths.
pub open spec fn box_view(lenses: Seq<Lens>) -> Seq<(Seq<u8>, usize)> {
    Seq::new(lenses.len(), |i: int| (lenses[i].label@, lenses[i].focal))
}

/// The boxes as sequences of labels and focal lengths.
pub open spec fn boxes_view(boxes: Seq<Vec<Lens>>) -> Seq<Seq<(Seq<u8>, usize)>> {
    Seq::new(boxes.len(), |b: int| box_view(boxes[b]@))
}

/// The place of the first of the first `n` lenses that has the label.
pub open spec fn lens_place(lenses: Seq<(Seq<u8>, usize)>, label: Seq<u8>, n: int) -> Option<int>
    decreases n,
{
    if n <= 0 {
        None
    } else {
        match lens_place(lenses, label, n - 1) {
            Some(i) => Some(i),
            None => if lenses[n - 1].0 == label {
                Some(n - 1)
            } else {
                None
            },
        }
    }
}

/// The box without the first lens that has the label.
pub open spec fn without(lenses: Seq<(Seq<u8>, usize)>, label: Seq<u8>) -> Seq<(Seq<u8>, usize)> {
    match lens_place(lenses, label, lenses.len() as int) {
        Some(i) => lenses.remove(i),
        None => lenses,
    }
}

/// The box with a lens of the label and focal length: in the place of the
/// first lens that has the label, or behind all lenses if none has it.
pub open spec fn with_lens(lenses: Seq<(Seq<u8>, usize)>, label: Seq<u8>, focal: usize) -> Seq<
    (Seq<u8>, usize),
> {
    match lens_place(lenses, label, lenses.len() as int) {
        Some(i) => lenses.update(i, (label, focal)),
        None => lenses.push((label, focal)),
    }
}

/// The step takes out the lens whose label stands before its first dash,
/// which stands at `dash`.
pub open spec fn takes_out(step: Seq<u8>, dash: int, label: Seq<u8>) -> bool {
    &&& 0 <= dash < step.len()
    &&& first_occurrence(step, seq![45u8], Some(dash as usize))
    &&& label == step.subrange(0, dash)
}

/// The step puts in a lens: its label stands before the first equals sign,
/// which stands at `mark`, and its focal length after it.
pub open spec fn puts_in(step: Seq<u8>, mark: int, label: Seq<u8>, focal: usize) -> bool {
    &&& 0 <= mark < step.len()
    &&& first_occurrence(step, seq![61u8], Some(mark as usize))
    &&& label == step.subrange(0, mark)
    &&& spec_decimal(step.subrange(mark + 1, step.len() as int)) == Some(focal as nat)
}

/// What a step says: a label and, to put a lens in, a focal length, or, to
/// take a lens out, none. A step that ends in a dash takes a lens out; any
/// other step puts one in.
pub open spec fn step_reads(step: Seq<u8>, label: Seq<u8>, focal: Option<usize>) -> bool {
    if step.len() > 0 && step.last() == 45 {
        focal is None && exists|dash: int| #[trigger] takes_out(step, dash, label)
    } else {
        focal is Some && exists|mark: int| #[trigger] puts_in(step, mark, label, focal.unwrap())
    }
}

/// The boxes after a step: the box that the hash of the label names loses or
/// gains a lens.
pub open spec fn after_step(
    boxes: Seq<Seq<(Seq<u8>, usize)>>,
    label: Seq<u8>,
    focal: Option<usize>,
) -> Seq<Seq<(Seq<u8>, usize)>> {
    let b = spec_hash(label);
    match focal {
        None => boxes.update(b, without(boxes[b], label)),
        Some(f) => boxes.update(b, with_lens(boxes[b], label, f)),
    }
}

/// The focusing power of the first `n` lenses of box number `b`: for each
/// lens the number of the box plus one, times the place of the lens counted
/// from one, times its focal length.
pub open spec fn box_power(lenses: Seq<(Seq<u8>, usize)>, b: int, n: int) -> int
    decreases n,
{
    if n <= 0 {
        0
    } else {
        box_power(lenses, b, n - 1) + (b + 1) * n * lenses[n - 1].1
    }
}

/// The focusing power of the first `n` boxes.
pub open spec fn spec_power(boxes: Seq<Seq<(Seq<u8>, usize)>>, n: int) -> int
    decreases n,
{
    if n <= 0 {
        0
    } else {
        spec_power(boxes, n - 1) + box_power(boxes[n - 1], n - 1, boxes[n - 1].len() as int)
    }
}

/// Finds the first lens of a box that has the label.
pub fn find_lens(lenses: &Vec<Lens>, label: &[u8]) -> (r: Option<usize>)
    ensures
        match r {
            Some(i) => lens_place(box_view(lenses@), label@, lenses@.len() as int) == Some(
                i as int,
            ) && i < lenses@.len(),
            None => lens_place(box_view(lenses@), label@, lenses@.len() as int) is None,
        },
{
    let mut i: usize = 0;
    while i < lenses.len()
        invariant
            i <= lenses@.len(),
            lens_place(box_view(lenses@), label@, i as int) is None,
        decreases lenses@.len() - i,
    {
        if same_text(lenses[i].label.as_slice(), label) {
            proof {
                lemma_place_stays(box_view(lenses@), label@, i + 1, lenses@.len() as int);
            }
            return Some(i);
        }
        i += 1;
    }
    None
}

/// A first lens with the label stays the first as more lenses are looked at.
pub proof fn lemma_place_stays(lenses: Seq<(Seq<u8>, usize)>, label: Seq<u8>, n: int, m: int)
    requires
        0 <= n <= m,
        lens_place(lenses, label, n) is Some,
    ensures
        lens_place(lenses, label, m) == lens_place(lenses, label, n),
    decreases m - n,
{
    if n < m {
        lemma_place_stays(lenses, label, n, m - 1);
    }
}

/// 256 empty boxes.
pub fn empty_boxes() -> (boxes: Vec<Vec<Lens>>)
    ensures
        boxes@.len() == 256,
        forall|b: int| 0 <= b < 256 ==> (#[trigger] boxes@[b])@.len() == 0,
{
    let mut boxes: Vec<Vec<Lens>> = Vec::with_capacity(256);
    let mut b: usize = 0;
    while b < 256
        invariant
            b <= 256,
            boxes@.len() == b,
            forall|k: int| 0 <= k < b ==> (#[trigger] boxes@[k])@.len() == 0,
        decreases 256 - b,
    {
        boxes.push(Vec::new());
        b += 1;
    }
    boxes
}

/// Carries out one step on the boxes. Returns `false`, and leaves the boxes
/// as they are, if the step cannot be read.
pub fn apply_step(boxes: &mut Vec<Vec<Lens>>, step: &[u8]) -> (done: bool)
    requires
        old(boxes)@.len() == 256,
    ensures
        final(boxes)@.len() == 256,
        done ==> exists|label: Seq<u8>, focal: Option<usize>|
            #[trigger] step_reads(step@, label, focal) && boxes_view(final(boxes)@) == after_step(
                boxes_view(old(boxes)@),
                label,
                focal,
            ),
        !done ==> final(boxes)@ == old(boxes)@ && forall|label: Seq<u8>, focal: Option<usize>|
            !step_reads(step@, label, focal),
{
    let n = step.len();
    let dash_mark: [u8; 1] = [45];
    let equals_mark: [u8; 1] = [61];
    assert(dash_mark@ =~= seq![45u8]);
    assert(equals_mark@ =~= seq![61u8]);
    let ghost before = boxes_view(boxes@);
    if n > 0 && step[n - 1] == 45 {
        let dash = match find(step, dash_mark.as_slice()) {
            None => {
                assert(crate::text::occurs_at(step@, seq![45u8], n - 1)) by {
                    assert(step@.subrange(n - 1, n as int) =~= seq![45u8]);
                }
                return false;
            },
            Some(dash) => dash,
        };
        let label = &step[0..dash];
        let b = hash_bytes(label);
        if let Some(i) = find_lens(&boxes[b], label) {
            let ghost lenses = boxes@[b as int]@;
            boxes[b].remove(i);
            assert(box_view(boxes@[b as int]@) =~= box_view(lenses).remove(i as int));
        }
        proof {
            let after = after_step(before, label@, None);
            assert(boxes_view(boxes@) =~= after) by {
                assert forall|k: int| 0 <= k < 256 implies boxes_view(boxes@)[k] == after[k] by {
                    if k != b {
                        assert(boxes@[k] == old(boxes)@[k]);
                    }
                }
            }
            assert(takes_out(step@, dash as int, label@));
            assert(step_reads(step@, label@, None::<usize>));
        }
        true
    } else {
        let mark = match find(step, equals_mark.as_slice()) {
            None => {
                return false;
            },
            Some(mark) => mark,
        };
        let focal = match parse_decimal(&step[mark + 1..n]) {
            None => {
                proof {
                    assert forall|label: Seq<u8>, focal: Option<usize>| !step_reads(
                        step@,
                        label,
                        focal,
                    ) by {
                        if step_reads(step@, label, focal) {
                            let m = choose|m: int| #[trigger]
                                puts_in(step@, m, label, focal.unwrap());
                            assert(m == mark);
                        }
                    }
                }
                return false;
            },
            Some(focal) => focal,
        };
        if focal > usize::MAX as u64 {
            proof {
                assert forall|label: Seq<u8>, f: Option<usize>| !step_reads(step@, label, f) by {
                    if step_reads(step@, label, f) {
                        let m = choose|m: int| #[trigger] puts_in(step@, m, label, f.unwrap());
                        assert(m == mark);
                    }
                }
            }
            return false;
        }
        let label = &step[0..mark];
        let b = hash_bytes(label);
        let ghost lenses = boxes@[b as int]@;
        match find_lens(&boxes[b], label) {
            Some(i) => {
                boxes[b][i] = Lens { label: crate::text::to_vec(label), focal: focal as usize };
                assert(box_view(boxes@[b as int]@) =~= box_view(lenses).update(
                    i as int,
                    (label@, focal as usize),
                ));
            },
            None => {
                boxes[b].push(Lens { label: crate::text::to_vec(label), focal: focal as usize });
                assert(box_view(boxes@[b as int]@) =~= box_view(lenses).push(
                    (label@, focal as usize),
                ));
            },
        }
        proof {
            let after = after_step(before, label@, Some(focal as usize));
            assert(boxes_view(boxes@) =~= after) by {
                assert forall|k: int| 0 <= k < 256 implies boxes_view(boxes@)[k] == after[k] by {
                    if k != b {
                        assert(boxes@[k] == old(boxes)@[k]);
                    }
                }
            }
            assert(puts_in(step@, mark as int, label@, focal as usize));
            assert(step_reads(step@, label@, Some(focal as usize)));
        }
        true
    }
}

/// The focusing power of a box does not shrink as more lenses are counted,
/// and is not negative.
pub proof fn lemma_box_power_grows(lenses: Seq<(Seq<u8>, usize)>, b: int, k: int, n: int)
    requires
        0 <= b,
        0 <= k <= n,
    ensures
        0 <= box_power(lenses, b, k) <= box_power(lenses, b, n),
    decreases n,
{
    if n > 0 {
        let focal = lenses[n - 1].1 as int;
        assert((b + 1) * n * focal >= 0) by (nonlinear_arith)
            requires
                b >= 0,
                n > 0,
                focal >= 0,
        ;
        if k < n {
            lemma_box_power_grows(lenses, b, k, n - 1);
        } else {
            lemma_box_power_grows(lenses, b, k - 1, n - 1);
        }
    }
}

/// The focusing power does not shrink as more boxes are counted, and is not
/// negative.
pub proof fn lemma_power_grows(boxes: Seq<Seq<(Seq<u8>, usize)>>, k: int, n: int)
    requires
        0 <= k <= n,
    ensures
        0 <= spec_power(boxes, k) <= spec_power(boxes, n),
    decreases n,
{
    if n > 0 {
        lemma_box_power_grows(boxes[n - 1], n - 1, 0, boxes[n - 1].len() as int);
        if k < n {
            lemma_power_grows(boxes, k, n - 1);
        } else {
            lemma_power_grows(boxes, k - 1, n - 1);
        }
    }
}

/// The focusing power of all lenses in all boxes, or `None` if it cannot be
/// held in a `usize`.
pub fn focusing_power(boxes: &Vec<Vec<Lens>>) -> (r: Option<usize>)
    ensures
        r matches Some(power) ==> power == spec_power(
            boxes_view(boxes@),
            boxes@.len() as int,
        ),
        r is None <==> spec_power(boxes_view(boxes@), boxes@.len() as int) > usize::MAX,
{
    let ghost view = boxes_view(boxes@);
    let count = boxes.len();
    let mut power: usize = 0;
    let mut b: usize = 0;
    while b < count
        invariant
            b <= boxes@.len(),
            count == boxes@.len(),
            view == boxes_view(boxes@),
            power == spec_power(view, b as int),
        decreases boxes@.len() - b,
    {
        let lenses = &boxes[b];
        assert(view[b as int] == box_view(lenses@));
        let held = lenses.len();
        let mut part: usize = 0;
        let mut i: usize = 0;
        while i < held
            invariant
                i <= lenses@.len(),
                held == lenses@.len(),
                count == boxes@.len(),
                view == boxes_view(boxes@),
                b < boxes@.len(),
                view[b as int] == box_view(lenses@),
                part == box_power(view[b as int], b as int, i as int),
            decreases lenses@.len() - i,
        {
            assert(view[b as int][i as int].1 == lenses@[i as int].focal);
            let ghost focal = lenses@[i as int].focal as int;
            let ghost wanted = (b + 1) * (i + 1) * focal;
            proof {
                lemma_box_power_grows(view[b as int], b as int, i + 1, held as int);
                lemma_power_grows(view, b + 1, count as int);
                lemma_power_grows(view, b as int, b as int);
                assert(wanted >= (b + 1) * (i + 1) && wanted >= 0 || focal == 0)
                    by (nonlinear_arith)
                    requires
                        wanted == (b + 1) * (i + 1) * focal,
                        focal >= 0,
                        b >= 0,
                        i >= 0,
                ;
            }
            if lenses[i].focal == 0 {
                assert(wanted == 0) by (nonlinear_arith)
                    requires
                        wanted == (b + 1) * (i + 1) * focal,
                        focal == 0,
                ;
                i += 1;
                continue ;
            }
            assert(box_power(view[b as int], b as int, i + 1) == part + wanted);
            let per_place = match (b + 1).checked_mul(i + 1) {
                None => {
                    return None;
                },
                Some(v) => v,
            };
            let term = match per_place.checked_mul(lenses[i].focal) {
                None => {
                    return None;
                },
                Some(v) => v,
            };
            part = match part.checked_add(term) {
                None => {
                    return None;
                },
                Some(v) => v,
            };
            i += 1;
        }
        power = match power.checked_add(part) {
            None => {
                proof {
                    lemma_power_grows(view, b + 1, count as int);
                }
                return None;
            },
            Some(v) => v,
        };
        b += 1;
    }
    Some(power)
}

} // verus!
