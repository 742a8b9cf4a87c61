//! Scratchcard scoring: each card has winning numbers and numbers you
//! have; matches score points, and under the cascading rule each card won
//! copies of the following cards.

use vstd::prelude::*;

use crate::text::all_digits;
use crate::text::dec_val;
use crate::text::split_by;

verus! {

/// One scratchcard: the winning numbers and the numbers you have.
#[derive(Clone)]
pub struct Card {
    pub winning_numbers: Vec<u32>,
    pub numbers_you_have: Vec<u32>,
}

/// How many of the winning numbers appear among the numbers you have.
pub open spec fn spec_count_matches(win: Seq<u32>, have: Seq<u32>) -> int
    decreases win.len(),
{
    if win.len() == 0 {
        0
    } else {
        spec_count_matches(win.drop_last(), have) + if have.contains(win.last()) {
            1int
        } else {
            0int
        }
    }
}

/// Two to the given power.
pub open spec fn pow2(k: nat) -> nat
    decreases k,
{
    if k == 0 {
        1
    } else {
        2 * pow2((k - 1) as nat)
    }
}

/// A power of two is at least one.
proof fn lemma_pow2_pos(k: nat)
    ensures
        pow2(k) >= 1,
    decreases k,
{
    if k > 0 {
        lemma_pow2_pos((k - 1) as nat);
    }
}

/// `pow2` grows with its exponent.
proof fn lemma_pow2_mono(a: nat, b: nat)
    requires
        a <= b,
    ensures
        pow2(a) <= pow2(b),
    decreases b,
{
    if a < b {
        lemma_pow2_mono(a, (b - 1) as nat);
        lemma_pow2_pos((b - 1) as nat);
    }
}

/// `pow2` stays within `u32` range for exponents up to 31.
proof fn lemma_pow2_bound(k: nat)
    requires
        k <= 31,
    ensures
        pow2(k) <= 0x8000_0000,
{
    lemma_pow2_mono(k, 31);
    reveal_with_fuel(pow2, 33);
    assert(pow2(31) == 0x8000_0000);
}

/// The score of a card: zero without matches, otherwise doubling from one
/// point per extra match.
pub open spec fn spec_score(win: Seq<u32>, have: Seq<u32>) -> int {
    let m = spec_count_matches(win, have);
    if m == 0 {
        0
    } else {
        pow2((m - 1) as nat) as int
    }
}

/// Whether `x` occurs in `v`.
fn vec_contains(v: &Vec<u32>, x: u32) -> (r: bool)
    ensures
        r == v@.contains(x),
{
    let n = v.len();
    for i in 0..n
        invariant
            n == v@.len(),
            forall|j: int| 0 <= j < i ==> v@[j] != x,
    {
        if v[i] == x {
            return true;
        }
    }
    false
}

impl Card {
    /// Counts the winning numbers that appear among the numbers you have.
    pub fn count_matches(&self) -> (r: u32)
        requires
            self.winning_numbers@.len() <= u32::MAX,
        ensures
            r == spec_count_matches(self.winning_numbers@, self.numbers_you_have@),
    {
        let n = self.winning_numbers.len();
        let mut count: u32 = 0;
        proof {
            assert(self.winning_numbers@.take(0) =~= Seq::<u32>::empty());
        }
        for i in 0..n
            invariant
                n == self.winning_numbers@.len(),
                n <= u32::MAX,
                count == spec_count_matches(
                    self.winning_numbers@.take(i as int),
                    self.numbers_you_have@,
                ),
                count <= i,
        {
            proof {
                assert(self.winning_numbers@.take(i + 1).drop_last() =~= self.winning_numbers@.take(
                    i as int,
                ));
                assert(self.winning_numbers@.take(i + 1).last() == self.winning_numbers@[i as int]);
            }
            if vec_contains(&self.numbers_you_have, self.winning_numbers[i]) {
                count += 1;
            }
        }
        proof {
            assert(self.winning_numbers@.take(n as int) =~= self.winning_numbers@);
        }
        count
    }

    /// The card's score: zero without matches, otherwise one point doubled
    /// for every further match.
    pub fn score(&self) -> (r: u32)
        requires
            self.winning_numbers@.len() <= u32::MAX,
            spec_count_matches(self.winning_numbers@, self.numbers_you_have@) <= 32,
        ensures
            r == spec_score(self.winning_numbers@, self.numbers_you_have@),
    {
        let m = self.count_matches();
        if m == 0 {
            return 0;
        }
        let mut acc: u32 = 1;
        let e = m - 1;
        for i in 0..e
            invariant
                e <= 31,
                i <= e,
                acc == pow2(i as nat),
        {
            proof {
                lemma_pow2_bound((i + 1) as nat);
            }
            acc = acc * 2;
        }
        acc
    }
}

/// The values of the non-empty tokens, in order.
pub open spec fn spec_num_values(toks: Seq<Seq<char>>) -> Seq<int>
    decreases toks.len(),
{
    if toks.len() == 0 {
        Seq::empty()
    } else {
        let rest = spec_num_values(toks.drop_last());
        if toks.last().len() > 0 {
            rest.push(dec_val(toks.last()))
        } else {
            rest
        }
    }
}

/// Every non-empty token is a decimal number that fits in a `u32`.
pub open spec fn wf_num_tokens(toks: Seq<Seq<char>>) -> bool {
    forall|i: int|
        0 <= i < toks.len() && (#[trigger] toks[i]).len() > 0 ==> all_digits(toks[i]) && dec_val(
            toks[i],
        ) <= u32::MAX
}

/// A card line: a label, a colon, then two space-separated number lists
/// divided by a bar.
pub open spec fn wf_card_line(line: Seq<char>) -> bool {
    let head = split_by(line, seq![':', ' ']);
    &&& head.len() >= 2
    &&& ({
        let sides = split_by(head[1], seq![' ', '|', ' ']);
        &&& sides.len() >= 2
        &&& wf_num_tokens(split_by(sides[0], seq![' ']))
        &&& wf_num_tokens(split_by(sides[1], seq![' ']))
    })
}

/// The winning numbers a well-formed card line denotes.
pub open spec fn spec_card_winning(line: Seq<char>) -> Seq<int> {
    let head = split_by(line, seq![':', ' ']);
    let sides = split_by(head[1], seq![' ', '|', ' ']);
    spec_num_values(split_by(sides[0], seq![' ']))
}

/// The numbers you have on a well-formed card line.
pub open spec fn spec_card_have(line: Seq<char>) -> Seq<int> {
    let head = split_by(line, seq![':', ' ']);
    let sides = split_by(head[1], seq![' ', '|', ' ']);
    spec_num_values(split_by(sides[1], seq![' ']))
}

/// Parses one space-separated number list, skipping empty tokens.
fn parse_nums(side: &str) -> (r: Vec<u32>)
    requires
        wf_num_tokens(split_by(side@, seq![' '])),
    ensures
        r@.map_values(|x: u32| x as int) == spec_num_values(split_by(side@, seq![' '])),
{
    proof {
        reveal_strlit(" ");
        assert(" "@ =~= seq![' ']);
    }
    let toks = crate::text::split_str(side, " ");
    let mut r: Vec<u32> = Vec::new();
    let n = toks.len();
    proof {
        assert(toks@.map_values(|t: &str| t@).take(0) =~= Seq::<Seq<char>>::empty());
        assert(r@.map_values(|x: u32| x as int) =~= Seq::<int>::empty());
    }
    for i in 0..n
        invariant
            n == toks.len(),
            toks@.map_values(|t: &str| t@) == split_by(side@, seq![' ']),
            wf_num_tokens(split_by(side@, seq![' '])),
            r@.map_values(|x: u32| x as int) == spec_num_values(
                split_by(side@, seq![' ']).take(i as int),
            ),
    {
        let ghost tv = toks@.map_values(|t: &str| t@);
        proof {
            assert(tv[i as int] == toks@[i as int]@);
            assert(tv.take(i + 1).drop_last() =~= tv.take(i as int));
            assert(tv.take(i + 1).last() == tv[i as int]);
        }
        let t = toks[i];
        if t.unicode_len() > 0 {
            let v = crate::text::parse_u32(t);
            r.push(v);
            proof {
                assert(r@.map_values(|x: u32| x as int) =~= r@.drop_last().map_values(
                    |x: u32| x as int,
                ).push(v as int));
            }
        }
    }
    proof {
        assert(toks@.map_values(|t: &str| t@).take(n as int) =~= toks@.map_values(|t: &str| t@));
    }
    r
}

/// Parses one card line.
pub fn parse_card(line: &str) -> (r: Card)
    requires
        wf_card_line(line@),
    ensures
        r.winning_numbers@.map_values(|x: u32| x as int) == spec_card_winning(line@),
        r.numbers_you_have@.map_values(|x: u32| x as int) == spec_card_have(line@),
{
    proof {
        reveal_strlit(": ");
        assert(": "@ =~= seq![':', ' ']);
        reveal_strlit(" | ");
        assert(" | "@ =~= seq![' ', '|', ' ']);
    }
    let head = crate::text::split_str(line, ": ");
    proof {
        assert(head@.map_values(|t: &str| t@)[1] == head@[1]@);
    }
    let sides = crate::text::split_str(head[1], " | ");
    proof {
        assert(sides@.map_values(|t: &str| t@)[0] == sides@[0]@);
        assert(sides@.map_values(|t: &str| t@)[1] == sides@[1]@);
    }
    Card { winning_numbers: parse_nums(sides[0]), numbers_you_have: parse_nums(sides[1]) }
}

/// The matches of a card.
pub open spec fn card_matches(c: Card) -> int {
    spec_count_matches(c.winning_numbers@, c.numbers_you_have@)
}

/// One cascading step: card `i` with `m` matches adds its count to the
/// counts of the next `m` cards.
pub open spec fn apply_card(counts: Seq<int>, i: int, m: int) -> Seq<int> {
    Seq::new(
        counts.len(),
        |j: int|
            if i < j <= i + m {
                counts[j] + counts[i]
            } else {
                counts[j]
            },
    )
}

/// The counts after the cascading rule has run from card `i` to the end.
pub open spec fn run_counts(cards: Seq<Card>, counts: Seq<int>, i: int) -> Seq<int>
    decreases cards.len() - i,
{
    if i < 0 || i >= cards.len() {
        counts
    } else {
        run_counts(cards, apply_card(counts, i, card_matches(cards[i])), i + 1)
    }
}

/// The sum of a sequence of counts.
pub open spec fn seq_sum(s: Seq<int>) -> int
    decreases s.len(),
{
    if s.len() == 0 {
        0
    } else {
        seq_sum(s.drop_last()) + s.last()
    }
}

/// The total number of scratchcards the cascading rule yields: every card
/// starts with one copy.
pub open spec fn spec_total_cards(cards: Seq<Card>) -> int {
    seq_sum(run_counts(cards, Seq::new(cards.len(), |j: int| 1int), 0))
}

/// Running the cascade never shrinks any count and keeps the length.
proof fn lemma_run_counts_ge(cards: Seq<Card>, counts: Seq<int>, i: int)
    requires
        forall|j: int| 0 <= j < counts.len() ==> #[trigger] counts[j] >= 0,
    ensures
        run_counts(cards, counts, i).len() == counts.len(),
        forall|j: int|
            0 <= j < counts.len() ==> #[trigger] run_counts(cards, counts, i)[j] >= counts[j],
    decreases cards.len() - i,
{
    if 0 <= i < cards.len() {
        let applied = apply_card(counts, i, card_matches(cards[i]));
        lemma_run_counts_ge(cards, applied, i + 1);
    }
}

/// A sum of non-negative counts is non-negative.
proof fn lemma_seq_sum_nonneg(s: Seq<int>)
    requires
        forall|j: int| 0 <= j < s.len() ==> #[trigger] s[j] >= 0,
    ensures
        seq_sum(s) >= 0,
    decreases s.len(),
{
    if s.len() > 0 {
        assert(forall|j: int| 0 <= j < s.drop_last().len() ==> s.drop_last()[j] == s[j]);
        lemma_seq_sum_nonneg(s.drop_last());
    }
}

/// Each non-negative count is at most the sum of all of them.
proof fn lemma_seq_sum_ge_elem(s: Seq<int>, j: int)
    requires
        forall|k: int| 0 <= k < s.len() ==> #[trigger] s[k] >= 0,
        0 <= j < s.len(),
    ensures
        seq_sum(s) >= s[j],
    decreases s.len(),
{
    assert(forall|k: int| 0 <= k < s.drop_last().len() ==> s.drop_last()[k] == s[k]);
    if j == s.len() - 1 {
        lemma_seq_sum_nonneg(s.drop_last());
    } else {
        lemma_seq_sum_ge_elem(s.drop_last(), j);
    }
}

/// A prefix sum of non-negative counts is at most the whole sum.
proof fn lemma_seq_sum_take_le(s: Seq<int>, k: int)
    requires
        forall|j: int| 0 <= j < s.len() ==> #[trigger] s[j] >= 0,
        0 <= k <= s.len(),
    ensures
        seq_sum(s.take(k)) <= seq_sum(s),
    decreases s.len() - k,
{
    if k == s.len() {
        assert(s.take(k) =~= s);
    } else {
        assert(s.take(k + 1).drop_last() =~= s.take(k));
        assert(s.take(k + 1).last() == s[k]);
        lemma_seq_sum_take_le(s, k + 1);
    }
}

/// Plays the cascading game: every card starts with one copy, and card
/// `i` with `m` matches adds its copies to each of the next `m` cards.
/// Returns the total number of cards held at the end.
pub fn run_game(cards: &Vec<Card>) -> (r: u32)
    requires
        forall|i: int|
            0 <= i < cards@.len() ==> (#[trigger] cards@[i]).winning_numbers@.len() <= u32::MAX,
        forall|i: int|
            0 <= i < cards@.len() ==> card_matches(#[trigger] cards@[i]) == 0 || i + card_matches(
                cards@[i],
            ) < cards@.len(),
        spec_total_cards(cards@) <= u32::MAX,
    ensures
        r == spec_total_cards(cards@),
{
    let n = cards.len();
    let ghost init = Seq::new(n as nat, |j: int| 1int);
    let ghost final_counts = run_counts(cards@, init, 0);
    let mut counts: Vec<u32> = Vec::new();
    for i in 0..n
        invariant
            counts@.len() == i,
            forall|j: int| 0 <= j < i ==> counts@[j] == 1,
    {
        counts.push(1);
    }
    proof {
        assert(counts@.map_values(|x: u32| x as int) =~= init);
        lemma_run_counts_ge(cards@, init, 0);
        assert(forall|j: int| 0 <= j < n ==> #[trigger] final_counts[j] >= init[j]);
    }
    for i in 0..n
        invariant
            n == cards@.len(),
            counts@.len() == n,
            final_counts.len() == n,
            forall|j: int| 0 <= j < n ==> #[trigger] final_counts[j] >= 1,
            forall|k: int|
                0 <= k < cards@.len() ==> (#[trigger] cards@[k]).winning_numbers@.len()
                    <= u32::MAX,
            forall|k: int|
                0 <= k < cards@.len() ==> card_matches(#[trigger] cards@[k]) == 0 || k
                    + card_matches(cards@[k]) < cards@.len(),
            spec_total_cards(cards@) <= u32::MAX,
            init == Seq::new(cards@.len(), |j: int| 1int),
            final_counts == run_counts(cards@, init, 0),
            final_counts == run_counts(cards@, counts@.map_values(|x: u32| x as int), i as int),
            forall|j: int| 0 <= j < n ==> #[trigger] counts@[j] >= 1,
    {
        let m = cards[i].count_matches();
        let ghost before = counts@.map_values(|x: u32| x as int);
        let ghost applied = apply_card(before, i as int, m as int);
        proof {
            assert(before.len() == n);
            assert(applied.len() == n);
            assert forall|j: int| 0 <= j < applied.len() implies #[trigger] applied[j] >= 0 by {
                assert(before[j] >= 1);
                assert(before[i as int] >= 1);
            }
            lemma_run_counts_ge(cards@, applied, i + 1);
        }
        let upper = if m > 0 {
            i + (m as usize) + 1
        } else {
            i + 1
        };
        let ci = counts[i];
        for j in (i + 1)..upper
            invariant
                n == cards@.len(),
                counts@.len() == n,
                i < n,
                m == card_matches(cards@[i as int]),
                upper == if m > 0 {
                    i + m + 1
                } else {
                    i + 1
                },
                upper <= n,
                i + 1 <= j <= upper,
                before.len() == n,
                applied.len() == n,
                final_counts.len() == n,
                forall|x: int| 0 <= x < n ==> #[trigger] final_counts[x] >= 1,
                ci == before[i as int],
                forall|x: int|
                    0 <= x < n ==> #[trigger] counts@[x] as int == (if i < x < j {
                        applied[x]
                    } else {
                        before[x]
                    }),
                applied == apply_card(before, i as int, m as int),
                final_counts == run_counts(cards@, applied, i + 1),
                forall|x: int| 0 <= x < n ==> #[trigger] before[x] >= 1,
                spec_total_cards(cards@) <= u32::MAX,
                init == Seq::new(cards@.len(), |j: int| 1int),
                final_counts == run_counts(cards@, init, 0),
        {
            proof {
                assert forall|x: int| 0 <= x < applied.len() implies #[trigger] applied[x] >= 0 by {
                    assert(before[x] >= 1);
                    assert(before[i as int] >= 1);
                }
                lemma_run_counts_ge(cards@, applied, i + 1);
                lemma_seq_sum_ge_elem(final_counts, j as int);
                assert(applied[j as int] == before[j as int] + before[i as int]);
                assert(run_counts(cards@, applied, i + 1)[j as int] >= applied[j as int]);
                assert(final_counts[j as int] >= applied[j as int]);
                assert(seq_sum(final_counts) == spec_total_cards(cards@));
                assert(counts@.map_values(|x: u32| x as int)[j as int] == counts@[j as int] as int);
                assert(counts@[j as int] as int == before[j as int]);
            }
            let cj = counts[j];
            let ghost prev = counts@;
            counts[j] = cj + ci;
            proof {
                assert(counts@ == prev.update(j as int, (cj + ci) as u32));
                assert forall|x: int|
                    0 <= x < n implies #[trigger] counts@[x] as int == (if i < x < j + 1 {
                    applied[x]
                } else {
                    before[x]
                }) by {
                    if x == j as int {
                        assert(counts@[x] == (cj + ci) as u32);
                        assert(applied[x] == before[x] + before[i as int]);
                    } else {
                        assert(counts@[x] == prev[x]);
                    }
                }
            }
        }
        proof {
            assert forall|x: int|
                0 <= x < n implies counts@.map_values(|y: u32| y as int)[x] == applied[x] by {
                assert(counts@.map_values(|y: u32| y as int)[x] == counts@[x] as int);
                assert(applied[x] == if i < x <= i + m {
                    before[x] + before[i as int]
                } else {
                    before[x]
                });
            }
            assert(counts@.map_values(|x: u32| x as int) =~= applied);
            assert forall|x: int| 0 <= x < n implies #[trigger] counts@[x] >= 1 by {
                assert(counts@.map_values(|y: u32| y as int)[x] == counts@[x] as int);
                assert(applied[x] >= before[x] >= 1);
            }
        }
    }
    proof {
        assert(counts@.map_values(|x: u32| x as int) =~= run_counts(
            cards@,
            counts@.map_values(|x: u32| x as int),
            n as int,
        ));
        assert(counts@.map_values(|x: u32| x as int) == final_counts);
        lemma_run_counts_ge(cards@, init, 0);
    }
    let mut total: u32 = 0;
    proof {
        assert(final_counts.take(0) =~= Seq::<int>::empty());
    }
    for k in 0..n
        invariant
            n == counts@.len(),
            counts@.map_values(|x: u32| x as int) == final_counts,
            final_counts.len() == n,
            forall|j: int| 0 <= j < n ==> #[trigger] final_counts[j] >= 1,
            spec_total_cards(cards@) <= u32::MAX,
            n == cards@.len(),
            init == Seq::new(cards@.len(), |j: int| 1int),
            final_counts == run_counts(cards@, init, 0),
            seq_sum(final_counts) == spec_total_cards(cards@),
            total == seq_sum(final_counts.take(k as int)),
    {
        proof {
            assert(final_counts.take(k + 1).drop_last() =~= final_counts.take(k as int));
            assert(final_counts.take(k + 1).last() == final_counts[k as int]);
            lemma_seq_sum_take_le(final_counts, k + 1);
            lemma_seq_sum_nonneg(final_counts.take(k as int));
            assert(counts@.map_values(|x: u32| x as int)[k as int] == counts@[k as int] as int);
        }
        total = total + counts[k];
    }
    proof {
        assert(final_counts.take(n as int) =~= final_counts);
    }
    total
}

} // verus!
