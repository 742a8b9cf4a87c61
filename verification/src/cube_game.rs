//! The cube game: each game line records several revelations of red,
//! green and blue cube counts; a game is possible against a total bag,
//! and its power is the product of the smallest possible bag.

use vstd::prelude::*;

use crate::text::all_digits;
use crate::text::dec_val;
use crate::text::split_by;

verus! {

/// One revelation: how many cubes of each colour were shown at once.
#[derive(Clone, Copy, PartialEq, Eq, Structural, Debug)]
pub struct Revelation {
    pub reds: u32,
    pub greens: u32,
    pub blues: u32,
}

/// A single colour record: a count, a space, then a colour word.
pub open spec fn wf_revelation_record(s: Seq<char>) -> bool {
    let toks = split_by(s, seq![' ']);
    &&& toks.len() >= 2
    &&& toks[0].len() > 0
    &&& all_digits(toks[0])
    &&& dec_val(toks[0]) <= u32::MAX
}

/// The revelation a colour record denotes: the counted colour is set, the
/// others are zero, and an unknown colour word counts nothing.
pub open spec fn spec_revelation_from_str(s: Seq<char>) -> Revelation {
    let toks = split_by(s, seq![' ']);
    let count = dec_val(toks[0]) as u32;
    if toks[1] == "red"@ {
        Revelation { reds: count, greens: 0, blues: 0 }
    } else if toks[1] == "green"@ {
        Revelation { reds: 0, greens: count, blues: 0 }
    } else if toks[1] == "blue"@ {
        Revelation { reds: 0, greens: 0, blues: count }
    } else {
        Revelation { reds: 0, greens: 0, blues: 0 }
    }
}

impl Revelation {
    /// Parses one colour record, such as a count followed by a colour.
    pub fn from_str(as_str: &str) -> (r: Revelation)
        requires
            wf_revelation_record(as_str@),
        ensures
            r == spec_revelation_from_str(as_str@),
    {
        proof {
            reveal_strlit(" ");
            assert(" "@ =~= seq![' ']);
        }
        let toks = crate::text::split_str(as_str, " ");
        proof {
            assert(toks@.map_values(|t: &str| t@)[0] == toks@[0]@);
            assert(toks@.map_values(|t: &str| t@)[1] == toks@[1]@);
        }
        let count = crate::text::parse_u32(toks[0]);
        let color = toks[1];
        if crate::text::str_eq(color, "red") {
            Revelation { reds: count, greens: 0, blues: 0 }
        } else if crate::text::str_eq(color, "green") {
            Revelation { reds: 0, greens: count, blues: 0 }
        } else if crate::text::str_eq(color, "blue") {
            Revelation { reds: 0, greens: 0, blues: count }
        } else {
            Revelation { reds: 0, greens: 0, blues: 0 }
        }
    }

    /// Adds two revelations colour by colour.
    pub fn combine(&self, other: &Self) -> (r: Self)
        requires
            self.reds + other.reds <= u32::MAX,
            self.greens + other.greens <= u32::MAX,
            self.blues + other.blues <= u32::MAX,
        ensures
            r.reds == self.reds + other.reds,
            r.greens == self.greens + other.greens,
            r.blues == self.blues + other.blues,
    {
        Revelation {
            reds: self.reds + other.reds,
            greens: self.greens + other.greens,
            blues: self.blues + other.blues,
        }
    }

    /// Whether every colour count is at most the other's.
    pub fn is_leq_than(&self, other: &Self) -> (r: bool)
        ensures
            r == (self.reds <= other.reds && self.greens <= other.greens && self.blues
                <= other.blues),
    {
        self.reds <= other.reds && self.greens <= other.greens && self.blues <= other.blues
    }
}

/// The largest red count any revelation shows.
pub open spec fn max_reds(s: Seq<Revelation>) -> int
    decreases s.len(),
{
    if s.len() == 0 {
        0
    } else {
        let rest = max_reds(s.drop_last());
        if s.last().reds > rest {
            s.last().reds as int
        } else {
            rest
        }
    }
}

/// The largest green count any revelation shows.
pub open spec fn max_greens(s: Seq<Revelation>) -> int
    decreases s.len(),
{
    if s.len() == 0 {
        0
    } else {
        let rest = max_greens(s.drop_last());
        if s.last().greens > rest {
            s.last().greens as int
        } else {
            rest
        }
    }
}

/// The largest blue count any revelation shows.
pub open spec fn max_blues(s: Seq<Revelation>) -> int
    decreases s.len(),
{
    if s.len() == 0 {
        0
    } else {
        let rest = max_blues(s.drop_last());
        if s.last().blues > rest {
            s.last().blues as int
        } else {
            rest
        }
    }
}

/// One game: its identifier and its revelations in order.
#[derive(Clone)]
pub struct Game {
    pub id: u32,
    pub revelations: Vec<Revelation>,
}

impl Game {
    /// Whether every revelation fits within the given total bag.
    pub fn is_possible(&self, total: &Revelation) -> (r: bool)
        ensures
            r == (forall|i: int|
                0 <= i < self.revelations@.len() ==> (#[trigger] self.revelations@[i]).reds
                    <= total.reds && self.revelations@[i].greens <= total.greens
                    && self.revelations@[i].blues <= total.blues),
    {
        let n = self.revelations.len();
        for i in 0..n
            invariant
                n == self.revelations@.len(),
                forall|j: int|
                    0 <= j < i ==> (#[trigger] self.revelations@[j]).reds <= total.reds
                        && self.revelations@[j].greens <= total.greens
                        && self.revelations@[j].blues <= total.blues,
        {
            if !self.revelations[i].is_leq_than(total) {
                return false;
            }
        }
        true
    }

    /// The smallest bag that makes this game possible: the colour-wise
    /// maximum over all revelations.
    pub fn smallest_possible(&self) -> (r: Revelation)
        ensures
            r.reds == max_reds(self.revelations@),
            r.greens == max_greens(self.revelations@),
            r.blues == max_blues(self.revelations@),
    {
        let mut res = Revelation { reds: 0, greens: 0, blues: 0 };
        let n = self.revelations.len();
        proof {
            assert(self.revelations@.take(0) =~= Seq::<Revelation>::empty());
        }
        for i in 0..n
            invariant
                n == self.revelations@.len(),
                res.reds == max_reds(self.revelations@.take(i as int)),
                res.greens == max_greens(self.revelations@.take(i as int)),
                res.blues == max_blues(self.revelations@.take(i as int)),
        {
            proof {
                assert(self.revelations@.take(i + 1).drop_last() =~= self.revelations@.take(
                    i as int,
                ));
                assert(self.revelations@.take(i + 1).last() == self.revelations@[i as int]);
            }
            let rev = self.revelations[i];
            if rev.reds > res.reds {
                res.reds = rev.reds;
            }
            if rev.greens > res.greens {
                res.greens = rev.greens;
            }
            if rev.blues > res.blues {
                res.blues = rev.blues;
            }
        }
        proof {
            assert(self.revelations@.take(n as int) =~= self.revelations@);
        }
        res
    }

    /// The game's power: the product of the smallest possible bag's
    /// colour counts.
    pub fn power(&self) -> (r: u32)
        requires
            max_reds(self.revelations@) * max_greens(self.revelations@) <= u32::MAX,
            max_reds(self.revelations@) * max_greens(self.revelations@) * max_blues(
                self.revelations@,
            ) <= u32::MAX,
        ensures
            r == max_reds(self.revelations@) * max_greens(self.revelations@) * max_blues(
                self.revelations@,
            ),
    {
        let revel = self.smallest_possible();
        revel.reds * revel.greens * revel.blues
    }
}


/// The colour-wise sums of the revelations a list of records denotes.
pub open spec fn rev_sum(records: Seq<Seq<char>>) -> (int, int, int)
    decreases records.len(),
{
    if records.len() == 0 {
        (0, 0, 0)
    } else {
        let rest = rev_sum(records.drop_last());
        let v = spec_revelation_from_str(records.last());
        (rest.0 + v.reds, rest.1 + v.greens, rest.2 + v.blues)
    }
}

/// A partial record sum never exceeds the whole sum.
proof fn lemma_rev_sum_take_le(records: Seq<Seq<char>>, k: int)
    requires
        0 <= k <= records.len(),
    ensures
        rev_sum(records.take(k)).0 <= rev_sum(records).0,
        rev_sum(records.take(k)).1 <= rev_sum(records).1,
        rev_sum(records.take(k)).2 <= rev_sum(records).2,
    decreases records.len() - k,
{
    if k == records.len() {
        assert(records.take(k) =~= records);
    } else {
        assert(records.take(k + 1).drop_last() =~= records.take(k));
        assert(records.take(k + 1).last() == records[k]);
        lemma_rev_sum_take_le(records, k + 1);
    }
}

/// One revelation group of a game line: comma-separated colour records
/// whose colour-wise sums fit in `u32`.
pub open spec fn wf_group(g: Seq<char>) -> bool {
    let records = split_by(g, seq![',', ' ']);
    &&& forall|i: int| 0 <= i < records.len() ==> wf_revelation_record(#[trigger] records[i])
    &&& rev_sum(records).0 <= u32::MAX
    &&& rev_sum(records).1 <= u32::MAX
    &&& rev_sum(records).2 <= u32::MAX
}

/// The revelation one group denotes: its records combined.
pub open spec fn spec_group_revelation(g: Seq<char>) -> Revelation {
    let sums = rev_sum(split_by(g, seq![',', ' ']));
    Revelation { reds: sums.0 as u32, greens: sums.1 as u32, blues: sums.2 as u32 }
}

/// A game line: a label whose tail is the game number, a colon, then
/// semicolon-separated revelation groups.
pub open spec fn wf_game_line(line: Seq<char>) -> bool {
    let head = split_by(line, seq![':', ' ']);
    &&& head.len() >= 2
    &&& head[0].len() > 5
    &&& all_digits(head[0].skip(5))
    &&& dec_val(head[0].skip(5)) <= u32::MAX
    &&& ({
        let groups = split_by(head[1], seq![';', ' ']);
        forall|k: int| 0 <= k < groups.len() ==> wf_group(#[trigger] groups[k])
    })
}

/// The game number a well-formed line denotes.
pub open spec fn spec_game_id(line: Seq<char>) -> int {
    dec_val(split_by(line, seq![':', ' '])[0].skip(5))
}

/// The revelation groups of a well-formed line.
pub open spec fn spec_game_groups(line: Seq<char>) -> Seq<Seq<char>> {
    split_by(split_by(line, seq![':', ' '])[1], seq![';', ' '])
}

/// Parses one game line into its number and combined revelations.
pub fn game_from_line(line: &str) -> (g: Game)
    requires
        wf_game_line(line@),
    ensures
        g.id == spec_game_id(line@),
        g.revelations@.len() == spec_game_groups(line@).len(),
        forall|k: int|
            0 <= k < g.revelations@.len() ==> g.revelations@[k] == spec_group_revelation(
                #[trigger] spec_game_groups(line@)[k],
            ),
{
    proof {
        reveal_strlit(": ");
        assert(": "@ =~= seq![':', ' ']);
        reveal_strlit("; ");
        assert("; "@ =~= seq![';', ' ']);
        reveal_strlit(", ");
        assert(", "@ =~= seq![',', ' ']);
    }
    let head = crate::text::split_str(line, ": ");
    proof {
        assert(head@.map_values(|t: &str| t@)[0] == head@[0]@);
        assert(head@.map_values(|t: &str| t@)[1] == head@[1]@);
    }
    let prefix = head[0];
    let pl = prefix.unicode_len();
    let id_str = prefix.substring_char(5, pl);
    proof {
        assert(id_str@ =~= head@[0]@.skip(5));
    }
    let id = crate::text::parse_u32(id_str);
    let groups = crate::text::split_str(head[1], "; ");
    let mut sets: Vec<Revelation> = Vec::new();
    let gn = groups.len();
    for k in 0..gn
        invariant
            gn == groups.len(),
            groups@.map_values(|t: &str| t@) == spec_game_groups(line@),
            forall|x: int| 0 <= x < gn ==> wf_group(#[trigger] spec_game_groups(line@)[x]),
            sets@.len() == k,
            forall|x: int|
                0 <= x < k ==> sets@[x] == spec_group_revelation(
                    #[trigger] spec_game_groups(line@)[x],
                ),
    {
        proof {
            reveal_strlit(", ");
            assert(", "@ =~= seq![',', ' ']);
            assert(groups@.map_values(|t: &str| t@)[k as int] == groups@[k as int]@);
        }
        let records = crate::text::split_str(groups[k], ", ");
        let ghost grecs = split_by(spec_game_groups(line@)[k as int], seq![',', ' ']);
        let mut revelation = Revelation { reds: 0, greens: 0, blues: 0 };
        let rn = records.len();
        proof {
            assert(grecs.take(0) =~= Seq::<Seq<char>>::empty());
        }
        for j in 0..rn
            invariant
                rn == records.len(),
                records@.map_values(|t: &str| t@) == grecs,
                grecs == split_by(spec_game_groups(line@)[k as int], seq![',', ' ']),
                wf_group(spec_game_groups(line@)[k as int]),
                revelation.reds == rev_sum(grecs.take(j as int)).0,
                revelation.greens == rev_sum(grecs.take(j as int)).1,
                revelation.blues == rev_sum(grecs.take(j as int)).2,
        {
            proof {
                assert(records@.map_values(|t: &str| t@)[j as int] == records@[j as int]@);
                assert(grecs.take(j + 1).drop_last() =~= grecs.take(j as int));
                assert(grecs.take(j + 1).last() == grecs[j as int]);
                lemma_rev_sum_take_le(grecs, j + 1);
                assert forall|c: int|
                    0 <= c <= j implies rev_sum(grecs.take(c)).0 >= 0 && rev_sum(
                    grecs.take(c),
                ).1 >= 0 && rev_sum(grecs.take(c)).2 >= 0 by {
                    lemma_rev_sum_nonneg(grecs.take(c));
                }
            }
            let piece = Revelation::from_str(records[j]);
            revelation = revelation.combine(&piece);
        }
        proof {
            assert(grecs.take(rn as int) =~= grecs);
        }
        sets.push(revelation);
    }
    Game { id, revelations: sets }
}

/// Record sums are never negative.
proof fn lemma_rev_sum_nonneg(records: Seq<Seq<char>>)
    ensures
        rev_sum(records).0 >= 0,
        rev_sum(records).1 >= 0,
        rev_sum(records).2 >= 0,
    decreases records.len(),
{
    if records.len() > 0 {
        lemma_rev_sum_nonneg(records.drop_last());
    }
}

} // verus!
