//! Engine schematic geometry: grid locations, the neighbourhood of a
//! number printed on the grid, and gear ratios.

use vstd::prelude::*;

verus! {

/// A position on the schematic grid.
#[derive(Clone, Copy, PartialEq, Eq, Structural, Hash, Debug)]
pub struct Location {
    pub x: isize,
    pub y: isize,
}

impl Location {
    /// Builds a location from its coordinates.
    pub fn new(x: isize, y: isize) -> (r: Location)
        ensures
            r.x == x,
            r.y == y,
    {
        Location { x, y }
    }
}

/// How many decimal digits a number prints as.
pub open spec fn spec_digit_count(n: int) -> int
    decreases n,
{
    if n < 10 {
        1
    } else {
        1 + spec_digit_count(n / 10)
    }
}

/// Ten to the given power.
pub open spec fn pow10(k: int) -> int
    decreases k,
{
    if k <= 0 {
        1
    } else {
        10 * pow10(k - 1)
    }
}

/// A number below the `k`-th power of ten prints with at most `k` digits.
proof fn lemma_digit_count_le(n: int, k: int)
    requires
        0 <= n,
        1 <= k,
        n < pow10(k),
    ensures
        spec_digit_count(n) <= k,
    decreases k,
{
    if n >= 10 {
        assert(pow10(k) == 10 * pow10(k - 1));
        assert(n / 10 < pow10(k - 1));
        lemma_digit_count_le(n / 10, k - 1);
    }
}

/// Any `u32` prints with one to ten digits.
proof fn lemma_digit_count_u32(n: int)
    requires
        0 <= n <= u32::MAX,
    ensures
        1 <= spec_digit_count(n) <= 10,
{
    reveal_with_fuel(pow10, 12);
    assert(pow10(10) == 10_000_000_000);
    lemma_digit_count_le(n, 10);
    lemma_digit_count_ge_one(n);
}

/// Counts the decimal digits of a positive number.
fn digit_count(n: u32) -> (d: u32)
    requires
        n >= 1,
    ensures
        d == spec_digit_count(n as int),
        1 <= d <= 10,
{
    proof {
        lemma_digit_count_u32(n as int);
    }
    let mut d: u32 = 1;
    let mut m = n;
    while m >= 10
        invariant
            m >= 1,
            d >= 1,
            spec_digit_count(n as int) == spec_digit_count(m as int) + d - 1,
            spec_digit_count(n as int) <= 10,
        decreases m,
    {
        proof {
            lemma_digit_count_ge_one(m as int / 10);
        }
        m = m / 10;
        d = d + 1;
    }
    d
}

/// Digit counts are at least one.
proof fn lemma_digit_count_ge_one(n: int)
    ensures
        spec_digit_count(n) >= 1,
    decreases n,
{
    if n >= 10 {
        lemma_digit_count_ge_one(n / 10);
    }
}

/// Whether `l` borders the number `n` printed starting at `loc`: the row
/// above or below across the number's width plus one on each side, or the
/// cell immediately before or after it.
pub open spec fn spec_is_neighbor(n: int, loc: Location, l: Location) -> bool {
    let dc = spec_digit_count(n);
    ||| ((l.y == loc.y + 1 || l.y == loc.y - 1) && loc.x - 1 <= l.x <= loc.x + dc)
    ||| (l.y == loc.y && (l.x == loc.x - 1 || l.x == loc.x + dc))
}

/// The coordinate bounds under which a number's whole neighbourhood is
/// representable.
pub open spec fn neighbor_bounds(n: int, loc: Location) -> bool {
    &&& loc.x - 1 >= isize::MIN
    &&& loc.x + spec_digit_count(n) <= isize::MAX
    &&& loc.y - 1 >= isize::MIN
    &&& loc.y + 1 <= isize::MAX
}

/// The locations bordering the number `number` printed at `location`.
pub fn number_neighbors(number: u32, location: Location) -> (res: Vec<Location>)
    requires
        number >= 1,
        neighbor_bounds(number as int, location),
    ensures
        forall|l: Location|
            #[trigger] res@.contains(l) == spec_is_neighbor(number as int, location, l),
        res@.len() == 2 * (spec_digit_count(number as int) + 2) + 2,
{
    let dc = digit_count(number);
    let ghost dci = spec_digit_count(number as int);
    let mut res: Vec<Location> = Vec::new();
    let width = (dc as usize) + 2;
    for k in 0..width
        invariant
            width == dci + 2,
            dci == spec_digit_count(number as int),
            dc == dci,
            1 <= dci <= 10,
            neighbor_bounds(number as int, location),
            res@.len() == 2 * k,
            forall|t: int|
                0 <= t < res@.len() ==> #[trigger] res@[t] == (Location {
                    x: (location.x - 1 + t / 2) as isize,
                    y: if t % 2 == 0 {
                        (location.y + 1) as isize
                    } else {
                        (location.y - 1) as isize
                    },
                }),
    {
        proof {
            assert(k < width);
            assert(location.x - 1 + k <= location.x + dci);
        }
        let xo = location.x - 1 + (k as isize);
        res.push(Location { x: xo, y: location.y + 1 });
        res.push(Location { x: xo, y: location.y - 1 });
    }
    res.push(Location { x: location.x - 1, y: location.y });
    res.push(Location { x: location.x + (dc as isize), y: location.y });
    proof {
        let side = 2 * (dci + 2);
        assert forall|l: Location|
            #[trigger] res@.contains(l) == spec_is_neighbor(number as int, location, l) by {
            if res@.contains(l) {
                let t = choose|t: int| 0 <= t < res@.len() && res@[t] == l;
                if t < side {
                    assert(0 <= t / 2 <= dci + 1);
                }
            }
            if spec_is_neighbor(number as int, location, l) {
                if l.y == location.y + 1 {
                    let t = 2 * (l.x - (location.x - 1));
                    assert(t % 2 == 0 && t / 2 == l.x - (location.x - 1));
                    assert(res@[t] == l);
                } else if l.y == location.y - 1 {
                    let t = 2 * (l.x - (location.x - 1)) + 1;
                    assert(t % 2 == 1 && t / 2 == l.x - (location.x - 1));
                    assert(res@[t] == l);
                } else if l.x == location.x - 1 {
                    assert(res@[side] == l);
                } else {
                    assert(res@[side + 1] == l);
                }
            }
        }
    }
    res
}


/// Whether the entry's number, printed at the entry's location, borders
/// the given cell.
pub open spec fn entry_adjacent(e: (Location, u32), cell: Location) -> bool {
    spec_is_neighbor(e.1 as int, e.0, cell)
}

/// The numbers of the entries that border the given cell, in entry order.
pub open spec fn adjacent_numbers(entries: Seq<(Location, u32)>, cell: Location) -> Seq<u32>
    decreases entries.len(),
{
    if entries.len() == 0 {
        Seq::empty()
    } else {
        let rest = adjacent_numbers(entries.drop_last(), cell);
        if entry_adjacent(entries.last(), cell) {
            rest.push(entries.last().1)
        } else {
            rest
        }
    }
}

/// Every entry's number is positive and its neighbourhood representable.
pub open spec fn entries_wf(entries: Seq<(Location, u32)>) -> bool {
    forall|i: int|
        0 <= i < entries.len() ==> (#[trigger] entries[i]).1 >= 1 && neighbor_bounds(
            entries[i].1 as int,
            entries[i].0,
        )
}

/// The gear ratio at a cell: the product of the bordering numbers when
/// exactly two border it, and nothing otherwise.
pub fn gear_ratio(location: Location, numbers: &Vec<(Location, u32)>) -> (r: Option<u32>)
    requires
        entries_wf(numbers@),
        adjacent_numbers(numbers@, location).len() == 2 ==> adjacent_numbers(
            numbers@,
            location,
        )[0] * adjacent_numbers(numbers@, location)[1] <= u32::MAX,
    ensures
        r == (if adjacent_numbers(numbers@, location).len() == 2 {
            Some(
                (adjacent_numbers(numbers@, location)[0] * adjacent_numbers(
                    numbers@,
                    location,
                )[1]) as u32,
            )
        } else {
            None::<u32>
        }),
{
    let mut adjacent: Vec<u32> = Vec::new();
    let n = numbers.len();
    proof {
        assert(numbers@.take(0) =~= Seq::<(Location, u32)>::empty());
    }
    for i in 0..n
        invariant
            n == numbers@.len(),
            entries_wf(numbers@),
            adjacent@ == adjacent_numbers(numbers@.take(i as int), location),
    {
        proof {
            assert(numbers@.take(i + 1).drop_last() =~= numbers@.take(i as int));
            assert(numbers@.take(i + 1).last() == numbers@[i as int]);
        }
        let (loc, num) = numbers[i];
        let neighbors = number_neighbors(num, loc);
        if contains_location(&neighbors, location) {
            adjacent.push(num);
        }
    }
    proof {
        assert(numbers@.take(n as int) =~= numbers@);
    }
    if adjacent.len() == 2 {
        return Some(adjacent[0] * adjacent[1]);
    }
    None
}

/// Whether the cell occurs in the list.
fn contains_location(v: &Vec<Location>, cell: Location) -> (r: bool)
    ensures
        r == v@.contains(cell),
{
    let n = v.len();
    for i in 0..n
        invariant
            n == v@.len(),
            forall|j: int| 0 <= j < i ==> v@[j] != cell,
    {
        if v[i].x == cell.x && v[i].y == cell.y {
            return true;
        }
    }
    false
}

} // verus!
