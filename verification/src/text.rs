//! Verified text utilities: decimal numbers, substring search and
//! separator splitting, shared by the input parsers of the puzzle modules.

use vstd::prelude::*;

verus! {

/// Whether `c` is a decimal digit.
pub open spec fn is_digit(c: char) -> bool {
    '0' <= c <= '9'
}

/// The numeric value of a decimal digit.
pub open spec fn digit_val(c: char) -> int {
    c as int - '0' as int
}

/// Whether every character of `s` is a decimal digit.
pub open spec fn all_digits(s: Seq<char>) -> bool {
    forall|i: int| 0 <= i < s.len() ==> is_digit(#[trigger] s[i])
}

/// The value of `s` read as a decimal numeral.
pub open spec fn dec_val(s: Seq<char>) -> int
    decreases s.len(),
{
    if s.len() == 0 {
        0
    } else {
        dec_val(s.drop_last()) * 10 + digit_val(s.last())
    }
}

/// A decimal numeral never denotes a negative value.
pub proof fn lemma_dec_val_nonneg(s: Seq<char>)
    requires
        all_digits(s),
    ensures
        dec_val(s) >= 0,
    decreases s.len(),
{
    if s.len() > 0 {
        lemma_dec_val_nonneg(s.drop_last());
    }
}

/// A prefix of a numeral denotes at most what the whole numeral denotes.
pub proof fn lemma_dec_val_take_le(s: Seq<char>, k: int)
    requires
        all_digits(s),
        0 <= k <= s.len(),
    ensures
        dec_val(s.take(k)) <= dec_val(s),
    decreases s.len() - k,
{
    if k == s.len() {
        assert(s.take(k) =~= s);
    } else {
        assert(s.take(k + 1).drop_last() =~= s.take(k));
        assert(s.take(k + 1).last() == s[k]);
        assert(all_digits(s.take(k))) by {
            assert(forall|i: int| 0 <= i < k ==> s.take(k)[i] == s[i]);
        }
        lemma_dec_val_nonneg(s.take(k));
        lemma_dec_val_take_le(s, k + 1);
    }
}

/// Whether the pattern `p` occurs in `s` starting at position `i`.
pub open spec fn match_at(s: Seq<char>, p: Seq<char>, i: int) -> bool {
    0 <= i && i + p.len() <= s.len() && s.subrange(i, i + p.len()) == p
}

/// The first position at or after `from` where `p` occurs in `s`.
pub open spec fn find_from(s: Seq<char>, p: Seq<char>, from: int) -> Option<int>
    decreases s.len() - from,
{
    if from < 0 || p.len() <= 0 || from + p.len() > s.len() {
        None
    } else if match_at(s, p, from) {
        Some(from)
    } else {
        find_from(s, p, from + 1)
    }
}

/// What a successful search guarantees: a match in range, none earlier.
pub proof fn lemma_find_from_bounds(s: Seq<char>, p: Seq<char>, from: int)
    ensures
        match find_from(s, p, from) {
            Some(i) => from <= i && i + p.len() <= s.len() && match_at(s, p, i),
            None => true,
        },
    decreases s.len() - from,
{
    if !(from < 0 || p.len() <= 0 || from + p.len() > s.len()) && !match_at(s, p, from) {
        lemma_find_from_bounds(s, p, from + 1);
    }
}

/// The pieces of `s` between occurrences of the separator `p`, in order.
/// Splitting never yields an empty piece list; a string without the
/// separator is its own single piece.
pub open spec fn split_by(s: Seq<char>, p: Seq<char>) -> Seq<Seq<char>>
    decreases s.len(),
    via split_by_decreases
{
    if p.len() == 0 {
        seq![s]
    } else {
        match find_from(s, p, 0) {
            None => seq![s],
            Some(i) => seq![s.take(i)] + split_by(s.skip(i + p.len()), p),
        }
    }
}

#[via_fn]
proof fn split_by_decreases(s: Seq<char>, p: Seq<char>) {
    lemma_find_from_bounds(s, p, 0);
}

/// Compares two strings character by character.
pub fn str_eq(a: &str, b: &str) -> (r: bool)
    ensures
        r == (a@ == b@),
{
    let la = a.unicode_len();
    let lb = b.unicode_len();
    if la != lb {
        return false;
    }
    for i in 0..la
        invariant
            la == a@.len(),
            la == b@.len(),
            forall|j: int| 0 <= j < i ==> a@[j] == b@[j],
    {
        if a.get_char(i) != b.get_char(i) {
            return false;
        }
    }
    proof {
        assert(a@ =~= b@);
    }
    true
}

/// Finds the first occurrence of `p` in `s` at or after position `from`.
pub fn find_sub(s: &str, p: &str, from: usize) -> (r: Option<usize>)
    requires
        p@.len() > 0,
    ensures
        (match r {
            Some(k) => find_from(s@, p@, from as int) == Some(k as int),
            None => find_from(s@, p@, from as int) is None,
        }),
{
    let sl = s.unicode_len();
    let pl = p.unicode_len();
    if from >= sl || sl - from < pl {
        return None;
    }
    let mut i = from;
    while i <= sl - pl
        invariant
            sl == s@.len(),
            pl == p@.len(),
            pl > 0,
            pl <= sl,
            from <= i <= sl,
            find_from(s@, p@, from as int) == find_from(s@, p@, i as int),
        decreases sl - i,
    {
        let mut k: usize = 0;
        let mut all: bool = true;
        while k < pl
            invariant
                sl == s@.len(),
                pl == p@.len(),
                i + pl <= sl,
                k <= pl,
                all ==> forall|j: int| 0 <= j < k ==> s@[i + j] == p@[j],
                !all ==> !match_at(s@, p@, i as int),
            decreases pl - k,
        {
            if all && s.get_char(i + k) != p.get_char(k) {
                proof {
                    if match_at(s@, p@, i as int) {
                        assert(s@.subrange(i as int, i + p@.len())[k as int] == s@[i + k]);
                    }
                }
                all = false;
            }
            k += 1;
        }
        if all {
            proof {
                assert(s@.subrange(i as int, i + p@.len()) =~= p@);
            }
            return Some(i);
        }
        i += 1;
    }
    None
}

/// Splits `s` at every occurrence of the non-empty separator `p`.
pub fn split_str<'a>(s: &'a str, p: &str) -> (res: Vec<&'a str>)
    requires
        p@.len() > 0,
    ensures
        res@.map_values(|t: &str| t@) == split_by(s@, p@),
        res@.len() > 0,
{
    let mut res: Vec<&'a str> = Vec::new();
    let mut rest: &'a str = s;
    let mut done = false;
    let pl = p.unicode_len();
    while !done
        invariant
            pl == p@.len(),
            pl > 0,
            !done ==> split_by(s@, p@) == res@.map_values(|t: &str| t@) + split_by(rest@, p@),
            done ==> split_by(s@, p@) == res@.map_values(|t: &str| t@) && res@.len() > 0,
        decreases rest@.len() + (if done { 0int } else { 1int }),
    {
        match find_sub(rest, p, 0) {
            Some(i) => {
                proof {
                    lemma_find_from_bounds(rest@, p@, 0);
                }
                let rl = rest.unicode_len();
                let piece = rest.substring_char(0, i);
                let new_rest = rest.substring_char(i + pl, rl);
                proof {
                    assert(piece@ =~= rest@.take(i as int));
                    assert(new_rest@ =~= rest@.skip(i + pl));
                    assert((res@.push(piece)).map_values(|t: &str| t@) =~= res@.map_values(
                        |t: &str| t@,
                    ).push(piece@));
                    assert(res@.map_values(|t: &str| t@).push(piece@) + split_by(
                        new_rest@,
                        p@,
                    ) =~= res@.map_values(|t: &str| t@) + (seq![rest@.take(i as int)] + split_by(
                        rest@.skip(i + pl),
                        p@,
                    )));
                }
                res.push(piece);
                rest = new_rest;
            },
            None => {
                proof {
                    assert((res@.push(rest)).map_values(|t: &str| t@) =~= res@.map_values(
                        |t: &str| t@,
                    ).push(rest@));
                    assert(res@.map_values(|t: &str| t@).push(rest@) =~= res@.map_values(
                        |t: &str| t@,
                    ) + seq![rest@]);
                }
                res.push(rest);
                done = true;
            },
        }
    }
    res
}

/// Parses a non-empty all-digit string as a decimal `u64`.
pub fn parse_u64(t: &str) -> (r: u64)
    requires
        t@.len() > 0,
        all_digits(t@),
        dec_val(t@) <= u64::MAX,
    ensures
        r == dec_val(t@),
{
    let n = t.unicode_len();
    let mut r: u64 = 0;
    proof {
        assert(t@.take(0) =~= Seq::<char>::empty());
    }
    for i in 0..n
        invariant
            n == t@.len(),
            all_digits(t@),
            dec_val(t@) <= u64::MAX,
            r == dec_val(t@.take(i as int)),
    {
        let c = t.get_char(i);
        let d = (c as u32) - ('0' as u32);
        proof {
            lemma_dec_val_take_le(t@, i + 1);
            lemma_dec_val_nonneg(t@.take(i as int));
            assert(t@.take(i + 1).drop_last() =~= t@.take(i as int));
            assert(t@.take(i + 1).last() == t@[i as int]);
        }
        r = r * 10 + (d as u64);
    }
    proof {
        assert(t@.take(n as int) =~= t@);
    }
    r
}

/// A non-empty, all-digit token whose value fits in a `u64`.
pub open spec fn wf_u64_token(t: Seq<char>) -> bool {
    t.len() > 0 && all_digits(t) && dec_val(t) <= u64::MAX
}

/// Parses a decimal `u64`, rejecting empty or non-digit input and values
/// that do not fit.
pub fn checked_parse_u64(t: &str) -> (r: Option<u64>)
    ensures
        r is Some <==> wf_u64_token(t@),
        r is Some ==> r->Some_0 == dec_val(t@),
{
    let n = t.unicode_len();
    if n == 0 {
        return None;
    }
    let mut r: u64 = 0;
    proof {
        assert(t@.take(0) =~= Seq::<char>::empty());
    }
    for i in 0..n
        invariant
            n == t@.len(),
            n > 0,
            r == dec_val(t@.take(i as int)),
            all_digits(t@.take(i as int)),
            r >= 0,
    {
        let c = t.get_char(i);
        if c < '0' || c > '9' {
            return None;
        }
        let d = ((c as u32) - ('0' as u32)) as u64;
        proof {
            assert(t@.take(i + 1).drop_last() =~= t@.take(i as int));
            assert(t@.take(i + 1).last() == t@[i as int]);
            assert(forall|j: int| 0 <= j < i + 1 ==> t@.take(i + 1)[j] == t@[j]);
        }
        // Values above u64::MAX / 10, or equal to it with a next digit
        // beyond 5, would overflow on the next step.
        let limit: u64 = 1844674407370955161;
        if r > limit || (r == limit && d > 5) {
            proof {
                if wf_u64_token(t@) {
                    lemma_dec_val_take_le(t@, i + 1);
                }
            }
            return None;
        }
        r = r * 10 + d;
    }
    proof {
        assert(t@.take(n as int) =~= t@);
    }
    Some(r)
}

/// Parses a non-empty all-digit string as a decimal `u32`.
pub fn parse_u32(t: &str) -> (r: u32)
    requires
        t@.len() > 0,
        all_digits(t@),
        dec_val(t@) <= u32::MAX,
    ensures
        r == dec_val(t@),
{
    parse_u64(t) as u32
}

} // verus!
