//! Calibration values: the first and last digit of each line, where a
//! digit may optionally be spelled out as a word.

use vstd::prelude::*;

use crate::text::digit_val;
use crate::text::is_digit;

verus! {

/// The digit a spelled-out digit word denotes; unknown words denote zero.
pub open spec fn spec_translate_digit(name: Seq<char>) -> u32 {
    if name == "one"@ {
        1
    } else if name == "two"@ {
        2
    } else if name == "three"@ {
        3
    } else if name == "four"@ {
        4
    } else if name == "five"@ {
        5
    } else if name == "six"@ {
        6
    } else if name == "seven"@ {
        7
    } else if name == "eight"@ {
        8
    } else if name == "nine"@ {
        9
    } else {
        0
    }
}

/// Whether `p` is a prefix of `s`.
pub open spec fn starts_with(s: Seq<char>, p: Seq<char>) -> bool {
    p.len() <= s.len() && s.take(p.len() as int) == p
}

/// The digit a suffix starts with: a literal digit character, or, when
/// words count, a spelled-out digit word.
pub open spec fn spec_get_number(s: Seq<char>, consider_text: bool) -> Option<u32> {
    if s.len() == 0 {
        None
    } else if is_digit(s[0]) {
        Some(digit_val(s[0]) as u32)
    } else if !consider_text {
        None
    } else if starts_with(s, "one"@) {
        Some(1)
    } else if starts_with(s, "two"@) {
        Some(2)
    } else if starts_with(s, "three"@) {
        Some(3)
    } else if starts_with(s, "four"@) {
        Some(4)
    } else if starts_with(s, "five"@) {
        Some(5)
    } else if starts_with(s, "six"@) {
        Some(6)
    } else if starts_with(s, "seven"@) {
        Some(7)
    } else if starts_with(s, "eight"@) {
        Some(8)
    } else if starts_with(s, "nine"@) {
        Some(9)
    } else {
        None
    }
}

/// The first digit found at or after position `i`.
pub open spec fn first_digit(s: Seq<char>, consider_text: bool, i: int) -> Option<u32>
    decreases s.len() - i,
{
    if i < 0 || i >= s.len() {
        None
    } else {
        match spec_get_number(s.skip(i), consider_text) {
            Some(d) => Some(d),
            None => first_digit(s, consider_text, i + 1),
        }
    }
}

/// The last digit found strictly before position `i`.
pub open spec fn last_digit(s: Seq<char>, consider_text: bool, i: int) -> Option<u32>
    decreases i,
{
    if i <= 0 || i > s.len() {
        None
    } else {
        match spec_get_number(s.skip(i - 1), consider_text) {
            Some(d) => Some(d),
            None => last_digit(s, consider_text, i - 1),
        }
    }
}

/// A digit at any position keeps the backward scan from coming up empty.
proof fn lemma_last_digit_some(s: Seq<char>, consider_text: bool, j: int, i: int)
    requires
        0 <= j < i <= s.len(),
        spec_get_number(s.skip(j), consider_text) is Some,
    ensures
        last_digit(s, consider_text, i) is Some,
    decreases i,
{
    if i - 1 > j && spec_get_number(s.skip(i - 1), consider_text) is None {
        lemma_last_digit_some(s, consider_text, j, i - 1);
    }
}

/// Translates a spelled-out digit word.
pub fn translate_digit(name: &str) -> (r: u32)
    ensures
        r == spec_translate_digit(name@),
{
    if crate::text::str_eq(name, "one") {
        1
    } else if crate::text::str_eq(name, "two") {
        2
    } else if crate::text::str_eq(name, "three") {
        3
    } else if crate::text::str_eq(name, "four") {
        4
    } else if crate::text::str_eq(name, "five") {
        5
    } else if crate::text::str_eq(name, "six") {
        6
    } else if crate::text::str_eq(name, "seven") {
        7
    } else if crate::text::str_eq(name, "eight") {
        8
    } else if crate::text::str_eq(name, "nine") {
        9
    } else {
        0
    }
}

/// Whether `p` is a prefix of `s`.
fn starts_with_str(s: &str, p: &str) -> (r: bool)
    ensures
        r == starts_with(s@, p@),
{
    let pl = p.unicode_len();
    let sl = s.unicode_len();
    if pl > sl {
        return false;
    }
    let pre = s.substring_char(0, pl);
    proof {
        assert(pre@ =~= s@.take(pl as int));
    }
    crate::text::str_eq(pre, p)
}

/// The digit the given suffix starts with, if any.
pub fn get_number(substr: &str, consider_text: bool) -> (r: Option<u32>)
    ensures
        r == spec_get_number(substr@, consider_text),
{
    let n = substr.unicode_len();
    if n == 0 {
        return None;
    }
    let c = substr.get_char(0);
    if c >= '0' && c <= '9' {
        return Some((c as u32) - ('0' as u32));
    }
    if !consider_text {
        return None;
    }
    if starts_with_str(substr, "one") {
        return Some(1);
    }
    if starts_with_str(substr, "two") {
        return Some(2);
    }
    if starts_with_str(substr, "three") {
        return Some(3);
    }
    if starts_with_str(substr, "four") {
        return Some(4);
    }
    if starts_with_str(substr, "five") {
        return Some(5);
    }
    if starts_with_str(substr, "six") {
        return Some(6);
    }
    if starts_with_str(substr, "seven") {
        return Some(7);
    }
    if starts_with_str(substr, "eight") {
        return Some(8);
    }
    if starts_with_str(substr, "nine") {
        return Some(9);
    }
    None
}

/// The calibration value of a line: ten times its first digit plus its
/// last digit.
pub fn get_calibration_value(line: &str, consider_text: bool) -> (r: u32)
    requires
        first_digit(line@, consider_text, 0) is Some,
    ensures
        r == 10 * first_digit(line@, consider_text, 0)->Some_0 + last_digit(
            line@,
            consider_text,
            line@.len() as int,
        )->Some_0,
{
    let n = line.unicode_len();
    let mut first_val: u32 = 0;
    let mut found = false;
    let mut i: usize = 0;
    let ghost mut first_pos: int = 0;
    while !found
        invariant
            n == line@.len(),
            i <= n,
            first_digit(line@, consider_text, 0) is Some,
            !found ==> first_digit(line@, consider_text, 0) == first_digit(
                line@,
                consider_text,
                i as int,
            ),
            found ==> first_digit(line@, consider_text, 0) == Some(first_val),
            found ==> 0 <= first_pos < n && spec_get_number(
                line@.skip(first_pos),
                consider_text,
            ) == Some(first_val),
        decreases n - i + (if found {
            0int
        } else {
            1int
        }),
    {
        if i >= n {
            proof {
                assert(first_digit(line@, consider_text, i as int) is None);
            }
            return 0;
        }
        let suffix = line.substring_char(i, n);
        proof {
            assert(suffix@ =~= line@.skip(i as int));
        }
        match get_number(suffix, consider_text) {
            Some(d) => {
                first_val = d;
                found = true;
                proof {
                    first_pos = i as int;
                }
            },
            None => {
                i += 1;
            },
        }
    }
    let mut last_val: u32 = 0;
    let mut j: usize = n;
    let mut found_last = false;
    proof {
        lemma_last_digit_some(line@, consider_text, first_pos, n as int);
    }
    while !found_last
        invariant
            n == line@.len(),
            j <= n,
            last_digit(line@, consider_text, n as int) is Some,
            !found_last ==> last_digit(line@, consider_text, n as int) == last_digit(
                line@,
                consider_text,
                j as int,
            ),
            found_last ==> last_digit(line@, consider_text, n as int) == Some(last_val),
        decreases j + (if found_last {
            0int
        } else {
            1int
        }),
    {
        if j == 0 {
            proof {
                assert(last_digit(line@, consider_text, 0) is None);
            }
            return 0;
        }
        let suffix = line.substring_char(j - 1, n);
        proof {
            assert(suffix@ =~= line@.skip(j - 1));
        }
        match get_number(suffix, consider_text) {
            Some(d) => {
                last_val = d;
                found_last = true;
            },
            None => {
                j -= 1;
            },
        }
    }
    proof {
        assert(spec_get_number(line@.skip(first_pos), consider_text) == Some(first_val));
        assert(first_val <= 9);
        assert(last_val <= 9) by {
            assert(last_digit(line@, consider_text, n as int) == Some(last_val));
            lemma_last_digit_le_nine(line@, consider_text, n as int);
        }
    }
    first_val * 10 + last_val
}

/// Whatever digit a suffix yields is at most nine.
proof fn lemma_get_number_le_nine(s: Seq<char>, consider_text: bool)
    ensures
        spec_get_number(s, consider_text) is Some ==> spec_get_number(s, consider_text)->Some_0
            <= 9,
{
}

/// Whatever the backward scan yields is at most nine.
proof fn lemma_last_digit_le_nine(s: Seq<char>, consider_text: bool, i: int)
    ensures
        last_digit(s, consider_text, i) is Some ==> last_digit(s, consider_text, i)->Some_0 <= 9,
    decreases i,
{
    if !(i <= 0 || i > s.len()) {
        lemma_get_number_le_nine(s.skip(i - 1), consider_text);
        lemma_last_digit_le_nine(s, consider_text, i - 1);
    }
}

} // verus!
