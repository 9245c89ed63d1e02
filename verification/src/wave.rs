//! The wave-counter grammar: extracting a wave number from recognized HUD
//! text.
//!
//! A reading is the first place in the text where the wave marker `波次` is
//! followed immediately by at least one decimal digit; the value is the
//! maximal digit run there. Text without such a place is "no signal yet",
//! never an error. A digit run whose value exceeds `i32::MAX` is likewise no
//! signal.

use vstd::prelude::*;

verus! {

pub open spec fn is_wave_digit(c: char) -> bool {
    48 <= c as u32 <= 57
}

pub open spec fn digit_val(c: char) -> int {
    c as u32 - 48
}

/// The wave marker, followed immediately by a digit, starts at `i`.
pub open spec fn marker_at(s: Seq<char>, i: int) -> bool {
    &&& 0 <= i
    &&& i + 2 < s.len()
    &&& s[i] == '波'
    &&& s[i + 1] == '次'
    &&& is_wave_digit(s[i + 2])
}

/// First position at or after `i` where a marked digit run starts, or the
/// text length if there is none.
pub open spec fn match_pos_from(s: Seq<char>, i: int) -> int
    decreases s.len() - i,
{
    if i < 0 || i >= s.len() {
        s.len() as int
    } else if marker_at(s, i) {
        i
    } else {
        match_pos_from(s, i + 1)
    }
}

/// End of the maximal digit run starting at `j`.
pub open spec fn digit_run_end(s: Seq<char>, j: int) -> int
    decreases s.len() - j,
{
    if 0 <= j < s.len() && is_wave_digit(s[j]) {
        digit_run_end(s, j + 1)
    } else {
        j
    }
}

/// Decimal value of the digits `s[start..end)`.
pub open spec fn digits_value(s: Seq<char>, start: int, end: int) -> int
    decreases end - start,
{
    if start >= end {
        0
    } else {
        digits_value(s, start, end - 1) * 10 + digit_val(s[end - 1])
    }
}

/// The wave number the text carries, if any: the value of the first marked
/// digit run, provided it fits an `i32`.
pub open spec fn wave_of_text(s: Seq<char>) -> Option<i32> {
    let i = match_pos_from(s, 0);
    if i == s.len() {
        None
    } else {
        let v = digits_value(s, i + 2, digit_run_end(s, i + 2));
        if v <= i32::MAX {
            Some(v as i32)
        } else {
            None
        }
    }
}

/// Extract the wave number from recognized text.
pub fn parse_wave_text(text: &str) -> (r: Option<i32>)
    ensures
        r == wave_of_text(text@),
        r matches Some(v) ==> v >= 0,
{
    let n = text.unicode_len();
    let mut i: usize = 0;
    let mut found: bool = false;
    while i < n && !found
        invariant
            n == text@.len(),
            i <= n,
            !found ==> forall|k: int| 0 <= k < i ==> !marker_at(text@, k),
            found ==> marker_at(text@, i as int) && match_pos_from(text@, 0) == i as int,
        decreases n - i + (if found {
            0int
        } else {
            1int
        }),
    {
        if n > 2 && i < n - 2 && text.get_char(i) == '波' && text.get_char(i + 1) == '次' {
            let c = text.get_char(i + 2);
            let cv = c as u32;
            if 48 <= cv && cv <= 57 {
                found = true;
                proof {
                    lemma_match_pos_found(text@, i as int);
                }
            }
        }
        if !found {
            i += 1;
        }
    }
    if !found {
        proof {
            lemma_match_pos_missing(text@);
        }
        return None;
    }
    let mut j: usize = i + 2;
    let mut val: i64 = 0;
    let mut overflow: bool = false;
    loop
        invariant_except_break
            n == text@.len(),
            marker_at(text@, i as int),
            i + 2 <= j <= n,
            forall|k: int| i + 2 <= k < j ==> is_wave_digit(text@[k]),
            digit_run_end(text@, i + 2) == digit_run_end(text@, j as int),
            !overflow ==> val == digits_value(text@, i + 2, j as int) && 0 <= val <= i32::MAX,
            overflow ==> digits_value(text@, i + 2, j as int) > i32::MAX,
        ensures
            n == text@.len(),
            j as int == digit_run_end(text@, i + 2),
            !overflow ==> val == digits_value(text@, i + 2, j as int) && 0 <= val <= i32::MAX,
            overflow ==> digits_value(text@, i + 2, j as int) > i32::MAX,
        decreases n - j,
    {
        if j >= n {
            break ;
        }
        let c = text.get_char(j);
        let cv = c as u32;
        if !(48 <= cv && cv <= 57) {
            break ;
        }
        proof {
            lemma_digits_value_nonneg(text@, i + 2, j as int);
        }
        if !overflow {
            val = val * 10 + ((cv - 48) as i64);
            if val > i32::MAX as i64 {
                overflow = true;
            }
        } else {
            proof {
                lemma_digits_value_step_grows(text@, i + 2, j as int);
            }
        }
        j += 1;
    }
    if overflow {
        return None;
    }
    Some(val as i32)
}

proof fn lemma_match_pos_found(s: Seq<char>, i: int)
    requires
        marker_at(s, i),
        forall|k: int| 0 <= k < i ==> !marker_at(s, k),
    ensures
        match_pos_from(s, 0) == i,
{
    lemma_match_pos_from_found(s, 0, i);
}

proof fn lemma_match_pos_from_found(s: Seq<char>, k: int, i: int)
    requires
        0 <= k <= i,
        marker_at(s, i),
        forall|j: int| k <= j < i ==> !marker_at(s, j),
    ensures
        match_pos_from(s, k) == i,
    decreases i - k,
{
    if k < i {
        lemma_match_pos_from_found(s, k + 1, i);
    }
}

proof fn lemma_match_pos_missing(s: Seq<char>)
    requires
        forall|k: int| 0 <= k < s.len() ==> !marker_at(s, k),
    ensures
        match_pos_from(s, 0) == s.len(),
{
    lemma_match_pos_from_missing(s, 0);
}

proof fn lemma_match_pos_from_missing(s: Seq<char>, k: int)
    requires
        0 <= k <= s.len(),
        forall|j: int| k <= j < s.len() ==> !marker_at(s, j),
    ensures
        match_pos_from(s, k) == s.len(),
    decreases s.len() - k,
{
    if k < s.len() {
        lemma_match_pos_from_missing(s, k + 1);
    }
}

proof fn lemma_digits_value_nonneg(s: Seq<char>, start: int, end: int)
    requires
        forall|k: int| start <= k < end ==> is_wave_digit(s[k]),
    ensures
        digits_value(s, start, end) >= 0,
    decreases end - start,
{
    if start < end {
        lemma_digits_value_nonneg(s, start, end - 1);
    }
}

/// Appending a digit cannot shrink the value.
proof fn lemma_digits_value_step_grows(s: Seq<char>, start: int, end: int)
    requires
        start <= end,
        forall|k: int| start <= k < end ==> is_wave_digit(s[k]),
        is_wave_digit(s[end]),
    ensures
        digits_value(s, start, end + 1) >= digits_value(s, start, end),
{
    lemma_digits_value_nonneg(s, start, end);
}

} // verus!
