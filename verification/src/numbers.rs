use vstd::prelude::*;

verus! {

// The compact geometry encoding carries every coordinate as the text of a
// JSON number. This module defines that grammar
// (`-?(0|[1-9][0-9]*)(.[0-9]+)?([eE][+-]?[0-9]+)?`) over byte sequences and
// provides a verified validator.

/// ASCII decimal digit.
pub open spec fn is_digit(b: u8) -> bool {
    48 <= b && b <= 57
}

/// Index of the first non-digit byte at or after `i`.
pub open spec fn skip_digits(s: Seq<u8>, i: int) -> int
    decreases s.len() - i when 0 <= i <= s.len()
{
    if i < s.len() && is_digit(s[i]) {
        skip_digits(s, i + 1)
    } else {
        i
    }
}

pub proof fn lemma_skip_digits_bounds(s: Seq<u8>, i: int)
    requires
        0 <= i <= s.len(),
    ensures
        i <= skip_digits(s, i) <= s.len(),
    decreases s.len() - i,
{
    if i < s.len() && is_digit(s[i]) {
        lemma_skip_digits_bounds(s, i + 1);
    }
}

pub proof fn lemma_skip_digits_range(s: Seq<u8>, i: int, k: int)
    requires
        0 <= i <= s.len(),
        i <= k < skip_digits(s, i),
    ensures
        is_digit(s[k]),
    decreases s.len() - i,
{
    lemma_skip_digits_bounds(s, i);
    if i < s.len() && is_digit(s[i]) {
        if k > i {
            lemma_skip_digits_range(s, i + 1, k);
        }
    }
}

/// End of the integer part starting at `i`, or -1 if there is none.
/// A leading zero stands alone; any other run of digits is taken whole.
pub open spec fn int_end(s: Seq<u8>, i: int) -> int {
    if i < s.len() && s[i] == 48 {
        i + 1
    } else if i < s.len() && is_digit(s[i]) {
        skip_digits(s, i)
    } else {
        -1
    }
}

/// End of the optional fraction part starting at `i`, or -1 if a dot is not
/// followed by at least one digit.
pub open spec fn frac_end(s: Seq<u8>, i: int) -> int {
    if i < s.len() && s[i] == 46 {
        if i + 1 < s.len() && is_digit(s[i + 1]) {
            skip_digits(s, i + 1)
        } else {
            -1
        }
    } else {
        i
    }
}

/// End of the optional exponent part starting at `i`, or -1 if it is malformed.
pub open spec fn exp_end(s: Seq<u8>, i: int) -> int {
    if i < s.len() && (s[i] == 101 || s[i] == 69) {
        let j = if i + 1 < s.len() && (s[i + 1] == 43 || s[i + 1] == 45) {
            i + 2
        } else {
            i + 1
        };
        if j < s.len() && is_digit(s[j]) {
            skip_digits(s, j)
        } else {
            -1
        }
    } else {
        i
    }
}

/// The whole of `s` is one JSON number.
pub open spec fn is_number(s: Seq<u8>) -> bool {
    let i0: int = if s.len() > 0 && s[0] == 45 {
        1
    } else {
        0
    };
    let i1 = int_end(s, i0);
    if i1 < 0 {
        false
    } else {
        let i2 = frac_end(s, i1);
        if i2 < 0 {
            false
        } else {
            exp_end(s, i2) == s.len()
        }
    }
}

/// A byte that may occur in a JSON number.
pub open spec fn is_num_byte(b: u8) -> bool {
    is_digit(b) || b == 45 || b == 43 || b == 46 || b == 101 || b == 69
}

/// Every byte of a JSON number is drawn from the number alphabet; in
/// particular none of them is a bracket or a comma.
pub proof fn lemma_number_bytes(s: Seq<u8>)
    requires
        is_number(s),
    ensures
        forall|k: int| 0 <= k < s.len() ==> is_num_byte(#[trigger] s[k]),
{
    let i0: int = if s.len() > 0 && s[0] == 45 {
        1
    } else {
        0
    };
    let i1 = int_end(s, i0);
    let i2 = frac_end(s, i1);
    let i3 = exp_end(s, i2);
    assert(i1 >= 0 && i2 >= 0 && i3 == s.len());
    if i0 < s.len() && s[i0] == 48 {
    } else {
        lemma_skip_digits_bounds(s, i0);
    }
    assert(i0 <= i1 <= s.len());
    assert forall|k: int| i0 <= k < i1 implies is_digit(s[k]) by {
        if i0 < s.len() && s[i0] == 48 {
        } else {
            lemma_skip_digits_range(s, i0, k);
        }
    }
    if i1 < s.len() && s[i1] == 46 {
        lemma_skip_digits_bounds(s, i1 + 1);
        assert forall|k: int| i1 < k < i2 implies is_digit(s[k]) by {
            lemma_skip_digits_range(s, i1 + 1, k);
        }
    }
    assert(i1 <= i2 <= s.len());
    if i2 < s.len() && (s[i2] == 101 || s[i2] == 69) {
        let j = if i2 + 1 < s.len() && (s[i2 + 1] == 43 || s[i2 + 1] == 45) {
            i2 + 2
        } else {
            i2 + 1
        };
        lemma_skip_digits_bounds(s, j);
        assert forall|k: int| j <= k < i3 implies is_digit(s[k]) by {
            lemma_skip_digits_range(s, j, k);
        }
    }
    assert forall|k: int| 0 <= k < s.len() implies is_num_byte(#[trigger] s[k]) by {
        if k < i0 {
        } else if k < i1 {
        } else if k < i2 {
            if !(i1 < s.len() && s[i1] == 46) {
                assert(i2 == i1);
            }
        } else {
            assert(i2 < s.len() && (s[i2] == 101 || s[i2] == 69));
        }
    }
}

/// A JSON number is never the empty text.
pub proof fn lemma_number_nonempty(s: Seq<u8>)
    requires
        is_number(s),
    ensures
        s.len() > 0,
{
    if s.len() == 0 {
        assert(int_end(s, 0) == -1);
    }
}

fn skip_digits_exec(s: &Vec<u8>, i: usize) -> (r: usize)
    requires
        i <= s.len(),
    ensures
        r as int == skip_digits(s@, i as int),
        i <= r <= s.len(),
{
    let mut j = i;
    while j < s.len() && 48 <= s[j] && s[j] <= 57
        invariant
            i <= j <= s.len(),
            skip_digits(s@, i as int) == skip_digits(s@, j as int),
        decreases s.len() - j,
    {
        j += 1;
    }
    j
}

/// Verified validator for the JSON number grammar.
pub fn check_number(s: &Vec<u8>) -> (r: bool)
    ensures
        r == is_number(s@),
{
    let n = s.len();
    let i0: usize = if n > 0 && s[0] == 45 {
        1
    } else {
        0
    };
    if i0 >= n {
        return false;
    }
    let b0 = s[i0];
    let i1: usize;
    if b0 == 48 {
        i1 = i0 + 1;
    } else if 48 <= b0 && b0 <= 57 {
        i1 = skip_digits_exec(s, i0);
    } else {
        return false;
    }
    assert(i1 as int == int_end(s@, i0 as int));
    let i2: usize;
    if i1 < n && s[i1] == 46 {
        if i1 + 1 < n {
            let b = s[i1 + 1];
            if 48 <= b && b <= 57 {
                i2 = skip_digits_exec(s, i1 + 1);
            } else {
                return false;
            }
        } else {
            return false;
        }
    } else {
        i2 = i1;
    }
    assert(i2 as int == frac_end(s@, i1 as int));
    let i3: usize;
    if i2 < n {
        let b = s[i2];
        if b == 101 || b == 69 {
            let j: usize = if i2 + 1 < n && (s[i2 + 1] == 43 || s[i2 + 1] == 45) {
                i2 + 2
            } else {
                i2 + 1
            };
            if j < n {
                let bj = s[j];
                if 48 <= bj && bj <= 57 {
                    i3 = skip_digits_exec(s, j);
                } else {
                    return false;
                }
            } else {
                return false;
            }
        } else {
            i3 = i2;
        }
    } else {
        i3 = i2;
    }
    assert(i3 as int == exp_end(s@, i2 as int));
    i3 == n
}

} // verus!
