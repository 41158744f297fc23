use vstd::prelude::*;

use crate::text::{chars_of, find_char_in, find_first, trim, trim_range};

verus! {

/// Where the first field of `s` ends: at its first comma, or at its end.
pub open spec fn field_end(s: Seq<char>) -> int {
    match find_first(s, ',') {
        Some(i) => i,
        None => s.len() as int,
    }
}

/// The three fields of a vector written as `(x, y, z)`: the text is trimmed, must open
/// with `(` and close with `)`, and what lies between is cut at commas; the first three
/// pieces, each trimmed, are the fields, and anything after a third comma is ignored.
/// `None` when a bracket or one of the first two commas is missing.
pub open spec fn vec3_parts(s: Seq<char>) -> Option<(Seq<char>, Seq<char>, Seq<char>)> {
    let t = trim(s);
    if t.len() >= 2 && t[0] == '(' && t[t.len() - 1] == ')' {
        let inner = t.subrange(1, t.len() - 1);
        match find_first(inner, ',') {
            None => None,
            Some(c1) => {
                let rest1 = inner.skip(c1 + 1);
                match find_first(rest1, ',') {
                    None => None,
                    Some(c2) => {
                        let rest2 = rest1.skip(c2 + 1);
                        Some(
                            (
                                trim(inner.take(c1)),
                                trim(rest1.take(c2)),
                                trim(rest2.take(field_end(rest2))),
                            ),
                        )
                    },
                }
            },
        }
    } else {
        None
    }
}

/// The trimmed text of `s[lo..hi]`.
fn trimmed_part(s: &str, chars: &Vec<char>, lo: usize, hi: usize) -> (part: String)
    requires
        chars@ == s@,
        lo <= hi <= chars@.len(),
    ensures
        part@ == trim(s@.subrange(lo as int, hi as int)),
{
    let (a, b) = trim_range(chars, lo, hi);
    s.substring_char(a, b).to_owned()
}

/// The three field texts of a vector written as `(x, y, z)`, as `vec3_parts` describes
/// them; the numbers in them are left to the caller.
pub fn vec3_fields(s: &str) -> (fields: Option<(String, String, String)>)
    ensures
        match vec3_parts(s@) {
            Some((x, y, z)) => fields matches Some((fx, fy, fz)) && fx@ == x && fy@ == y && fz@
                == z,
            None => fields is None,
        },
{
    let chars = chars_of(s);
    let n = chars.len();
    let (a, b) = trim_range(&chars, 0, n);
    let ghost t = trim(s@);
    proof {
        assert(s@.subrange(0, n as int) =~= s@);
        assert(t == chars@.subrange(a as int, b as int));
    }
    if b - a < 2 || chars[a] != '(' || chars[b - 1] != ')' {
        return None;
    }
    let lo = a + 1;
    let hi = b - 1;
    let ghost inner = t.subrange(1, t.len() - 1);
    proof {
        assert(inner =~= chars@.subrange(lo as int, hi as int));
    }
    let c1 = match find_char_in(&chars, lo, hi, ',') {
        Some(c) => c,
        None => {
            return None;
        },
    };
    let ghost rest1 = inner.skip(c1 - lo + 1);
    proof {
        assert(rest1 =~= chars@.subrange(c1 + 1, hi as int));
    }
    let c2 = match find_char_in(&chars, c1 + 1, hi, ',') {
        Some(c) => c,
        None => {
            return None;
        },
    };
    let ghost rest2 = rest1.skip(c2 - c1);
    proof {
        assert(rest2 =~= chars@.subrange(c2 + 1, hi as int));
    }
    let end = match find_char_in(&chars, c2 + 1, hi, ',') {
        Some(c) => c,
        None => hi,
    };
    let x = trimmed_part(s, &chars, lo, c1);
    let y = trimmed_part(s, &chars, c1 + 1, c2);
    let z = trimmed_part(s, &chars, c2 + 1, end);
    proof {
        assert(inner.take(c1 - lo) =~= s@.subrange(lo as int, c1 as int));
        assert(rest1.take(c2 - c1 - 1) =~= s@.subrange(c1 + 1, c2 as int));
        assert(rest2.take(field_end(rest2)) =~= s@.subrange(c2 + 1, end as int));
    }
    Some((x, y, z))
}

} // verus!
