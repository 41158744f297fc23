use vstd::prelude::*;
use crate::bytes::decimal;

verus! {

broadcast use vstd::string::group_string_axioms;

/// The characters of `s`, in order.
pub fn chars_of(s: &str) -> (chars: Vec<char>)
    ensures
        chars@ == s@,
{
    let mut chars: Vec<char> = Vec::new();
    for c in it: s.chars()
        invariant
            chars@ == it.seq().take(it.index() as int),
    {
        chars.push(c);
    }
    chars
}

/// Whether two strings hold the same characters.
pub fn str_equal(a: &str, b: &str) -> (equal: bool)
    ensures
        equal == (a@ == b@),
{
    let x = chars_of(a);
    let y = chars_of(b);
    if x.len() != y.len() {
        return false;
    }
    let mut i: usize = 0;
    while i < x.len()
        invariant
            x@ == a@,
            y@ == b@,
            x@.len() == y@.len(),
            i <= x@.len(),
            forall|j: int| 0 <= j < i ==> x@[j] == y@[j],
        decreases x@.len() - i,
    {
        if x[i] != y[i] {
            return false;
        }
        i = i + 1;
    }
    proof {
        assert(x@ =~= y@);
    }
    true
}

/// Unicode `White_Space`, the characters that `str::trim` removes.
pub open spec fn is_white_space(c: char) -> bool {
    let u = c as u32;
    (0x09 <= u <= 0x0d) || u == 0x20 || u == 0x85 || u == 0xa0 || u == 0x1680 || (0x2000 <= u
        <= 0x200a) || u == 0x2028 || u == 0x2029 || u == 0x202f || u == 0x205f || u == 0x3000
}

/// Whether `c` is Unicode white space.
pub fn char_is_white_space(c: char) -> (white: bool)
    ensures
        white == is_white_space(c),
{
    let u = c as u32;
    (0x09 <= u && u <= 0x0d) || u == 0x20 || u == 0x85 || u == 0xa0 || u == 0x1680 || (0x2000 <= u
        && u <= 0x200a) || u == 0x2028 || u == 0x2029 || u == 0x202f || u == 0x205f || u == 0x3000
}

/// `s` without its leading white space.
pub open spec fn trim_start(s: Seq<char>) -> Seq<char>
    decreases s.len(),
{
    if s.len() > 0 && is_white_space(s[0]) {
        trim_start(s.drop_first())
    } else {
        s
    }
}

/// `s` without its trailing white space.
pub open spec fn trim_end(s: Seq<char>) -> Seq<char>
    decreases s.len(),
{
    if s.len() > 0 && is_white_space(s.last()) {
        trim_end(s.drop_last())
    } else {
        s
    }
}

/// `s` without leading and trailing white space, as `str::trim` gives it.
pub open spec fn trim(s: Seq<char>) -> Seq<char> {
    trim_end(trim_start(s))
}

/// The bounds of `chars[lo..hi]` without its leading and trailing white space.
pub fn trim_range(chars: &Vec<char>, lo: usize, hi: usize) -> (bounds: (usize, usize))
    requires
        lo <= hi <= chars@.len(),
    ensures
        lo <= bounds.0 <= bounds.1 <= hi,
        chars@.subrange(bounds.0 as int, bounds.1 as int) == trim(chars@.subrange(lo as int, hi as int)),
{
    let mut a = lo;
    while a < hi && char_is_white_space(chars[a])
        invariant
            lo <= a <= hi <= chars@.len(),
            trim_start(chars@.subrange(lo as int, hi as int)) == trim_start(chars@.subrange(a as int, hi as int)),
        decreases hi - a,
    {
        proof {
            assert(chars@.subrange(a as int, hi as int).drop_first() =~= chars@.subrange(a + 1, hi as int));
        }
        a = a + 1;
    }
    proof {
        let s = chars@.subrange(a as int, hi as int);
        if s.len() > 0 {
            assert(s[0] == chars@[a as int]);
        }
        assert(trim_start(s) == s);
    }
    let mut b = hi;
    while b > a && char_is_white_space(chars[b - 1])
        invariant
            lo <= a <= b <= hi <= chars@.len(),
            trim(chars@.subrange(lo as int, hi as int)) == trim_end(chars@.subrange(a as int, b as int)),
        decreases b - a,
    {
        proof {
            assert(chars@.subrange(a as int, b as int).drop_last() =~= chars@.subrange(a as int, b - 1));
        }
        b = b - 1;
    }
    proof {
        let s = chars@.subrange(a as int, b as int);
        if s.len() > 0 {
            assert(s.last() == chars@[b - 1]);
        }
    }
    (a, b)
}

/// Whether `c` is an ASCII decimal digit.
pub open spec fn is_digit(c: char) -> bool {
    '0' <= c <= '9'
}

/// The value of a sequence of decimal digits.
pub open spec fn digits_value(s: Seq<char>) -> nat
    decreases s.len(),
{
    if s.len() == 0 {
        0
    } else {
        digits_value(s.drop_last()) * 10 + (s.last() as nat - '0' as nat) as nat
    }
}

/// The digits of an unsigned number: the text without one leading `+`.
pub open spec fn unsigned_digits(s: Seq<char>) -> Seq<char> {
    if s.len() > 0 && s[0] == '+' {
        s.drop_first()
    } else {
        s
    }
}

/// Whether every character is a decimal digit.
pub open spec fn all_digits(s: Seq<char>) -> bool {
    forall|i: int| 0 <= i < s.len() ==> is_digit(#[trigger] s[i])
}

/// What `str::parse` gives for an unsigned integer type whose maximum is `max`: an optional
/// `+`, then at least one decimal digit, and a value of at most `max`.
pub open spec fn parse_unsigned(s: Seq<char>, max: nat) -> Option<nat> {
    let digits = unsigned_digits(s);
    if digits.len() > 0 && all_digits(digits) && digits_value(digits) <= max {
        Some(digits_value(digits))
    } else {
        None
    }
}

/// Parses `chars[lo..hi]` as an unsigned decimal integer of at most `max`.
pub fn parse_unsigned_range(chars: &Vec<char>, lo: usize, hi: usize, max: u64) -> (value: Option<u64>)
    requires
        lo <= hi <= chars@.len(),
    ensures
        match parse_unsigned(chars@.subrange(lo as int, hi as int), max as nat) {
            Some(v) => value == Some(v as u64),
            None => value is None,
        },
{
    let ghost s = chars@.subrange(lo as int, hi as int);
    let mut start = lo;
    if lo < hi && chars[lo] == '+' {
        start = lo + 1;
    }
    let ghost digits = chars@.subrange(start as int, hi as int);
    proof {
        if lo < hi && chars@[lo as int] == '+' {
            assert(s.drop_first() =~= digits);
        } else {
            assert(s =~= digits);
        }
    }
    if start == hi {
        return None;
    }
    let mut value: u64 = 0;
    let mut i = start;
    while i < hi
        invariant
            lo <= start <= i <= hi <= chars@.len(),
            digits == chars@.subrange(start as int, hi as int),
            s == chars@.subrange(lo as int, hi as int),
            digits == unsigned_digits(s),
            digits.len() > 0,
            forall|j: int| start <= j < i ==> is_digit(#[trigger] chars@[j]),
            value as nat == digits_value(chars@.subrange(start as int, i as int)),
            value <= max,
        decreases hi - i,
    {
        let c = chars[i];
        if !('0' <= c && c <= '9') {
            proof {
                assert(digits[i - start] == c);
                assert(!is_digit(digits[i - start]));
            }
            return None;
        }
        let d = (c as u32 - '0' as u32) as u64;
        proof {
            let t = chars@.subrange(start as int, i + 1);
            assert(t.drop_last() =~= chars@.subrange(start as int, i as int));
            assert(t.last() == c);
        }
        let next: u128 = value as u128 * 10 + d as u128;
        if next > max as u128 {
            proof {
                if all_digits(digits) {
                    lemma_digits_value_prefix(digits, (i + 1 - start) as nat);
                    assert(digits.subrange(0, i + 1 - start) =~= chars@.subrange(start as int, i + 1));
                }
            }
            return None;
        }
        value = next as u64;
        i = i + 1;
    }
    proof {
        assert(chars@.subrange(start as int, hi as int) =~= digits);
        assert forall|j: int| 0 <= j < digits.len() implies is_digit(#[trigger] digits[j]) by {
            assert(digits[j] == chars@[start + j]);
        }
    }
    Some(value)
}

/// A longer run of digits is worth at least as much as its prefix.
pub proof fn lemma_digits_value_prefix(s: Seq<char>, n: nat)
    requires
        n <= s.len(),
        forall|i: int| 0 <= i < s.len() ==> is_digit(#[trigger] s[i]),
    ensures
        digits_value(s.subrange(0, n as int)) <= digits_value(s),
    decreases s.len(),
{
    if n < s.len() {
        lemma_digits_value_prefix(s.drop_last(), n);
        assert(s.drop_last().subrange(0, n as int) =~= s.subrange(0, n as int));
        assert(digits_value(s.drop_last()) <= digits_value(s)) by (nonlinear_arith)
            requires
                digits_value(s) == digits_value(s.drop_last()) * 10 + (s.last() as nat - '0' as nat) as nat,
        ;
    } else {
        assert(s.subrange(0, n as int) =~= s);
    }
}

/// Bytes read as characters, one per byte (the decoding of ASCII text).
pub open spec fn as_chars(b: Seq<u8>) -> Seq<char> {
    b.map_values(|x: u8| x as char)
}

/// The decimal digits of `n` are digits, and read back as `n`.
pub proof fn lemma_decimal_value(n: nat)
    ensures
        all_digits(as_chars(decimal(n))),
        as_chars(decimal(n)).len() > 0,
        digits_value(as_chars(decimal(n))) == n,
    decreases n,
{
    let t = as_chars(decimal(n));
    assert('0' as nat == 48);
    if n < 10 {
        assert(t[0] == ((48 + n) as u8) as char);
        assert((((48 + n) as u8) as char) as nat == 48 + n);
        assert(t.drop_last() =~= Seq::<char>::empty());
        assert(t.last() == t[0]);
        assert(digits_value(t) == digits_value(t.drop_last()) * 10 + (t.last() as nat - '0' as nat) as nat);
    } else {
        assert((((48 + n % 10) as u8) as char) as nat == 48 + n % 10);
        lemma_decimal_value(n / 10);
        let u = as_chars(decimal(n / 10));
        assert(t =~= u.push(((48 + n % 10) as u8) as char));
        assert(t.drop_last() =~= u);
        assert(t.last() == ((48 + n % 10) as u8) as char);
        assert(digits_value(t) == digits_value(u) * 10 + n % 10);
        assert(n == (n / 10) * 10 + n % 10);
        assert forall|i: int| 0 <= i < t.len() implies is_digit(#[trigger] t[i]) by {
            if i < u.len() {
                assert(t[i] == u[i]);
            }
        }
    }
}

/// The decimal digits of a number of at most `max` parse back as the number.
pub proof fn lemma_decimal_parses(n: nat, max: nat)
    requires
        n <= max,
    ensures
        parse_unsigned(as_chars(decimal(n)), max) == Some(n),
        forall|i: int| 0 <= i < decimal(n).len() ==> 0x30 <= #[trigger] decimal(n)[i] <= 0x39,
{
    lemma_decimal_value(n);
    let t = as_chars(decimal(n));
    assert(is_digit(t[0]));
    assert(unsigned_digits(t) == t);
    assert forall|i: int| 0 <= i < decimal(n).len() implies 0x30 <= #[trigger] decimal(n)[i] <= 0x39 by {
        assert(is_digit(t[i]));
        assert(t[i] == decimal(n)[i] as char);
    }
}

/// The index of the first occurrence of `x` in `s`, as `str::find` gives it.
pub open spec fn find_first<T>(s: Seq<T>, x: T) -> Option<int>
    decreases s.len(),
{
    if s.len() == 0 {
        None
    } else if s[0] == x {
        Some(0)
    } else {
        match find_first(s.drop_first(), x) {
            Some(i) => Some(i + 1),
            None => None,
        }
    }
}

/// `find_first` gives the first index holding `x`, and `None` when no index does.
pub proof fn lemma_find_first<T>(s: Seq<T>, x: T)
    ensures
        match find_first(s, x) {
            Some(i) => 0 <= i < s.len() && s[i] == x && forall|j: int| 0 <= j < i ==> s[j] != x,
            None => forall|j: int| 0 <= j < s.len() ==> s[j] != x,
        },
    decreases s.len(),
{
    if s.len() > 0 && s[0] != x {
        lemma_find_first(s.drop_first(), x);
        match find_first(s.drop_first(), x) {
            Some(i) => {
                assert forall|j: int| 0 <= j < i + 1 implies s[j] != x by {
                    if j > 0 {
                        assert(s[j] == s.drop_first()[j - 1]);
                    }
                }
            },
            None => {
                assert forall|j: int| 0 <= j < s.len() implies s[j] != x by {
                    if j > 0 {
                        assert(s[j] == s.drop_first()[j - 1]);
                    }
                }
            },
        }
    }
}

/// The index of the first occurrence of the non-empty `pattern` in `s`, as `str::find` gives
/// it.
pub open spec fn find_pattern(s: Seq<char>, pattern: Seq<char>) -> Option<int>
    decreases s.len(),
{
    if s.len() < pattern.len() {
        None
    } else if s.subrange(0, pattern.len() as int) == pattern {
        Some(0)
    } else if s.len() == 0 {
        None
    } else {
        match find_pattern(s.drop_first(), pattern) {
            Some(i) => Some(i + 1),
            None => None,
        }
    }
}

/// Whether `pattern` occurs in `s` at index `i`.
pub open spec fn occurs_at(s: Seq<char>, pattern: Seq<char>, i: int) -> bool {
    0 <= i && i + pattern.len() <= s.len() && s.subrange(i, i + pattern.len()) == pattern
}

/// `find_pattern` gives the first index where the pattern occurs.
pub proof fn lemma_find_pattern(s: Seq<char>, pattern: Seq<char>)
    ensures
        match find_pattern(s, pattern) {
            Some(i) => occurs_at(s, pattern, i) && forall|j: int| 0 <= j < i ==> !#[trigger] occurs_at(s, pattern, j),
            None => forall|j: int| !#[trigger] occurs_at(s, pattern, j),
        },
    decreases s.len(),
{
    if s.len() >= pattern.len() && s.subrange(0, pattern.len() as int) != pattern && s.len() > 0 {
        let t = s.drop_first();
        lemma_find_pattern(t, pattern);
        assert forall|j: int| 1 <= j implies #[trigger] occurs_at(s, pattern, j) == occurs_at(t, pattern, j - 1) by {
            if j + pattern.len() <= s.len() {
                assert(s.subrange(j, j + pattern.len()) =~= t.subrange(j - 1, j - 1 + pattern.len()));
            }
        }
        assert(!occurs_at(s, pattern, 0));
        match find_pattern(t, pattern) {
            Some(i) => {
                assert(occurs_at(t, pattern, i));
                assert forall|j: int| 0 <= j < i + 1 implies !#[trigger] occurs_at(s, pattern, j) by {
                    if j >= 1 {
                        assert(!occurs_at(t, pattern, j - 1));
                    }
                }
            },
            None => {
                assert forall|j: int| !#[trigger] occurs_at(s, pattern, j) by {
                    if j >= 1 {
                        assert(!occurs_at(t, pattern, j - 1));
                    }
                }
            },
        }
    } else if s.len() < pattern.len() {
        assert forall|j: int| !#[trigger] occurs_at(s, pattern, j) by {}
    } else if s.len() == 0 {
        assert(s.subrange(0, pattern.len() as int) =~= pattern);
    }
}

/// Finds the first occurrence of the non-empty `pattern` in `chars`.
pub fn find_pattern_in(chars: &Vec<char>, pattern: &Vec<char>) -> (index: Option<usize>)
    requires
        pattern@.len() > 0,
    ensures
        match find_pattern(chars@, pattern@) {
            Some(i) => 0 <= i && i + pattern@.len() <= chars@.len() && index == Some(i as usize),
            None => index is None,
        },
{
    proof {
        lemma_find_pattern(chars@, pattern@);
    }
    let n = chars.len();
    let m = pattern.len();
    if n < m {
        return None;
    }
    let mut i: usize = 0;
    while i <= n - m
        invariant
            m == pattern@.len(),
            n == chars@.len(),
            m > 0,
            m <= n,
            i <= n - m + 1,
            forall|j: int| 0 <= j < i ==> !#[trigger] occurs_at(chars@, pattern@, j),
            match find_pattern(chars@, pattern@) {
                Some(k) => occurs_at(chars@, pattern@, k) && forall|j: int|
                    0 <= j < k ==> !#[trigger] occurs_at(chars@, pattern@, j),
                None => forall|j: int| !#[trigger] occurs_at(chars@, pattern@, j),
            },
        decreases n - m + 1 - i,
    {
        let mut k: usize = 0;
        while k < m && chars[i + k] == pattern[k]
            invariant
                m == pattern@.len(),
                n == chars@.len(),
                i + m <= n,
                k <= m,
                forall|j: int| 0 <= j < k ==> chars@[i + j] == pattern@[j],
            decreases m - k,
        {
            k = k + 1;
        }
        if k == m {
            proof {
                assert(chars@.subrange(i as int, i + m) =~= pattern@);
                assert(occurs_at(chars@, pattern@, i as int));
                match find_pattern(chars@, pattern@) {
                    Some(f) => {
                        if f > i {
                            assert(!occurs_at(chars@, pattern@, i as int));
                        }
                    },
                    None => {},
                }
            }
            return Some(i);
        }
        proof {
            assert(chars@[i + k] != pattern@[k as int]);
            if occurs_at(chars@, pattern@, i as int) {
                assert(chars@.subrange(i as int, i + m)[k as int] == chars@[i + k]);
            }
        }
        i = i + 1;
    }
    proof {
        match find_pattern(chars@, pattern@) {
            Some(f) => {
                assert(occurs_at(chars@, pattern@, f));
            },
            None => {},
        }
    }
    None
}

/// Finds the first `x` in `chars[lo..hi]`, as an index into `chars`.
pub fn find_char_in(chars: &Vec<char>, lo: usize, hi: usize, x: char) -> (index: Option<usize>)
    requires
        lo <= hi <= chars@.len(),
    ensures
        match find_first(chars@.subrange(lo as int, hi as int), x) {
            Some(i) => 0 <= i < hi - lo && index == Some((lo + i) as usize),
            None => index is None,
        },
        index matches Some(k) ==> lo <= k < hi && chars@[k as int] == x,
{
    let ghost s = chars@.subrange(lo as int, hi as int);
    proof {
        lemma_find_first(s, x);
    }
    let mut i = lo;
    while i < hi
        invariant
            lo <= i <= hi <= chars@.len(),
            s == chars@.subrange(lo as int, hi as int),
            forall|j: int| lo <= j < i ==> chars@[j] != x,
            match find_first(s, x) {
                Some(k) => 0 <= k < s.len() && s[k] == x && forall|j: int| 0 <= j < k ==> s[j] != x,
                None => forall|j: int| 0 <= j < s.len() ==> s[j] != x,
            },
        decreases hi - i,
    {
        if chars[i] == x {
            proof {
                assert(s[i - lo] == x);
                match find_first(s, x) {
                    Some(k) => {
                        if k < i - lo {
                            assert(s[k] == chars@[lo + k]);
                        }
                        if k > i - lo {
                            assert(s[i - lo] != x);
                        }
                    },
                    None => {},
                }
            }
            return Some(i);
        }
        i = i + 1;
    }
    proof {
        match find_first(s, x) {
            Some(k) => {
                assert(s[k] == chars@[lo + k]);
            },
            None => {},
        }
    }
    None
}

} // verus!
