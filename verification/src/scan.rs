//! Low-level text scanning: substring search, digit and whitespace runs,
//! decimal values, trimming, and the floating-point literal grammar.
//!
//! Everything here is stated over `Seq<char>` views; the executable
//! functions are proved equivalent to the spec-level definitions.

use vstd::prelude::*;

verus! {

/// A decimal digit `'0'..='9'`.
pub open spec fn is_digit_char(c: char) -> bool {
    48 <= c as int && c as int <= 57
}

/// Numeric value of a decimal digit.
pub open spec fn digit_val(c: char) -> int {
    c as int - 48
}

/// The whitespace characters the report format uses (space, tab,
/// line feed, carriage return).
pub open spec fn is_space_char(c: char) -> bool {
    c == ' ' || c == '\t' || c == '\n' || c == '\r'
}

/// `pat` occurs in `s` starting exactly at index `i`.
pub open spec fn occurs_at(s: Seq<char>, pat: Seq<char>, i: int) -> bool {
    &&& 0 <= i
    &&& i + pat.len() <= s.len()
    &&& forall|k: int| 0 <= k < pat.len() ==> s[i + k] == pat[k]
}

/// Index of the first occurrence of `pat` in `s` at or after `from`,
/// if there is one.
pub open spec fn find_at(s: Seq<char>, pat: Seq<char>, from: int) -> Option<int>
    decreases s.len() - from,
{
    if from < 0 || from + pat.len() > s.len() {
        None
    } else if occurs_at(s, pat, from) {
        Some(from)
    } else {
        find_at(s, pat, from + 1)
    }
}

/// A successful `find_at` names the first occurrence at or after `from`.
pub proof fn lemma_find_at_some(s: Seq<char>, pat: Seq<char>, from: int, i: int)
    requires
        find_at(s, pat, from) == Some(i),
    ensures
        from <= i,
        occurs_at(s, pat, i),
        forall|j: int| from <= j < i ==> !occurs_at(s, pat, j),
    decreases s.len() - from,
{
    if from < 0 || from + pat.len() > s.len() {
    } else if occurs_at(s, pat, from) {
    } else {
        lemma_find_at_some(s, pat, from + 1, i);
    }
}

/// A failed `find_at` means `pat` occurs nowhere at or after `from`.
pub proof fn lemma_find_at_none(s: Seq<char>, pat: Seq<char>, from: int)
    requires
        0 <= from,
        find_at(s, pat, from) is None,
    ensures
        forall|j: int| from <= j ==> !occurs_at(s, pat, j),
    decreases s.len() - from,
{
    if from + pat.len() > s.len() {
    } else {
        lemma_find_at_none(s, pat, from + 1);
    }
}

/// First occurrence of `pat` in `s` at or after `from`.
pub fn find_sub(s: &str, pat: &str, from: usize) -> (r: Option<usize>)
    ensures
        match r {
            Some(i) => {
                &&& from <= i
                &&& occurs_at(s@, pat@, i as int)
                &&& find_at(s@, pat@, from as int) == Some(i as int)
                &&& forall|j: int| from <= j < i ==> !occurs_at(s@, pat@, j)
            },
            None => {
                &&& find_at(s@, pat@, from as int) is None
                &&& forall|j: int| from <= j ==> !occurs_at(s@, pat@, j)
            },
        },
{
    let n = s.unicode_len();
    let m = pat.unicode_len();
    if m > n || from > n - m {
        proof {
            lemma_find_at_none(s@, pat@, from as int);
        }
        return None;
    }
    let mut i = from;
    while i <= n - m
        invariant
            from <= i,
            m <= n,
            i <= n - m + 1,
            n == s@.len(),
            m == pat@.len(),
            find_at(s@, pat@, from as int) == find_at(s@, pat@, i as int),
        decreases n - i,
    {
        let mut j: usize = 0;
        let mut is_match = true;
        while is_match && j < m
            invariant
                i + m <= n,
                n == s@.len(),
                m == pat@.len(),
                j <= m,
                is_match ==> forall|k: int| 0 <= k < j ==> s@[i + k] == pat@[k],
                !is_match ==> !occurs_at(s@, pat@, i as int),
            decreases m - j + (if is_match { 1int } else { 0int }),
        {
            if s.get_char(i + j) != pat.get_char(j) {
                is_match = false;
            } else {
                j = j + 1;
            }
        }
        if is_match {
            proof {
                assert(occurs_at(s@, pat@, i as int));
                lemma_find_at_some(s@, pat@, from as int, i as int);
            }
            return Some(i);
        }
        proof {
            assert(find_at(s@, pat@, i as int) == find_at(s@, pat@, i + 1));
        }
        i = i + 1;
    }
    proof {
        assert(find_at(s@, pat@, i as int) is None);
        lemma_find_at_none(s@, pat@, from as int);
    }
    None
}

/// `pat` occurs in `s` exactly at `i`.
pub fn occurs_at_exec(s: &str, pat: &str, i: usize) -> (r: bool)
    ensures
        r == occurs_at(s@, pat@, i as int),
{
    let n = s.unicode_len();
    let m = pat.unicode_len();
    if m > n || i > n - m {
        return false;
    }
    let mut j: usize = 0;
    while j < m
        invariant
            i + m <= n,
            n == s@.len(),
            m == pat@.len(),
            j <= m,
            forall|k: int| 0 <= k < j ==> s@[i + k] == pat@[k],
        decreases m - j,
    {
        if s.get_char(i + j) != pat.get_char(j) {
            return false;
        }
        j = j + 1;
    }
    true
}

/// End of the maximal run of decimal digits starting at `from`.
pub open spec fn digit_run_end(s: Seq<char>, from: int) -> int
    decreases s.len() - from,
{
    if from < 0 || from >= s.len() || !is_digit_char(s[from]) {
        from
    } else {
        digit_run_end(s, from + 1)
    }
}

/// Shape of a maximal digit run: in bounds, digits inside, a non-digit
/// (or the end of the text) at its end.
pub proof fn lemma_digit_run_end(s: Seq<char>, from: int)
    requires
        0 <= from <= s.len(),
    ensures
        from <= digit_run_end(s, from) <= s.len(),
        forall|k: int| from <= k < digit_run_end(s, from) ==> is_digit_char(s[k]),
        digit_run_end(s, from) == s.len() || !is_digit_char(s[digit_run_end(s, from)]),
    decreases s.len() - from,
{
    if from < s.len() && is_digit_char(s[from]) {
        lemma_digit_run_end(s, from + 1);
    }
}

/// End of the maximal run of whitespace starting at `from`.
pub open spec fn space_run_end(s: Seq<char>, from: int) -> int
    decreases s.len() - from,
{
    if from < 0 || from >= s.len() || !is_space_char(s[from]) {
        from
    } else {
        space_run_end(s, from + 1)
    }
}

/// Shape of a maximal whitespace run.
pub proof fn lemma_space_run_end(s: Seq<char>, from: int)
    requires
        0 <= from <= s.len(),
    ensures
        from <= space_run_end(s, from) <= s.len(),
        forall|k: int| from <= k < space_run_end(s, from) ==> is_space_char(s[k]),
        space_run_end(s, from) == s.len() || !is_space_char(s[space_run_end(s, from)]),
    decreases s.len() - from,
{
    if from < s.len() && is_space_char(s[from]) {
        lemma_space_run_end(s, from + 1);
    }
}

/// Whether the character at `i` is a decimal digit.
fn digit_at(s: &str, i: usize) -> (r: bool)
    requires
        i < s@.len(),
    ensures
        r == is_digit_char(s@[i as int]),
{
    let u = s.get_char(i) as u32;
    48 <= u && u <= 57
}

/// Whether the character at `i` is report whitespace.
fn space_at(s: &str, i: usize) -> (r: bool)
    requires
        i < s@.len(),
    ensures
        r == is_space_char(s@[i as int]),
{
    let c = s.get_char(i);
    c == ' ' || c == '\t' || c == '\n' || c == '\r'
}

/// End of the maximal digit run starting at `from`.
pub fn digit_run_end_exec(s: &str, from: usize) -> (r: usize)
    requires
        from <= s@.len(),
    ensures
        r as int == digit_run_end(s@, from as int),
        from <= r <= s@.len(),
{
    let n = s.unicode_len();
    let mut i = from;
    while i < n && digit_at(s, i)
        invariant
            from <= i <= n,
            n == s@.len(),
            digit_run_end(s@, from as int) == digit_run_end(s@, i as int),
        decreases n - i,
    {
        i = i + 1;
    }
    i
}

/// End of the maximal whitespace run starting at `from`.
pub fn space_run_end_exec(s: &str, from: usize) -> (r: usize)
    requires
        from <= s@.len(),
    ensures
        r as int == space_run_end(s@, from as int),
        from <= r <= s@.len(),
{
    let n = s.unicode_len();
    let mut i = from;
    while i < n && space_at(s, i)
        invariant
            from <= i <= n,
            n == s@.len(),
            space_run_end(s@, from as int) == space_run_end(s@, i as int),
        decreases n - i,
    {
        i = i + 1;
    }
    i
}

/// Value of a string of decimal digits, most significant first.
pub open spec fn digits_val(s: Seq<char>) -> int
    decreases s.len(),
{
    if s.len() == 0 {
        0
    } else {
        digits_val(s.drop_last()) * 10 + digit_val(s.last())
    }
}

/// The value of a digit string is never negative.
pub proof fn lemma_digits_val_nonneg(s: Seq<char>)
    requires
        forall|k: int| 0 <= k < s.len() ==> is_digit_char(s[k]),
    ensures
        digits_val(s) >= 0,
    decreases s.len(),
{
    if s.len() > 0 {
        lemma_digits_val_nonneg(s.drop_last());
    }
}

/// Extending a digit string on the right cannot shrink its value.
pub proof fn lemma_digits_val_mono(s: Seq<char>, from: int, i: int, j: int)
    requires
        0 <= from <= i <= j <= s.len(),
        forall|k: int| from <= k < j ==> is_digit_char(s[k]),
    ensures
        digits_val(s.subrange(from, i)) <= digits_val(s.subrange(from, j)),
    decreases j - i,
{
    if i < j {
        lemma_digits_val_mono(s, from, i, j - 1);
        lemma_digits_val_nonneg(s.subrange(from, j - 1));
        assert(s.subrange(from, j).drop_last() =~= s.subrange(from, j - 1));
        assert(digits_val(s.subrange(from, j)) == digits_val(s.subrange(from, j - 1)) * 10
            + digit_val(s.subrange(from, j).last()));
    }
}

/// Parse the digit run `s[from..to]` as a `u64`, detecting overflow.
pub fn parse_u64_digits(s: &str, from: usize, to: usize) -> (r: Option<u64>)
    requires
        from <= to <= s@.len(),
        forall|k: int| from <= k < to ==> is_digit_char(s@[k]),
    ensures
        match r {
            Some(v) => v as int == digits_val(s@.subrange(from as int, to as int)),
            None => digits_val(s@.subrange(from as int, to as int)) > u64::MAX,
        },
{
    let mut acc: u64 = 0;
    let mut i = from;
    while i < to
        invariant
            from <= i <= to <= s@.len(),
            forall|k: int| from <= k < to ==> is_digit_char(s@[k]),
            acc as int == digits_val(s@.subrange(from as int, i as int)),
        decreases to - i,
    {
        let u = s.get_char(i) as u32;
        proof {
            assert(is_digit_char(s@[i as int]));
        }
        let d = (u - 48) as u64;
        if acc > 1844674407370955161u64 || (acc == 1844674407370955161u64 && d > 5) {
            proof {
                assert(s@.subrange(from as int, i + 1).drop_last() =~= s@.subrange(
                    from as int,
                    i as int,
                ));
                assert(digits_val(s@.subrange(from as int, i + 1)) > u64::MAX);
                lemma_digits_val_mono(s@, from as int, i + 1, to as int);
            }
            return None;
        }
        proof {
            assert(s@.subrange(from as int, i + 1).drop_last() =~= s@.subrange(
                from as int,
                i as int,
            ));
        }
        acc = acc * 10 + d;
        i = i + 1;
    }
    Some(acc)
}

/// `find_at` returns exactly the position that is an occurrence with
/// no occurrence before it.
pub proof fn lemma_find_at_exact(s: Seq<char>, pat: Seq<char>, from: int, i: int)
    requires
        0 <= from <= i,
        occurs_at(s, pat, i),
        forall|j: int| from <= j < i ==> !occurs_at(s, pat, j),
    ensures
        find_at(s, pat, from) == Some(i),
    decreases i - from,
{
    if from < i {
        lemma_find_at_exact(s, pat, from + 1, i);
    }
}

/// An occurrence whose window lies inside `[a, b)` is an occurrence
/// in the subrange.
pub proof fn lemma_occurs_at_subrange(s: Seq<char>, pat: Seq<char>, a: int, b: int, i: int)
    requires
        0 <= a <= i,
        i + pat.len() <= b <= s.len(),
    ensures
        occurs_at(s, pat, i) == occurs_at(s.subrange(a, b), pat, i - a),
{
    if occurs_at(s, pat, i) {
        assert forall|k: int| 0 <= k < pat.len() implies s.subrange(a, b)[i - a + k] == pat[k] by {
            assert(s[i + k] == pat[k]);
        }
    }
    if occurs_at(s.subrange(a, b), pat, i - a) {
        assert forall|k: int| 0 <= k < pat.len() implies s[i + k] == pat[k] by {
            assert(s.subrange(a, b)[i - a + k] == pat[k]);
        }
    }
}

/// A run of digits delimited by a non-digit (or the end) is the
/// maximal digit run.
pub proof fn lemma_digit_run_end_exact(s: Seq<char>, a: int, b: int)
    requires
        0 <= a <= b <= s.len(),
        forall|k: int| a <= k < b ==> is_digit_char(s[k]),
        b == s.len() || !is_digit_char(s[b]),
    ensures
        digit_run_end(s, a) == b,
    decreases b - a,
{
    if a < b {
        lemma_digit_run_end_exact(s, a + 1, b);
    }
}

/// A run of whitespace delimited by a non-space (or the end) is the
/// maximal whitespace run.
pub proof fn lemma_space_run_end_exact(s: Seq<char>, a: int, b: int)
    requires
        0 <= a <= b <= s.len(),
        forall|k: int| a <= k < b ==> is_space_char(s[k]),
        b == s.len() || !is_space_char(s[b]),
    ensures
        space_run_end(s, a) == b,
    decreases b - a,
{
    if a < b {
        lemma_space_run_end_exact(s, a + 1, b);
    }
}

/// The characters a floating-point literal may consist of.
pub open spec fn is_float_char(c: char) -> bool {
    is_digit_char(c) || c == '+' || c == '-' || c == '.' || c == 'e' || c == 'E'
}

/// Every character after the exponent position of a well-formed
/// exponent part is a float character.
proof fn lemma_exp_ok_chars(s: Seq<char>, i: int)
    requires
        0 <= i <= s.len(),
        exp_ok(s, i),
    ensures
        forall|k: int| i <= k < s.len() ==> is_float_char(#[trigger] s[k]),
{
    if i < s.len() {
        let b: int = if i + 1 < s.len() && (s[i + 1] == '+' || s[i + 1] == '-') {
            i + 2
        } else {
            i + 1
        };
        lemma_digit_run_end(s, b);
    }
}

/// A floating-point literal consists of float characters only; in
/// particular it holds no whitespace and no comma.
pub proof fn lemma_float_lit_chars(s: Seq<char>)
    requires
        is_float_lit(s),
    ensures
        forall|k: int| 0 <= k < s.len() ==> is_float_char(#[trigger] s[k]),
        s.len() > 0,
{
    let b: int = if s.len() > 0 && (s[0] == '+' || s[0] == '-') {
        1
    } else {
        0
    };
    let de: int = digit_run_end(s, b);
    lemma_digit_run_end(s, b);
    if de > b {
        if de < s.len() && s[de] == '.' {
            let fe: int = digit_run_end(s, de + 1);
            lemma_digit_run_end(s, de + 1);
            lemma_exp_ok_chars(s, fe);
        } else {
            lemma_exp_ok_chars(s, de);
        }
    } else {
        let fe: int = digit_run_end(s, b + 1);
        lemma_digit_run_end(s, b + 1);
        lemma_exp_ok_chars(s, fe);
    }
}

/// `pat` does not occur inside `a + pat` before its final position.
pub open spec fn no_early_occurrence(a: Seq<char>, pat: Seq<char>) -> bool {
    forall|j: int| 0 <= j < a.len() ==> !occurs_at(a + pat, pat, j)
}

/// Number of occurrences of the character `c` in `s`.
pub open spec fn count_char(s: Seq<char>, c: char) -> nat
    decreases s.len(),
{
    if s.len() == 0 {
        0
    } else {
        count_char(s.drop_last(), c) + (if s.last() == c {
            1nat
        } else {
            0nat
        })
    }
}

/// Counting distributes over concatenation.
pub proof fn lemma_count_char_concat(a: Seq<char>, b: Seq<char>, c: char)
    ensures
        count_char(a + b, c) == count_char(a, c) + count_char(b, c),
    decreases b.len(),
{
    if b.len() == 0 {
        assert(a + b =~= a);
    } else {
        lemma_count_char_concat(a, b.drop_last(), c);
        assert((a + b).drop_last() =~= a + b.drop_last());
    }
}

/// Counting splits at any position.
pub proof fn lemma_count_char_split(s: Seq<char>, c: char, mid: int)
    requires
        0 <= mid <= s.len(),
    ensures
        count_char(s, c) == count_char(s.subrange(0, mid), c) + count_char(
            s.subrange(mid, s.len() as int),
            c,
        ),
{
    assert(s =~= s.subrange(0, mid) + s.subrange(mid, s.len() as int));
    lemma_count_char_concat(s.subrange(0, mid), s.subrange(mid, s.len() as int), c);
}

/// A text without the character has count zero.
pub proof fn lemma_count_char_zero(s: Seq<char>, c: char)
    requires
        forall|i: int| 0 <= i < s.len() ==> s[i] != c,
    ensures
        count_char(s, c) == 0,
    decreases s.len(),
{
    if s.len() > 0 {
        lemma_count_char_zero(s.drop_last(), c);
    }
}

/// A witness occurrence makes the count positive.
pub proof fn lemma_count_char_at(s: Seq<char>, c: char, i: int)
    requires
        0 <= i < s.len(),
        s[i] == c,
    ensures
        count_char(s, c) >= 1,
    decreases s.len(),
{
    if i < s.len() - 1 {
        lemma_count_char_at(s.drop_last(), c, i);
    }
}

/// Start of the maximal run of whitespace that ends at `to`
/// (scanning leftwards).
pub open spec fn space_suffix_start(s: Seq<char>, to: int) -> int
    decreases to,
{
    if to <= 0 || to > s.len() || !is_space_char(s[to - 1]) {
        to
    } else {
        space_suffix_start(s, to - 1)
    }
}

/// Shape of a maximal trailing whitespace run.
pub proof fn lemma_space_suffix_start(s: Seq<char>, to: int)
    requires
        0 <= to <= s.len(),
    ensures
        0 <= space_suffix_start(s, to) <= to,
        forall|k: int| space_suffix_start(s, to) <= k < to ==> is_space_char(s[k]),
        space_suffix_start(s, to) == 0 || !is_space_char(s[space_suffix_start(s, to) - 1]),
    decreases to,
{
    if to > 0 && is_space_char(s[to - 1]) {
        lemma_space_suffix_start(s, to - 1);
    }
}

/// A non-space character before `to` keeps the trailing run short of it.
pub proof fn lemma_space_suffix_start_past(s: Seq<char>, to: int, a: int)
    requires
        0 <= a < to <= s.len(),
        !is_space_char(s[a]),
    ensures
        space_suffix_start(s, to) > a,
    decreases to,
{
    if to > 0 && is_space_char(s[to - 1]) {
        lemma_space_suffix_start_past(s, to - 1, a);
    }
}

/// `t` with leading and trailing whitespace removed.
pub open spec fn trim_of(t: Seq<char>) -> Seq<char> {
    if space_run_end(t, 0) == t.len() {
        Seq::empty()
    } else {
        t.subrange(space_run_end(t, 0), space_suffix_start(t, t.len() as int))
    }
}

/// Copy of `s[from..to]` with leading and trailing whitespace removed.
pub fn trim_substring(s: &str, from: usize, to: usize) -> (r: String)
    requires
        from <= to <= s@.len(),
    ensures
        r@ == trim_of(s@.subrange(from as int, to as int)),
{
    let t = s.substring_char(from, to);
    let n = t.unicode_len();
    let a = space_run_end_exec(t, 0);
    if a == n {
        String::new()
    } else {
        proof {
            lemma_space_run_end(t@, 0);
            assert(!is_space_char(t@[a as int]));
            lemma_space_suffix_start_past(t@, n as int, a as int);
            lemma_space_suffix_start(t@, n as int);
        }
        let b = space_suffix_start_exec(t, n);
        t.substring_char(a, b).to_owned()
    }
}

/// Start of the maximal whitespace run ending at `to` (scanning leftwards).
pub fn space_suffix_start_exec(s: &str, to: usize) -> (r: usize)
    requires
        to <= s@.len(),
    ensures
        r as int == space_suffix_start(s@, to as int),
        r <= to,
{
    let mut j = to;
    while j > 0 && space_at(s, j - 1)
        invariant
            j <= to <= s@.len(),
            space_suffix_start(s@, to as int) == space_suffix_start(s@, j as int),
        decreases j,
    {
        j = j - 1;
    }
    j
}

/// Exponent part of a floating-point literal: either nothing at all, or
/// `e`/`E`, an optional sign, and at least one digit reaching the end.
pub open spec fn exp_ok(s: Seq<char>, i: int) -> bool {
    if i == s.len() {
        true
    } else if 0 <= i < s.len() && (s[i] == 'e' || s[i] == 'E') {
        let b: int = if i + 1 < s.len() && (s[i + 1] == '+' || s[i + 1] == '-') {
            i + 2
        } else {
            i + 1
        };
        digit_run_end(s, b) > b && digit_run_end(s, b) == s.len()
    } else {
        false
    }
}

/// A decimal floating-point literal: optional sign, digits with an
/// optional fraction (at least one digit on one side of the point),
/// and an optional exponent.
pub open spec fn is_float_lit(s: Seq<char>) -> bool {
    let b: int = if s.len() > 0 && (s[0] == '+' || s[0] == '-') {
        1
    } else {
        0
    };
    let de: int = digit_run_end(s, b);
    if de > b {
        if de < s.len() && s[de] == '.' {
            exp_ok(s, digit_run_end(s, de + 1))
        } else {
            exp_ok(s, de)
        }
    } else {
        if b < s.len() && s[b] == '.' {
            digit_run_end(s, b + 1) > b + 1 && exp_ok(s, digit_run_end(s, b + 1))
        } else {
            false
        }
    }
}

/// Check the exponent grammar starting at `i`.
fn exp_ok_exec(s: &str, i: usize) -> (r: bool)
    requires
        i <= s@.len(),
    ensures
        r == exp_ok(s@, i as int),
{
    let n = s.unicode_len();
    if i == n {
        return true;
    }
    let c = s.get_char(i);
    if c != 'e' && c != 'E' {
        return false;
    }
    let mut b = i + 1;
    if b < n {
        let c2 = s.get_char(b);
        if c2 == '+' || c2 == '-' {
            b = b + 1;
        }
    }
    let e = digit_run_end_exec(s, b);
    e > b && e == n
}

/// Check whether `s` as a whole is a floating-point literal.
pub fn is_float_lit_exec(s: &str) -> (r: bool)
    ensures
        r == is_float_lit(s@),
{
    let n = s.unicode_len();
    let mut b: usize = 0;
    if n > 0 {
        let c = s.get_char(0);
        if c == '+' || c == '-' {
            b = 1;
        }
    }
    let de = digit_run_end_exec(s, b);
    if de > b {
        if de < n && s.get_char(de) == '.' {
            let fe = digit_run_end_exec(s, de + 1);
            exp_ok_exec(s, fe)
        } else {
            exp_ok_exec(s, de)
        }
    } else {
        if b < n && s.get_char(b) == '.' {
            let fe = digit_run_end_exec(s, b + 1);
            fe > b + 1 && exp_ok_exec(s, fe)
        } else {
            false
        }
    }
}

} // verus!
