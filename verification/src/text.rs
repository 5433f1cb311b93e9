//! Character-level text operations with exact specifications: substring
//! search, splitting, whitespace trimming and signed decimal parsing, each
//! following what `str` in the standard library does on the same input.

use vstd::prelude::*;

verus! {

/// `pat` occurs in `s` starting at position `i`.
pub open spec fn occurs_at(s: Seq<char>, pat: Seq<char>, i: int) -> bool {
    &&& 0 <= i
    &&& i + pat.len() <= s.len()
    &&& s.subrange(i, i + pat.len()) == pat
}

/// Position of the leftmost occurrence of `pat` in `s` that starts at or after `from`.
pub open spec fn find_from(s: Seq<char>, pat: Seq<char>, from: int) -> Option<int>
    decreases s.len() + 1 - from,
{
    if from < 0 || from + pat.len() > s.len() {
        None
    } else if occurs_at(s, pat, from) {
        Some(from)
    } else {
        find_from(s, pat, from + 1)
    }
}

/// `pat` occurs somewhere in `s` (`str::contains`).
pub open spec fn contains_seq(s: Seq<char>, pat: Seq<char>) -> bool {
    exists|i: int| occurs_at(s, pat, i)
}

/// The first piece of `s` split at `sep` (`str::split(..).next()`).
pub open spec fn split_first(s: Seq<char>, sep: Seq<char>) -> Seq<char> {
    match find_from(s, sep, 0) {
        None => s,
        Some(i) => s.subrange(0, i),
    }
}

/// The second piece of `s` split at `sep` (`str::split(..).nth(1)`): the
/// text between the first occurrence of `sep` and the next one, or the end.
pub open spec fn split_second(s: Seq<char>, sep: Seq<char>) -> Option<Seq<char>> {
    match find_from(s, sep, 0) {
        None => None,
        Some(i) => {
            let start = i + sep.len();
            match find_from(s, sep, start) {
                None => Some(s.subrange(start, s.len() as int)),
                Some(j) => Some(s.subrange(start, j)),
            }
        },
    }
}

pub(crate) proof fn lemma_find_from(s: Seq<char>, pat: Seq<char>, from: int)
    requires
        0 <= from,
    ensures
        match find_from(s, pat, from) {
            Some(i) => from <= i && occurs_at(s, pat, i) && forall|j: int|
                from <= j < i ==> !occurs_at(s, pat, j),
            None => forall|j: int| from <= j ==> !occurs_at(s, pat, j),
        },
    decreases s.len() + 1 - from,
{
    if from + pat.len() > s.len() {
    } else if occurs_at(s, pat, from) {
    } else {
        lemma_find_from(s, pat, from + 1);
    }
}

/// The characters of `s`, in order.
pub fn chars_of(s: &str) -> (v: Vec<char>)
    ensures
        v@ == s@,
{
    let mut v: Vec<char> = Vec::new();
    for c in it: s.chars()
        invariant
            v@ == it.seq().take(it.index() as int),
            it.seq() == s@,
    {
        v.push(c);
    }
    v
}


/// Whether `pat` occurs in `s` at position `i`.
fn occurs_at_exec(s: &Vec<char>, pat: &[char], i: usize) -> (r: bool)
    ensures
        r == occurs_at(s@, pat@, i as int),
{
    if pat.len() > s.len() || i > s.len() - pat.len() {
        return false;
    }
    let mut k: usize = 0;
    while k < pat.len()
        invariant
            i + pat@.len() <= s@.len(),
            pat.len() == pat@.len(),
            s.len() == s@.len(),
            k <= pat@.len(),
            forall|m: int| 0 <= m < k ==> s@[i + m] == pat@[m],
        decreases pat@.len() - k,
    {
        if s[i + k] != pat[k] {
            assert(s@.subrange(i as int, i + pat@.len())[k as int] != pat@[k as int]);
            return false;
        }
        k = k + 1;
    }
    assert(s@.subrange(i as int, i + pat@.len()) =~= pat@);
    true
}

/// Position of the leftmost occurrence of `pat` in `s` at or after `from`.
pub fn find_from_exec(s: &Vec<char>, pat: &[char], from: usize) -> (r: Option<usize>)
    ensures
        r matches Some(i) ==> find_from(s@, pat@, from as int) == Some(i as int),
        r is None ==> find_from(s@, pat@, from as int) is None,
        r matches Some(i) ==> from <= i && i + pat@.len() <= s@.len(),
{
    proof {
        lemma_find_from(s@, pat@, from as int);
    }
    if pat.len() > s.len() || from > s.len() - pat.len() {
        return None;
    }
    let last = s.len() - pat.len();
    let mut i = from;
    loop
        invariant
            from <= i <= last,
            last == s@.len() - pat@.len(),
            find_from(s@, pat@, from as int) == find_from(s@, pat@, i as int),
        decreases last - i,
    {
        if occurs_at_exec(s, pat, i) {
            return Some(i);
        }
        if i == last {
            assert(find_from(s@, pat@, i + 1) is None);
            return None;
        }
        i = i + 1;
    }
}

/// Whether `pat` occurs anywhere in `s`.
pub fn contains_exec(s: &Vec<char>, pat: &[char]) -> (r: bool)
    ensures
        r == contains_seq(s@, pat@),
{
    proof {
        lemma_find_from(s@, pat@, 0);
    }
    match find_from_exec(s, pat, 0) {
        Some(i) => true,
        None => false,
    }
}

/// A copy of the characters of `s` from `lo` up to `hi`.
pub fn copy_range(s: &Vec<char>, lo: usize, hi: usize) -> (r: Vec<char>)
    requires
        lo <= hi <= s@.len(),
    ensures
        r@ == s@.subrange(lo as int, hi as int),
{
    let mut r: Vec<char> = Vec::new();
    let mut k = lo;
    while k < hi
        invariant
            lo <= k <= hi <= s@.len(),
            r@ == s@.subrange(lo as int, k as int),
        decreases hi - k,
    {
        r.push(s[k]);
        k = k + 1;
        assert(r@ =~= s@.subrange(lo as int, k as int));
    }
    r
}

/// The first piece of `s` split at `sep`.
pub fn split_first_exec(s: &Vec<char>, sep: &[char]) -> (r: Vec<char>)
    ensures
        r@ == split_first(s@, sep@),
{
    match find_from_exec(s, sep, 0) {
        Some(i) => copy_range(s, 0, i),
        None => {
            let r = copy_range(s, 0, s.len());
            assert(r@ =~= s@);
            r
        },
    }
}

/// The bounds, within `s`, of the second piece of `s` split at `sep`.
pub fn split_second_bounds(s: &Vec<char>, sep: &[char]) -> (r: Option<(usize, usize)>)
    ensures
        match split_second(s@, sep@) {
            None => r is None,
            Some(piece) => r matches Some((a, b)) && a <= b <= s@.len() && piece == s@.subrange(
                a as int,
                b as int,
            ),
        },
{
    match find_from_exec(s, sep, 0) {
        None => None,
        Some(i) => {
            let n = s.len();
            assert(i + sep@.len() <= n);
            let start = i + sep.len();
            match find_from_exec(s, sep, start) {
                None => Some((start, s.len())),
                Some(j) => Some((start, j)),
            }
        },
    }
}

/// The second piece of `s` split at `sep`.
pub fn split_second_exec(s: &Vec<char>, sep: &[char]) -> (r: Option<Vec<char>>)
    ensures
        match split_second(s@, sep@) {
            None => r is None,
            Some(piece) => r matches Some(v) && v@ == piece,
        },
{
    match split_second_bounds(s, sep) {
        None => None,
        Some((a, b)) => Some(copy_range(s, a, b)),
    }
}


/// `c` has the Unicode `White_Space` property (`char::is_whitespace`).
pub open spec fn is_whitespace(c: char) -> bool {
    ||| '\u{9}' <= c <= '\u{D}'
    ||| c == ' '
    ||| c == '\u{85}'
    ||| c == '\u{A0}'
    ||| c == '\u{1680}'
    ||| '\u{2000}' <= c <= '\u{200A}'
    ||| c == '\u{2028}'
    ||| c == '\u{2029}'
    ||| c == '\u{202F}'
    ||| c == '\u{205F}'
    ||| c == '\u{3000}'
}

/// `s` without its leading whitespace.
pub open spec fn trim_start(s: Seq<char>) -> Seq<char>
    decreases s.len(),
{
    if s.len() > 0 && is_whitespace(s[0]) {
        trim_start(s.drop_first())
    } else {
        s
    }
}

/// `s` without its trailing whitespace.
pub open spec fn trim_end(s: Seq<char>) -> Seq<char>
    decreases s.len(),
{
    if s.len() > 0 && is_whitespace(s.last()) {
        trim_end(s.drop_last())
    } else {
        s
    }
}

/// `s` without leading and trailing whitespace (`str::trim`).
pub open spec fn trim(s: Seq<char>) -> Seq<char> {
    trim_end(trim_start(s))
}

/// Whether `c` is whitespace.
pub fn is_whitespace_exec(c: char) -> (r: bool)
    ensures
        r == is_whitespace(c),
{
    ('\u{9}' <= c && c <= '\u{D}') || c == ' ' || c == '\u{85}' || c == '\u{A0}' || c
        == '\u{1680}' || ('\u{2000}' <= c && c <= '\u{200A}') || c == '\u{2028}' || c
        == '\u{2029}' || c == '\u{202F}' || c == '\u{205F}' || c == '\u{3000}'
}

/// `s` without leading and trailing whitespace.
pub fn trim_exec(s: &Vec<char>) -> (r: Vec<char>)
    ensures
        r@ == trim(s@),
{
    let n = s.len();
    let mut a: usize = 0;
    assert(s@.subrange(0, n as int) =~= s@);
    loop
        invariant
            n == s@.len(),
            a <= n,
            trim_start(s@) == trim_start(s@.subrange(a as int, n as int)),
        ensures
            a <= n,
            trim_start(s@) == s@.subrange(a as int, n as int),
        decreases n - a,
    {
        if a == n || !is_whitespace_exec(s[a]) {
            assert(a < n ==> s@.subrange(a as int, n as int)[0] == s@[a as int]);
            break;
        }
        assert(s@.subrange(a as int, n as int).drop_first() =~= s@.subrange(a + 1, n as int));
        a = a + 1;
    }
    let mut b: usize = n;
    loop
        invariant
            n == s@.len(),
            a <= b <= n,
            trim_start(s@) == s@.subrange(a as int, n as int),
            trim_end(s@.subrange(a as int, n as int)) == trim_end(s@.subrange(a as int, b as int)),
        ensures
            a <= b <= n,
            trim(s@) == s@.subrange(a as int, b as int),
        decreases b - a,
    {
        if b == a || !is_whitespace_exec(s[b - 1]) {
            assert(a < b ==> s@.subrange(a as int, b as int).last() == s@[b - 1]);
            break;
        }
        assert(s@.subrange(a as int, b as int).drop_last() =~= s@.subrange(a as int, b - 1));
        b = b - 1;
    }
    copy_range(s, a, b)
}

/// `c` is an ASCII decimal digit.
pub open spec fn is_digit(c: char) -> bool {
    '0' <= c <= '9'
}

/// The value of the decimal digit `c`.
pub open spec fn digit_value(c: char) -> int {
    c as int - '0' as int
}

/// The value of the decimal numeral `ds`, most significant digit first.
pub open spec fn digits_value(ds: Seq<char>) -> int
    decreases ds.len(),
{
    if ds.len() == 0 {
        0
    } else {
        digits_value(ds.drop_last()) * 10 + digit_value(ds.last())
    }
}

/// Every character of `ds` is a decimal digit.
pub open spec fn all_digits(ds: Seq<char>) -> bool {
    forall|i: int| 0 <= i < ds.len() ==> is_digit(#[trigger] ds[i])
}

/// What `str::parse::<i32>` gives for `s`: an optional sign, then one or
/// more decimal digits, whose value fits in an `i32`.
pub open spec fn parse_i32(s: Seq<char>) -> Option<i32> {
    if s.len() == 0 || (s.len() == 1 && (s[0] == '+' || s[0] == '-')) {
        None
    } else {
        let digits = if s[0] == '+' || s[0] == '-' {
            s.drop_first()
        } else {
            s
        };
        let magnitude = digits_value(digits);
        let value = if s[0] == '-' {
            -magnitude
        } else {
            magnitude
        };
        if all_digits(digits) && i32::MIN <= value <= i32::MAX {
            Some(value as i32)
        } else {
            None
        }
    }
}

proof fn lemma_digits_nonnegative(ds: Seq<char>)
    requires
        all_digits(ds),
    ensures
        digits_value(ds) >= 0,
    decreases ds.len(),
{
    if ds.len() > 0 {
        assert(all_digits(ds.drop_last()));
        lemma_digits_nonnegative(ds.drop_last());
        assert(is_digit(ds[ds.len() - 1]));
    }
}

proof fn lemma_digits_prefix(ds: Seq<char>, k: int)
    requires
        all_digits(ds),
        0 <= k <= ds.len(),
    ensures
        digits_value(ds.take(k)) <= digits_value(ds),
    decreases ds.len(),
{
    if k == ds.len() {
        assert(ds.take(k) =~= ds);
    } else {
        let shorter = ds.drop_last();
        assert(all_digits(shorter));
        assert(shorter.take(k) =~= ds.take(k));
        lemma_digits_prefix(shorter, k);
        lemma_digits_nonnegative(shorter);
        assert(is_digit(ds[ds.len() - 1]));
    }
}

/// The `i32` written in `t`, as `str::parse::<i32>` reads it.
pub fn parse_i32_exec(t: &Vec<char>) -> (r: Option<i32>)
    ensures
        r == parse_i32(t@),
{
    let n = t.len();
    if n == 0 {
        return None;
    }
    let first = t[0];
    let signed = first == '+' || first == '-';
    if n == 1 && signed {
        return None;
    }
    let start: usize = if signed {
        1
    } else {
        0
    };
    let ghost digits = t@.subrange(start as int, n as int);
    assert(digits =~= (if signed {
        t@.drop_first()
    } else {
        t@
    }));
    let mut acc: u64 = 0;
    let mut k: usize = start;
    while k < n
        invariant
            start <= k <= n,
            n == t@.len(),
            digits == t@.subrange(start as int, n as int),
            n >= 1,
            first == t@[0],
            signed == (first == '+' || first == '-'),
            !(n == 1 && signed),
            digits == (if signed {
                t@.drop_first()
            } else {
                t@
            }),
            all_digits(t@.subrange(start as int, k as int)),
            acc == digits_value(t@.subrange(start as int, k as int)),
            acc <= 2147483648,
        decreases n - k,
    {
        let c = t[k];
        assert(digits[k - start] == c);
        if !('0' <= c && c <= '9') {
            assert(!is_digit(digits[k - start]));
            assert(!all_digits(digits));
            return None;
        }
        let d = (c as u32 - '0' as u32) as u64;
        let next = acc * 10 + d;
        let ghost grown = t@.subrange(start as int, k + 1);
        assert(grown.drop_last() =~= t@.subrange(start as int, k as int));
        assert(grown.last() == c);
        assert(digits_value(grown) == next);
        assert(all_digits(grown)) by {
            assert forall|i: int| 0 <= i < grown.len() implies is_digit(#[trigger] grown[i]) by {
                if i < grown.len() - 1 {
                    assert(grown[i] == t@.subrange(start as int, k as int)[i]);
                }
            }
        }
        if next > 2147483648 {
            proof {
                if all_digits(digits) {
                    assert(digits.take(k + 1 - start) =~= grown);
                    lemma_digits_prefix(digits, k + 1 - start);
                }
            }
            return None;
        }
        acc = next;
        k = k + 1;
    }
    assert(t@.subrange(start as int, n as int) =~= digits);
    if first == '-' {
        Some((0 - acc as i64) as i32)
    } else if acc <= 2147483647 {
        Some(acc as i32)
    } else {
        None
    }
}


/// `s` begins with `prefix` (`str::starts_with`).
pub open spec fn starts_with_seq(s: Seq<char>, prefix: Seq<char>) -> bool {
    prefix.len() <= s.len() && s.subrange(0, prefix.len() as int) == prefix
}

/// Whether `s` begins with `prefix`.
pub fn starts_with_exec(s: &Vec<char>, prefix: &[char]) -> (r: bool)
    ensures
        r == starts_with_seq(s@, prefix@),
{
    occurs_at_exec(s, prefix, 0)
}

/// Whether two texts are equal.
pub fn same_text(a: &str, b: &str) -> (r: bool)
    ensures
        r == (a@ == b@),
{
    let x = chars_of(a);
    let y = chars_of(b);
    if x.len() != y.len() {
        return false;
    }
    let mut i: usize = 0;
    while i < x.len()
        invariant
            x@ == a@,
            y@ == b@,
            x@.len() == y@.len(),
            i <= x@.len(),
            forall|j: int| 0 <= j < i ==> x@[j] == y@[j],
        decreases x@.len() - i,
    {
        if x[i] != y[i] {
            return false;
        }
        i = i + 1;
    }
    assert(x@ =~= y@);
    true
}


/// The decimal digit character for `d`, with `0 <= d <= 9`.
pub open spec fn digit_char(d: int) -> char {
    (('0' as int) + d) as char
}

/// The decimal numeral of `m`, without leading zeros.
pub open spec fn decimal_digits(m: nat) -> Seq<char>
    decreases m,
{
    if m < 10 {
        seq![digit_char(m as int)]
    } else {
        decimal_digits(m / 10).push(digit_char((m % 10) as int))
    }
}

/// The decimal text of `n`, with a leading `-` when negative.
pub open spec fn decimal_text(n: int) -> Seq<char> {
    if n < 0 {
        seq!['-'] + decimal_digits((-n) as nat)
    } else {
        decimal_digits(n as nat)
    }
}

pub(crate) proof fn lemma_decimal_digits(m: nat)
    ensures
        decimal_digits(m).len() >= 1,
        all_digits(decimal_digits(m)),
        digits_value(decimal_digits(m)) == m,
    decreases m,
{
    let d = (m % 10) as int;
    assert(digit_value(digit_char(d)) == d);
    if m < 10 {
        let s = decimal_digits(m);
        assert(s.drop_last() =~= Seq::<char>::empty());
        assert(d == m);
        assert(s.last() == digit_char(d));
        assert(digits_value(s) == digits_value(s.drop_last()) * 10 + digit_value(s.last()));
        assert(digits_value(Seq::<char>::empty()) == 0);
    } else {
        lemma_decimal_digits(m / 10);
        let s = decimal_digits(m);
        assert(s.drop_last() =~= decimal_digits(m / 10));
        assert(s.last() == digit_char(d));
        assert(m == (m / 10) * 10 + d);
        assert(digits_value(s) == digits_value(s.drop_last()) * 10 + digit_value(s.last()));
        assert forall|i: int| 0 <= i < s.len() implies is_digit(#[trigger] s[i]) by {
            if i < s.len() - 1 {
                assert(s[i] == decimal_digits(m / 10)[i]);
            }
        }
    }
}

/// Every character of the decimal text of `n` is a digit, but a leading `-`.
pub(crate) proof fn lemma_decimal_text_chars(n: int)
    ensures
        decimal_text(n).len() >= 1,
        forall|i: int|
            0 <= i < decimal_text(n).len() ==> is_digit(#[trigger] decimal_text(n)[i]) || (i == 0
                && decimal_text(n)[i] == '-'),
        is_digit(decimal_text(n).last()),
{
    if n < 0 {
        lemma_decimal_digits((-n) as nat);
        let ds = decimal_digits((-n) as nat);
        assert forall|i: int| 0 < i < decimal_text(n).len() implies is_digit(#[trigger] decimal_text(n)[i]) by {
            assert(decimal_text(n)[i] == ds[i - 1]);
        }
        assert(decimal_text(n).last() == ds[ds.len() - 1]);
    } else {
        lemma_decimal_digits(n as nat);
    }
}

/// Reading back the decimal text of any `i32` gives that number: what
/// `str::parse::<i32>` reads from what `i32`'s `Display` writes.
pub proof fn lemma_parse_decimal_text(n: int)
    requires
        i32::MIN <= n <= i32::MAX,
    ensures
        parse_i32(decimal_text(n)) == Some(n as i32),
{
    if n < 0 {
        lemma_decimal_digits((-n) as nat);
        let s = decimal_text(n);
        assert(s.drop_first() =~= decimal_digits((-n) as nat));
    } else {
        lemma_decimal_digits(n as nat);
    }
}

/// The decimal text of a number has no surrounding whitespace.
pub(crate) proof fn lemma_decimal_text_trimmed(n: int)
    ensures
        trim(decimal_text(n)) == decimal_text(n),
{
    lemma_decimal_text_chars(n);
    let s = decimal_text(n);
    assert(is_digit(s[0]) || s[0] == '-');
}

pub(crate) proof fn lemma_occurs_shift(a: Seq<char>, b: Seq<char>, pat: Seq<char>, k: int)
    requires
        0 <= k,
    ensures
        occurs_at(a + b, pat, a.len() + k) == occurs_at(b, pat, k),
{
    if k + pat.len() <= b.len() {
        assert((a + b).subrange(a.len() + k, a.len() + k + pat.len()) =~= b.subrange(k, k + pat.len()));
    }
}

pub(crate) proof fn lemma_occurs_first_char(s: Seq<char>, pat: Seq<char>, i: int)
    requires
        occurs_at(s, pat, i),
        pat.len() > 0,
    ensures
        s[i] == pat[0],
{
    assert(s.subrange(i, i + pat.len())[0] == s[i]);
}

pub(crate) proof fn lemma_find_shift(a: Seq<char>, b: Seq<char>, pat: Seq<char>, k: int)
    requires
        0 <= k,
    ensures
        find_from(a + b, pat, a.len() + k) == match find_from(b, pat, k) {
            Some(t) => Some(a.len() + t),
            None => None::<int>,
        },
    decreases b.len() + 1 - k,
{
    lemma_occurs_shift(a, b, pat, k);
    if k + pat.len() <= b.len() && !occurs_at(b, pat, k) {
        lemma_find_shift(a, b, pat, k + 1);
    }
}

pub(crate) proof fn lemma_find_skip(s: Seq<char>, pat: Seq<char>, from: int, to: int)
    requires
        0 <= from <= to,
        forall|j: int| from <= j < to ==> !occurs_at(s, pat, j),
    ensures
        find_from(s, pat, from) == find_from(s, pat, to),
    decreases to - from,
{
    if from < to {
        if from + pat.len() > s.len() {
            lemma_find_skip(s, pat, from + 1, to);
            assert(find_from(s, pat, to) is None) by {
                lemma_find_from(s, pat, to);
                if find_from(s, pat, to) is Some {
                    let t = find_from(s, pat, to)->0;
                    assert(occurs_at(s, pat, t));
                }
            }
        } else {
            lemma_find_skip(s, pat, from + 1, to);
        }
    }
}

/// Searching past a prefix none of whose characters starts the pattern.
pub(crate) proof fn lemma_find_past_prefix(pre: Seq<char>, tail: Seq<char>, pat: Seq<char>)
    requires
        pat.len() > 0,
        forall|k: int| 0 <= k < pre.len() ==> #[trigger] pre[k] != pat[0],
    ensures
        find_from(pre + tail, pat, 0) == match find_from(tail, pat, 0) {
            Some(t) => Some(pre.len() + t),
            None => None::<int>,
        },
        contains_seq(pre + tail, pat) == contains_seq(tail, pat),
{
    let s = pre + tail;
    assert forall|j: int| 0 <= j < pre.len() implies !occurs_at(s, pat, j) by {
        if occurs_at(s, pat, j) {
            lemma_occurs_first_char(s, pat, j);
            assert(s[j] == pre[j]);
        }
    }
    lemma_find_skip(s, pat, 0, pre.len() as int);
    lemma_find_shift(pre, tail, pat, 0);
    lemma_contains_iff_found(s, pat);
    lemma_contains_iff_found(tail, pat);
}

/// `pat` occurs in `s` exactly when a search from the start finds it.
pub(crate) proof fn lemma_contains_iff_found(s: Seq<char>, pat: Seq<char>)
    ensures
        contains_seq(s, pat) == find_from(s, pat, 0) is Some,
{
    lemma_find_from(s, pat, 0);
    if contains_seq(s, pat) {
        let i = choose|i: int| occurs_at(s, pat, i);
        assert(0 <= i);
    }
}

} // verus!
