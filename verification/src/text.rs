//! Character-level text handling: whitespace, trimming, splitting on a
//! separator, infix search, and decimal numerals.

use vstd::prelude::*;

verus! {

// ---------------------------------------------------------------------------
// Whitespace and trimming
// ---------------------------------------------------------------------------

/// The characters with the Unicode `White_Space` property, which is the set
/// that `char::is_whitespace` recognises.
pub open spec fn is_space(c: char) -> bool {
    let u = c as u32;
    ||| 0x09 <= u <= 0x0D
    ||| u == 0x20
    ||| u == 0x85
    ||| u == 0xA0
    ||| u == 0x1680
    ||| 0x2000 <= u <= 0x200A
    ||| u == 0x2028
    ||| u == 0x2029
    ||| u == 0x202F
    ||| u == 0x205F
    ||| u == 0x3000
}

/// `s` without its leading whitespace.
pub open spec fn trim_start(s: Seq<char>) -> Seq<char>
    decreases s.len(),
{
    if s.len() > 0 && is_space(s[0]) {
        trim_start(s.drop_first())
    } else {
        s
    }
}

/// `s` without its trailing whitespace.
pub open spec fn trim_end(s: Seq<char>) -> Seq<char>
    decreases s.len(),
{
    if s.len() > 0 && is_space(s.last()) {
        trim_end(s.drop_last())
    } else {
        s
    }
}

/// `s` without leading and trailing whitespace.
pub open spec fn trim(s: Seq<char>) -> Seq<char> {
    trim_end(trim_start(s))
}

/// Whether `c` is a whitespace character.
pub fn is_whitespace(c: char) -> (r: bool)
    ensures
        r == is_space(c),
{
    let u = c as u32;
    (0x09 <= u && u <= 0x0D) || u == 0x20 || u == 0x85 || u == 0xA0 || u == 0x1680 || (0x2000
        <= u && u <= 0x200A) || u == 0x2028 || u == 0x2029 || u == 0x202F || u == 0x205F || u
        == 0x3000
}

/// The characters of `s` from `from` (inclusive) to `to` (exclusive).
pub fn copy_range(s: &Vec<char>, from: usize, to: usize) -> (r: Vec<char>)
    requires
        from <= to <= s.len(),
    ensures
        r@ == s@.subrange(from as int, to as int),
{
    let mut r: Vec<char> = Vec::new();
    let mut k: usize = from;
    while k < to
        invariant
            from <= k <= to <= s.len(),
            r@ == s@.subrange(from as int, k as int),
        decreases to - k,
    {
        r.push(s[k]);
        assert(s@.subrange(from as int, k + 1) =~= s@.subrange(from as int, k as int).push(
            s@[k as int],
        ));
        k += 1;
    }
    r
}

/// `s` with leading and trailing whitespace removed.
pub fn trim_chars(s: &Vec<char>) -> (r: Vec<char>)
    ensures
        r@ == trim(s@),
{
    let len = s.len();
    let mut i: usize = 0;
    assert(s@.skip(0) =~= s@);
    while i < len && is_whitespace(s[i])
        invariant
            i <= len == s@.len(),
            trim_start(s@) == trim_start(s@.skip(i as int)),
        decreases len - i,
    {
        assert(s@.skip(i as int).drop_first() =~= s@.skip(i + 1));
        i += 1;
    }
    let ghost t = s@.skip(i as int);
    assert(trim_start(s@) == t);
    let mut j: usize = len;
    assert(s@.subrange(i as int, len as int) =~= t);
    while j > i && is_whitespace(s[j - 1])
        invariant
            i <= j <= len == s@.len(),
            trim_end(t) == trim_end(s@.subrange(i as int, j as int)),
        decreases j - i,
    {
        assert(s@.subrange(i as int, j as int).drop_last() =~= s@.subrange(i as int, j - 1));
        j -= 1;
    }
    copy_range(s, i, j)
}

/// Whether every character of `s` is whitespace.
pub open spec fn all_space(s: Seq<char>) -> bool {
    forall|i: int| 0 <= i < s.len() ==> is_space(#[trigger] s[i])
}

proof fn lemma_trim_start_concat(x: Seq<char>, y: Seq<char>)
    ensures
        trim_start(x + y) == (if trim_start(x).len() > 0 {
            trim_start(x) + y
        } else {
            trim_start(y)
        }),
    decreases x.len(),
{
    if x.len() == 0 {
        assert(x + y =~= y);
    } else if is_space(x[0]) {
        assert((x + y).drop_first() =~= x.drop_first() + y);
        lemma_trim_start_concat(x.drop_first(), y);
    } else {
        assert((x + y)[0] == x[0]);
    }
}

proof fn lemma_trim_end_concat(x: Seq<char>, y: Seq<char>)
    ensures
        trim_end(x + y) == (if trim_end(y).len() > 0 {
            x + trim_end(y)
        } else {
            trim_end(x)
        }),
    decreases y.len(),
{
    if y.len() == 0 {
        assert(x + y =~= x);
    } else if is_space(y.last()) {
        assert((x + y).drop_last() =~= x + y.drop_last());
        lemma_trim_end_concat(x, y.drop_last());
    } else {
        assert((x + y).last() == y.last());
    }
}

proof fn lemma_trim_start_all_space(s: Seq<char>)
    requires
        all_space(s),
    ensures
        trim_start(s).len() == 0,
    decreases s.len(),
{
    if s.len() > 0 {
        assert(is_space(s[0]));
        lemma_trim_start_all_space(s.drop_first());
    }
}

proof fn lemma_trim_end_all_space(s: Seq<char>)
    requires
        all_space(s),
    ensures
        trim_end(s).len() == 0,
    decreases s.len(),
{
    if s.len() > 0 {
        assert(is_space(s[s.len() - 1]));
        lemma_trim_end_all_space(s.drop_last());
    }
}

/// A whitespace-only text trims to nothing.
pub proof fn lemma_trim_all_space(s: Seq<char>)
    requires
        all_space(s),
    ensures
        trim(s).len() == 0,
{
    lemma_trim_start_all_space(s);
}

/// Whitespace added at either end of a text does not change what it trims to.
pub proof fn lemma_trim_padding(a: Seq<char>, s: Seq<char>, b: Seq<char>)
    requires
        all_space(a),
        all_space(b),
    ensures
        trim(a + s + b) == trim(s),
{
    assert(a + s + b =~= a + (s + b));
    lemma_trim_start_all_space(a);
    lemma_trim_start_concat(a, s + b);
    lemma_trim_start_concat(s, b);
    if trim_start(s).len() > 0 {
        lemma_trim_end_all_space(b);
        lemma_trim_end_concat(trim_start(s), b);
    } else {
        lemma_trim_start_all_space(b);
    }
}

// ---------------------------------------------------------------------------
// Splitting
// ---------------------------------------------------------------------------

/// The pieces of `s` between occurrences of `sep`, as `str::split` yields
/// them: `n` separators give `n + 1` pieces, some of which may be empty.
pub open spec fn split(s: Seq<char>, sep: char) -> Seq<Seq<char>>
    decreases s.len(),
{
    if s.len() == 0 {
        seq![Seq::empty()]
    } else {
        let init = split(s.drop_last(), sep);
        if s.last() == sep {
            init.push(Seq::empty())
        } else {
            init.update(init.len() - 1, init.last().push(s.last()))
        }
    }
}

/// Text without the separator is a single piece.
pub proof fn lemma_split_without_separator(s: Seq<char>, sep: char)
    requires
        forall|i: int| 0 <= i < s.len() ==> s[i] != sep,
    ensures
        split(s, sep) == seq![s],
    decreases s.len(),
{
    if s.len() > 0 {
        lemma_split_without_separator(s.drop_last(), sep);
        assert(s.drop_last().push(s.last()) =~= s);
        assert(split(s, sep) =~= seq![s]);
    } else {
        assert(s =~= Seq::<char>::empty());
    }
}

/// The views of a sequence of character vectors.
pub open spec fn views(v: Seq<Vec<char>>) -> Seq<Seq<char>> {
    v.map_values(|p: Vec<char>| p@)
}

/// The pieces of `s` between occurrences of `sep`.
pub fn split_chars(s: &Vec<char>, sep: char) -> (parts: Vec<Vec<char>>)
    ensures
        views(parts@) == split(s@, sep),
        parts@.len() >= 1,
{
    let mut parts: Vec<Vec<char>> = Vec::new();
    let mut cur: Vec<char> = Vec::new();
    let len = s.len();
    let mut i: usize = 0;
    assert(s@.take(0) =~= Seq::<char>::empty());
    assert(views(parts@).push(cur@) =~= split(s@.take(0), sep));
    while i < len
        invariant
            i <= len == s@.len(),
            views(parts@).push(cur@) == split(s@.take(i as int), sep),
        decreases len - i,
    {
        let c = s[i];
        let ghost prev = split(s@.take(i as int), sep);
        assert(s@.take(i + 1).drop_last() =~= s@.take(i as int));
        assert(s@.take(i + 1).last() == c);
        if c == sep {
            let ghost old_parts = parts@;
            parts.push(cur);
            cur = Vec::new();
            assert(views(parts@) =~= views(old_parts).push(prev.last()));
            assert(views(parts@).push(cur@) =~= prev.push(Seq::empty()));
        } else {
            cur.push(c);
            assert(views(parts@).push(cur@) =~= prev.update(prev.len() - 1, prev.last().push(c)));
        }
        i += 1;
    }
    assert(s@.take(len as int) =~= s@);
    let ghost before = parts@;
    parts.push(cur);
    assert(views(parts@) =~= views(before).push(cur@));
    parts
}

// ---------------------------------------------------------------------------
// Comparing and searching
// ---------------------------------------------------------------------------

/// Whether `pat` occurs in `s` as a contiguous run of characters.
pub open spec fn has_infix(s: Seq<char>, pat: Seq<char>) -> bool {
    exists|i: int| 0 <= i && i + pat.len() <= s.len() && #[trigger] s.subrange(i, i + pat.len()) == pat
}

/// Whether `a` and `b` hold the same characters.
pub fn same_chars(a: &Vec<char>, b: &Vec<char>) -> (r: bool)
    ensures
        r == (a@ == b@),
{
    if a.len() != b.len() {
        return false;
    }
    let mut i: usize = 0;
    while i < a.len()
        invariant
            i <= a.len() == b.len(),
            forall|k: int| 0 <= k < i ==> a@[k] == b@[k],
        decreases a.len() - i,
    {
        if a[i] != b[i] {
            return false;
        }
        i += 1;
    }
    assert(a@ =~= b@);
    true
}

/// Whether `pat` occurs in `s` starting at position `at`.
fn occurs_at(s: &Vec<char>, pat: &Vec<char>, at: usize) -> (r: bool)
    requires
        at + pat.len() <= s.len(),
    ensures
        r == (s@.subrange(at as int, at + pat.len()) == pat@),
{
    let mut k: usize = 0;
    while k < pat.len()
        invariant
            at + pat.len() <= s.len(),
            k <= pat.len(),
            forall|j: int| 0 <= j < k ==> s@[at + j] == pat@[j],
        decreases pat.len() - k,
    {
        if s[at + k] != pat[k] {
            assert(s@.subrange(at as int, at + pat.len())[k as int] != pat@[k as int]);
            return false;
        }
        k += 1;
    }
    assert(s@.subrange(at as int, at + pat.len()) =~= pat@);
    true
}

/// Whether `pat` occurs in `s`.
pub fn contains_chars(s: &Vec<char>, pat: &Vec<char>) -> (r: bool)
    ensures
        r == has_infix(s@, pat@),
{
    if pat.len() > s.len() {
        return false;
    }
    if pat.len() == 0 {
        assert(s@.subrange(0int, 0int + pat@.len()) =~= pat@);
        return true;
    }
    let last = s.len() - pat.len();
    let mut at: usize = 0;
    while at <= last
        invariant
            last + pat.len() == s.len(),
            pat.len() >= 1,
            at <= last + 1,
            forall|i: int| 0 <= i < at ==> #[trigger] s@.subrange(i, i + pat@.len()) != pat@,
        decreases last + 1 - at,
    {
        if occurs_at(s, pat, at) {
            return true;
        }
        at += 1;
    }
    false
}

/// The characters of a string slice.
pub fn chars_of(s: &str) -> (r: Vec<char>)
    ensures
        r@ == s@,
{
    let n = s.unicode_len();
    let mut r: Vec<char> = Vec::new();
    let mut i: usize = 0;
    while i < n
        invariant
            n == s@.len(),
            i <= n,
            r@ == s@.take(i as int),
        decreases n - i,
    {
        r.push(s.get_char(i));
        assert(s@.take(i + 1) =~= s@.take(i as int).push(s@[i as int]));
        i += 1;
    }
    assert(s@.take(n as int) =~= s@);
    r
}

// ---------------------------------------------------------------------------
// Decimal numerals
// ---------------------------------------------------------------------------

/// Whether `c` is one of the ASCII digits `0` to `9`.
pub open spec fn is_digit(c: char) -> bool {
    48 <= (c as u32) <= 57
}

/// Whether every character of `s` is an ASCII digit.
pub open spec fn all_digits(s: Seq<char>) -> bool {
    forall|i: int| 0 <= i < s.len() ==> is_digit(#[trigger] s[i])
}

/// The number that the decimal digits `s` denote.
pub open spec fn digits_value(s: Seq<char>) -> int
    decreases s.len(),
{
    if s.len() == 0 {
        0
    } else {
        10 * digits_value(s.drop_last()) + ((s.last() as u32) - 48)
    }
}

/// The value of an optionally signed decimal numeral, read as `str::parse`
/// reads a signed integer: an optional `+` or `-`, then at least one ASCII
/// digit, and nothing else. `None` where `s` is no such numeral.
pub open spec fn signed_numeral(s: Seq<char>) -> Option<int> {
    if s.len() > 0 && (s[0] == '+' || s[0] == '-') {
        let d = s.drop_first();
        if d.len() > 0 && all_digits(d) {
            Some(
                if s[0] == '-' {
                    -digits_value(d)
                } else {
                    digits_value(d)
                },
            )
        } else {
            None
        }
    } else if s.len() > 0 && all_digits(s) {
        Some(digits_value(s))
    } else {
        None
    }
}

/// The value of an unsigned decimal numeral, read as `str::parse` reads an
/// unsigned integer: an optional `+`, then at least one ASCII digit.
pub open spec fn unsigned_numeral(s: Seq<char>) -> Option<int> {
    if s.len() > 0 && s[0] == '+' {
        let d = s.drop_first();
        if d.len() > 0 && all_digits(d) {
            Some(digits_value(d))
        } else {
            None
        }
    } else if s.len() > 0 && all_digits(s) {
        Some(digits_value(s))
    } else {
        None
    }
}

/// What `s.parse::<i64>()` gives: the numeral's value where it fits in `i64`.
pub open spec fn parse_i64(s: Seq<char>) -> Option<i64> {
    match signed_numeral(s) {
        Some(v) => if i64::MIN <= v <= i64::MAX {
            Some(v as i64)
        } else {
            None
        },
        None => None,
    }
}

/// What `s.parse::<usize>()` gives: the numeral's value where it fits in `usize`.
pub open spec fn parse_usize(s: Seq<char>) -> Option<usize> {
    match unsigned_numeral(s) {
        Some(v) => if 0 <= v <= usize::MAX {
            Some(v as usize)
        } else {
            None
        },
        None => None,
    }
}

/// Digits denote a non-negative number.
pub proof fn lemma_digits_value_nonneg(s: Seq<char>)
    requires
        all_digits(s),
    ensures
        digits_value(s) >= 0,
    decreases s.len(),
{
    if s.len() > 0 {
        assert(all_digits(s.drop_last()));
        lemma_digits_value_nonneg(s.drop_last());
        assert(is_digit(s[s.len() - 1]));
    }
}

/// The cap at which digit accumulation saturates: above every `i64` and `usize` magnitude.
pub open spec fn magnitude_cap() -> int {
    0x1_0000_0000_0000_0000
}

/// The value of the digits `s[from..]`, saturated at `magnitude_cap()`, or
/// `None` where some character there is not a digit.
fn digits_magnitude(s: &Vec<char>, from: usize) -> (r: Option<u128>)
    requires
        from <= s.len(),
    ensures
        r is None <==> !all_digits(s@.skip(from as int)),
        r matches Some(v) ==> {
            let d = digits_value(s@.skip(from as int));
            &&& d >= 0
            &&& v == (if d < magnitude_cap() { d } else { magnitude_cap() })
        },
{
    let cap: u128 = 0x1_0000_0000_0000_0000;
    let mut acc: u128 = 0;
    let mut k: usize = from;
    assert(s@.subrange(from as int, from as int) =~= Seq::<char>::empty());
    while k < s.len()
        invariant
            from <= k <= s.len(),
            cap == magnitude_cap(),
            all_digits(s@.subrange(from as int, k as int)),
            digits_value(s@.subrange(from as int, k as int)) >= 0,
            acc == (if digits_value(s@.subrange(from as int, k as int)) < cap {
                digits_value(s@.subrange(from as int, k as int))
            } else {
                cap as int
            }),
        decreases s.len() - k,
    {
        let c = s[k];
        let u = c as u32;
        let ghost prefix = s@.subrange(from as int, k as int);
        let ghost next = s@.subrange(from as int, k + 1);
        assert(next.drop_last() =~= prefix);
        assert(next.last() == c);
        if u < 48 || u > 57 {
            assert(s@.skip(from as int)[k - from] == c);
            return None;
        }
        assert(all_digits(next)) by {
            assert forall|i: int| 0 <= i < next.len() implies is_digit(#[trigger] next[i]) by {
                if i < prefix.len() {
                    assert(next[i] == prefix[i]);
                }
            }
        }
        let d = (u - 48) as u128;
        if acc < cap {
            let v = acc * 10 + d;
            acc = if v < cap { v } else { cap };
        }
        k += 1;
    }
    assert(s@.subrange(from as int, s.len() as int) =~= s@.skip(from as int));
    Some(acc)
}

/// `s.parse::<i64>()`, as an `Option`.
pub fn parse_i64_chars(s: &Vec<char>) -> (r: Option<i64>)
    ensures
        r == parse_i64(s@),
{
    if s.len() == 0 {
        return None;
    }
    let negative = s[0] == '-';
    let from: usize = if s[0] == '+' || s[0] == '-' { 1 } else { 0 };
    if from == 1 {
        assert(s@.drop_first() =~= s@.skip(1));
        if s.len() == 1 {
            return None;
        }
    } else {
        assert(s@ =~= s@.skip(0));
    }
    match digits_magnitude(s, from) {
        None => None,
        Some(m) => {
            if negative {
                if m <= 0x8000_0000_0000_0000 {
                    let v: i128 = 0i128 - (m as i128);
                    Some(v as i64)
                } else {
                    None
                }
            } else {
                if m <= 0x7FFF_FFFF_FFFF_FFFF {
                    Some(m as i64)
                } else {
                    None
                }
            }
        },
    }
}

/// `s.parse::<usize>()`, as an `Option`.
pub fn parse_usize_chars(s: &Vec<char>) -> (r: Option<usize>)
    ensures
        r == parse_usize(s@),
{
    if s.len() == 0 {
        return None;
    }
    let from: usize = if s[0] == '+' { 1 } else { 0 };
    if from == 1 {
        assert(s@.drop_first() =~= s@.skip(1));
        if s.len() == 1 {
            return None;
        }
    } else {
        assert(s@ =~= s@.skip(0));
    }
    match digits_magnitude(s, from) {
        None => None,
        Some(m) => {
            if m <= usize::MAX as u128 {
                Some(m as usize)
            } else {
                None
            }
        },
    }
}

} // verus!
