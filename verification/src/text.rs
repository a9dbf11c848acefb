//! Character-level text operations with their specifications.
//!
//! All text is handled as sequences of Unicode scalar values (`char`); the
//! specifications below describe the standard string operations that the
//! focus-file format is read and written with.
use vstd::prelude::*;

verus! {

/// `String::push` appends one character at the end of the string.
pub assume_specification[ String::push ](s: &mut String, ch: char)
    ensures
        final(s)@ == old(s)@.push(ch),
;

// ------------------------------------------------------------------------
// Specifications
// ------------------------------------------------------------------------

/// The Unicode `White_Space` property, as `char::is_whitespace` defines it.
pub open spec fn is_ws(c: char) -> bool {
    ||| ('\t' <= c && c <= '\r')
    ||| c == ' '
    ||| c == '\u{85}'
    ||| c == '\u{a0}'
    ||| c == '\u{1680}'
    ||| ('\u{2000}' <= c && c <= '\u{200a}')
    ||| c == '\u{2028}'
    ||| c == '\u{2029}'
    ||| c == '\u{202f}'
    ||| c == '\u{205f}'
    ||| c == '\u{3000}'
}

/// `s` without its leading whitespace.
pub open spec fn trim_start(s: Seq<char>) -> Seq<char>
    decreases s.len(),
{
    if s.len() > 0 && is_ws(s[0]) {
        trim_start(s.drop_first())
    } else {
        s
    }
}

/// `s` without its trailing whitespace.
pub open spec fn trim_end(s: Seq<char>) -> Seq<char>
    decreases s.len(),
{
    if s.len() > 0 && is_ws(s.last()) {
        trim_end(s.drop_last())
    } else {
        s
    }
}

/// `s` without leading and trailing whitespace (`str::trim`).
pub open spec fn trim(s: Seq<char>) -> Seq<char> {
    trim_end(trim_start(s))
}

/// `s` without any leading or trailing `"` (`str::trim_matches('"')`).
pub open spec fn strip_quotes_start(s: Seq<char>) -> Seq<char>
    decreases s.len(),
{
    if s.len() > 0 && s[0] == '"' {
        strip_quotes_start(s.drop_first())
    } else {
        s
    }
}

pub open spec fn strip_quotes_end(s: Seq<char>) -> Seq<char>
    decreases s.len(),
{
    if s.len() > 0 && s.last() == '"' {
        strip_quotes_end(s.drop_last())
    } else {
        s
    }
}

pub open spec fn strip_quotes(s: Seq<char>) -> Seq<char> {
    strip_quotes_end(strip_quotes_start(s))
}

/// Index of the first `c` in `s` (`str::find` with a `char`).
pub open spec fn find_char(s: Seq<char>, c: char) -> Option<int>
    decreases s.len(),
{
    if s.len() == 0 {
        None
    } else if s[0] == c {
        Some(0)
    } else {
        match find_char(s.drop_first(), c) {
            Some(i) => Some(i + 1),
            None => None,
        }
    }
}

/// Index of the last `c` in `s` (`str::rfind` with a `char`).
pub open spec fn rfind_char(s: Seq<char>, c: char) -> Option<int>
    decreases s.len(),
{
    if s.len() == 0 {
        None
    } else if s.last() == c {
        Some(s.len() - 1)
    } else {
        rfind_char(s.drop_last(), c)
    }
}

/// `s` begins with `p` (`str::starts_with`).
pub open spec fn starts_with(s: Seq<char>, p: Seq<char>) -> bool {
    p.len() <= s.len() && s.take(p.len() as int) == p
}

/// `p` occurs in `s` at index `i`.
pub open spec fn occurs_at(s: Seq<char>, p: Seq<char>, i: int) -> bool {
    0 <= i && i + p.len() <= s.len() && s.subrange(i, i + p.len()) == p
}

/// Index of the first occurrence of `p` in `s` (`str::find` with a `&str`).
pub open spec fn find_seq(s: Seq<char>, p: Seq<char>) -> Option<int>
    decreases s.len(),
{
    if s.len() < p.len() {
        None
    } else if s.take(p.len() as int) == p {
        Some(0)
    } else if s.len() == 0 {
        None
    } else {
        match find_seq(s.drop_first(), p) {
            Some(i) => Some(i + 1),
            None => None,
        }
    }
}

/// `s` without one trailing carriage return.
pub open spec fn strip_cr(s: Seq<char>) -> Seq<char> {
    if s.len() > 0 && s.last() == '\r' {
        s.drop_last()
    } else {
        s
    }
}

/// The lines of `s` (`str::lines`): pieces between `\n`, each without a trailing
/// `\r`, and no empty piece after a final `\n`.
pub open spec fn lines(s: Seq<char>) -> Seq<Seq<char>>
    decreases s.len(),
{
    if s.len() == 0 {
        Seq::empty()
    } else {
        match find_char(s, '\n') {
            None => seq![strip_cr(s)],
            Some(i) => if 0 <= i < s.len() {
                seq![strip_cr(s.take(i))] + lines(s.skip(i + 1))
            } else {
                Seq::empty()
            },
        }
    }
}

/// Whitespace-separated words of `s`, where `cur` is the word read so far
/// (`str::split_whitespace` when `cur` is empty).
pub open spec fn split_ws_from(s: Seq<char>, cur: Seq<char>) -> Seq<Seq<char>>
    decreases s.len(),
{
    if s.len() == 0 {
        if cur.len() > 0 {
            seq![cur]
        } else {
            Seq::empty()
        }
    } else if is_ws(s[0]) {
        (if cur.len() > 0 {
            seq![cur]
        } else {
            Seq::<Seq<char>>::empty()
        }) + split_ws_from(s.drop_first(), Seq::empty())
    } else {
        split_ws_from(s.drop_first(), cur.push(s[0]))
    }
}

pub open spec fn split_whitespace(s: Seq<char>) -> Seq<Seq<char>> {
    split_ws_from(s, Seq::empty())
}

/// Every `\r\n` replaced by `\n`, scanning left to right (`str::replace("\r\n", "\n")`).
pub open spec fn replace_crlf(s: Seq<char>) -> Seq<char>
    decreases s.len(),
{
    if s.len() == 0 {
        s
    } else if s.len() >= 2 && s[0] == '\r' && s[1] == '\n' {
        seq!['\n'] + replace_crlf(s.skip(2))
    } else {
        seq![s[0]] + replace_crlf(s.skip(1))
    }
}

pub open spec fn is_digit(c: char) -> bool {
    '0' <= c && c <= '9'
}

pub open spec fn all_digits(s: Seq<char>) -> bool {
    forall|i: int| 0 <= i < s.len() ==> #[trigger] is_digit(s[i])
}

pub open spec fn digit_value(c: char) -> int {
    c as int - '0' as int
}

/// The number that the decimal digits `s` spell.
pub open spec fn digits_value(s: Seq<char>) -> int
    decreases s.len(),
{
    if s.len() == 0 {
        0
    } else {
        digits_value(s.drop_last()) * 10 + digit_value(s.last())
    }
}

/// `s` without its optional leading `+` or `-`, and whether it was `-`.
pub open spec fn split_sign(s: Seq<char>) -> (bool, Seq<char>) {
    if s.len() > 0 && s[0] == '-' {
        (true, s.drop_first())
    } else if s.len() > 0 && s[0] == '+' {
        (false, s.drop_first())
    } else {
        (false, s)
    }
}

/// `str::parse::<i32>`: an optional sign and at least one digit, in range.
pub open spec fn parse_i32(s: Seq<char>) -> Option<i32> {
    let (neg, d) = split_sign(s);
    if d.len() > 0 && all_digits(d) {
        let v = if neg {
            -digits_value(d)
        } else {
            digits_value(d)
        };
        if i32::MIN <= v <= i32::MAX {
            Some(v as i32)
        } else {
            None
        }
    } else {
        None
    }
}

pub open spec fn digit_char(d: int) -> char {
    (d + '0' as int) as char
}

/// Decimal digits of `n`, without leading zeros.
pub open spec fn nat_text(n: nat) -> Seq<char>
    decreases n,
{
    if n < 10 {
        seq![digit_char(n as int)]
    } else {
        nat_text(n / 10).push(digit_char((n % 10) as int))
    }
}

/// `v` written in decimal, as `Display` writes an integer.
pub open spec fn int_text(v: int) -> Seq<char> {
    if v < 0 {
        seq!['-'] + nat_text((-v) as nat)
    } else {
        nat_text(v as nat)
    }
}

// ------------------------------------------------------------------------
// Lemmas
// ------------------------------------------------------------------------

pub proof fn lemma_find_char(s: Seq<char>, c: char)
    ensures
        match find_char(s, c) {
            Some(i) => 0 <= i < s.len() && s[i] == c && forall|j: int| 0 <= j < i ==> s[j] != c,
            None => forall|j: int| 0 <= j < s.len() ==> s[j] != c,
        },
    decreases s.len(),
{
    if s.len() > 0 && s[0] != c {
        lemma_find_char(s.drop_first(), c);
        assert forall|j: int| 0 < j < s.len() implies s[j] == s.drop_first()[j - 1] by {}
    }
}

/// `find_char` is the first index holding `c`.
pub proof fn lemma_find_char_at(s: Seq<char>, c: char, i: int)
    requires
        0 <= i < s.len(),
        s[i] == c,
        forall|j: int| 0 <= j < i ==> s[j] != c,
    ensures
        find_char(s, c) == Some(i),
{
    lemma_find_char(s, c);
}

/// `find_char` finds nothing where `c` does not occur.
pub proof fn lemma_find_char_none(s: Seq<char>, c: char)
    requires
        forall|j: int| 0 <= j < s.len() ==> s[j] != c,
    ensures
        find_char(s, c) is None,
{
    lemma_find_char(s, c);
}

pub proof fn lemma_rfind_char(s: Seq<char>, c: char)
    ensures
        match rfind_char(s, c) {
            Some(i) => 0 <= i < s.len() && s[i] == c && forall|j: int| i < j < s.len() ==> s[j] != c,
            None => forall|j: int| 0 <= j < s.len() ==> s[j] != c,
        },
    decreases s.len(),
{
    if s.len() > 0 && s.last() != c {
        lemma_rfind_char(s.drop_last(), c);
        assert forall|j: int| 0 <= j < s.len() - 1 implies s.drop_last()[j] == s[j] by {}
    }
}

pub proof fn lemma_find_seq(s: Seq<char>, p: Seq<char>)
    ensures
        match find_seq(s, p) {
            Some(i) => occurs_at(s, p, i) && forall|j: int| 0 <= j < i ==> !occurs_at(s, p, j),
            None => forall|j: int| !occurs_at(s, p, j),
        },
    decreases s.len(),
{
    if s.len() < p.len() {
    } else if s.take(p.len() as int) == p {
        assert(s.subrange(0, p.len() as int) == s.take(p.len() as int));
    } else if s.len() == 0 {
        assert(p.len() == 0);
        assert(s.take(0) == p);
    } else {
        lemma_find_seq(s.drop_first(), p);
        assert(!occurs_at(s, p, 0)) by {
            assert(s.subrange(0, p.len() as int) == s.take(p.len() as int));
        }
        assert forall|j: int| 0 < j implies occurs_at(s, p, j) == occurs_at(s.drop_first(), p, j - 1) by {
            if j + p.len() <= s.len() {
                assert(s.subrange(j, j + p.len()) == s.drop_first().subrange(j - 1, j - 1 + p.len()));
            }
        }
    }
}

/// A text that occurs somewhere is contained.
pub proof fn lemma_contains_at(s: Seq<char>, p: Seq<char>, i: int)
    requires
        occurs_at(s, p, i),
    ensures
        contains_text(s, p),
{
    lemma_find_seq(s, p);
}

/// What either part contains, the whole contains.
pub proof fn lemma_contains_concat(a: Seq<char>, b: Seq<char>, p: Seq<char>)
    requires
        contains_text(a, p) || contains_text(b, p),
    ensures
        contains_text(a + b, p),
{
    if contains_text(a, p) {
        lemma_find_seq(a, p);
        let i = find_seq(a, p)->0;
        assert((a + b).subrange(i, i + p.len()) =~= a.subrange(i, i + p.len()));
        lemma_contains_at(a + b, p, i);
    } else {
        lemma_find_seq(b, p);
        let i = find_seq(b, p)->0;
        assert((a + b).subrange(a.len() + i, a.len() + i + p.len()) =~= b.subrange(i, i + p.len()));
        lemma_contains_at(a + b, p, a.len() + i);
    }
}

/// A contained text is no longer than its container.
pub proof fn lemma_contains_len(s: Seq<char>, p: Seq<char>)
    requires
        contains_text(s, p),
    ensures
        p.len() <= s.len(),
{
    lemma_find_seq(s, p);
}

pub proof fn lemma_find_seq_at(s: Seq<char>, p: Seq<char>, i: int)
    requires
        occurs_at(s, p, i),
        forall|j: int| 0 <= j < i ==> !occurs_at(s, p, j),
    ensures
        find_seq(s, p) == Some(i),
{
    lemma_find_seq(s, p);
}

pub proof fn lemma_find_seq_none(s: Seq<char>, p: Seq<char>)
    requires
        forall|j: int| !occurs_at(s, p, j),
    ensures
        find_seq(s, p) is None,
{
    lemma_find_seq(s, p);
}

// ------------------------------------------------------------------------
// Executable operations
// ------------------------------------------------------------------------

/// The characters of `s`, in order.
pub fn chars_of(s: &str) -> (v: Vec<char>)
    ensures
        v@ == s@,
{
    let mut v: Vec<char> = Vec::new();
    for c in it: s.chars()
        invariant
            it.seq() == s@,
            v@ == s@.take(it.index() as int),
    {
        v.push(c);
    }
    assert(s@.take(s@.len() as int) == s@);
    v
}

/// A string holding the characters of `v`.
pub fn string_of(v: &[char]) -> (s: String)
    ensures
        s@ == v@,
{
    let mut s = String::new();
    let mut i: usize = 0;
    while i < v.len()
        invariant
            i <= v@.len(),
            s@ == v@.take(i as int),
        decreases v@.len() - i,
    {
        s.push(v[i]);
        assert(v@.take(i + 1) == v@.take(i as int).push(v@[i as int]));
        i = i + 1;
    }
    assert(v@.take(v@.len() as int) == v@);
    s
}

/// The characters `v[lo..hi]` as a new vector.
pub fn slice_chars(v: &[char], lo: usize, hi: usize) -> (r: Vec<char>)
    requires
        lo <= hi <= v@.len(),
    ensures
        r@ == v@.subrange(lo as int, hi as int),
{
    let mut r: Vec<char> = Vec::new();
    let mut i: usize = lo;
    while i < hi
        invariant
            lo <= i <= hi <= v@.len(),
            r@ == v@.subrange(lo as int, i as int),
        decreases hi - i,
    {
        r.push(v[i]);
        assert(v@.subrange(lo as int, i + 1) == v@.subrange(lo as int, i as int).push(v@[i as int]));
        i = i + 1;
    }
    r
}

/// Appends the characters of `src` to `dst`.
pub fn push_all(dst: &mut Vec<char>, src: &[char])
    ensures
        final(dst)@ == old(dst)@ + src@,
{
    let mut i: usize = 0;
    while i < src.len()
        invariant
            i <= src@.len(),
            dst@ == old(dst)@ + src@.take(i as int),
        decreases src@.len() - i,
    {
        dst.push(src[i]);
        assert(src@.take(i + 1) == src@.take(i as int).push(src@[i as int]));
        i = i + 1;
    }
    assert(src@.take(src@.len() as int) == src@);
}

/// `char::is_whitespace`.
pub fn is_whitespace(c: char) -> (b: bool)
    ensures
        b == is_ws(c),
{
    ('\t' <= c && c <= '\r') || c == ' ' || c == '\u{85}' || c == '\u{a0}' || c == '\u{1680}'
        || ('\u{2000}' <= c && c <= '\u{200a}') || c == '\u{2028}' || c == '\u{2029}'
        || c == '\u{202f}' || c == '\u{205f}' || c == '\u{3000}'
}

/// `s` without leading and trailing whitespace.
pub fn trim_chars(s: &[char]) -> (r: Vec<char>)
    ensures
        r@ == trim(s@),
{
    let n = s.len();
    let mut a: usize = 0;
    assert(s@.skip(0) == s@);
    while a < n && is_whitespace(s[a])
        invariant
            a <= n == s@.len(),
            trim_start(s@) == trim_start(s@.skip(a as int)),
        decreases n - a,
    {
        assert(s@.skip(a as int).drop_first() == s@.skip(a + 1));
        a = a + 1;
    }
    let ghost t = s@.skip(a as int);
    assert(trim_start(s@) == t);
    let mut b: usize = n;
    while b > a && is_whitespace(s[b - 1])
        invariant
            a <= b <= n == s@.len(),
            t == s@.skip(a as int),
            trim_end(t) == trim_end(s@.subrange(a as int, b as int)),
        decreases b - a,
    {
        assert(s@.subrange(a as int, b as int).drop_last() == s@.subrange(a as int, b - 1));
        b = b - 1;
    }
    assert(s@.subrange(a as int, n as int) == t);
    slice_chars(s, a, b)
}

/// `s` without leading and trailing `"`.
pub fn strip_quote_chars(s: &[char]) -> (r: Vec<char>)
    ensures
        r@ == strip_quotes(s@),
{
    let n = s.len();
    let mut a: usize = 0;
    assert(s@.skip(0) == s@);
    while a < n && s[a] == '"'
        invariant
            a <= n == s@.len(),
            strip_quotes_start(s@) == strip_quotes_start(s@.skip(a as int)),
        decreases n - a,
    {
        assert(s@.skip(a as int).drop_first() == s@.skip(a + 1));
        a = a + 1;
    }
    let ghost t = s@.skip(a as int);
    assert(strip_quotes_start(s@) == t);
    let mut b: usize = n;
    while b > a && s[b - 1] == '"'
        invariant
            a <= b <= n == s@.len(),
            t == s@.skip(a as int),
            strip_quotes_end(t) == strip_quotes_end(s@.subrange(a as int, b as int)),
        decreases b - a,
    {
        assert(s@.subrange(a as int, b as int).drop_last() == s@.subrange(a as int, b - 1));
        b = b - 1;
    }
    assert(s@.subrange(a as int, n as int) == t);
    slice_chars(s, a, b)
}

/// Index of the first `c` in `s`.
pub fn find_char_in(s: &[char], c: char) -> (r: Option<usize>)
    ensures
        r matches Some(i) ==> find_char(s@, c) == Some(i as int),
        r is None ==> find_char(s@, c) is None,
{
    let mut i: usize = 0;
    while i < s.len()
        invariant
            i <= s@.len(),
            forall|j: int| 0 <= j < i ==> s@[j] != c,
        decreases s@.len() - i,
    {
        if s[i] == c {
            proof {
                lemma_find_char_at(s@, c, i as int);
            }
            return Some(i);
        }
        i = i + 1;
    }
    proof {
        lemma_find_char_none(s@, c);
    }
    None
}

/// Index of the last `c` in `s`.
pub fn rfind_char_in(s: &[char], c: char) -> (r: Option<usize>)
    ensures
        r matches Some(i) ==> rfind_char(s@, c) == Some(i as int),
        r is None ==> rfind_char(s@, c) is None,
{
    let mut i: usize = s.len();
    assert(s@.take(s@.len() as int) == s@);
    while i > 0
        invariant
            i <= s@.len(),
            rfind_char(s@, c) == rfind_char(s@.take(i as int), c),
        decreases i,
    {
        if s[i - 1] == c {
            return Some(i - 1);
        }
        assert(s@.take(i as int).drop_last() == s@.take(i - 1));
        i = i - 1;
    }
    None
}

/// Whether `c` occurs in `s`.
pub fn contains_char(s: &[char], c: char) -> (b: bool)
    ensures
        b == s@.contains(c),
{
    let r = find_char_in(s, c);
    proof {
        lemma_find_char(s@, c);
    }
    r.is_some()
}

/// Whether `s` begins with `p`.
pub fn starts_with_chars(s: &[char], p: &[char]) -> (b: bool)
    ensures
        b == starts_with(s@, p@),
{
    if p.len() > s.len() {
        return false;
    }
    let mut i: usize = 0;
    while i < p.len()
        invariant
            i <= p@.len() <= s@.len(),
            s@.take(i as int) == p@.take(i as int),
        decreases p@.len() - i,
    {
        if s[i] != p[i] {
            assert(s@.take(p@.len() as int)[i as int] != p@[i as int]);
            return false;
        }
        assert(s@.take(i + 1) == s@.take(i as int).push(s@[i as int]));
        assert(p@.take(i + 1) == p@.take(i as int).push(p@[i as int]));
        i = i + 1;
    }
    assert(p@.take(p@.len() as int) == p@);
    true
}

/// Whether `p` occurs in `s` at index `i`.
pub fn occurs_at_in(s: &[char], p: &[char], i: usize) -> (b: bool)
    ensures
        b == occurs_at(s@, p@, i as int),
{
    let n = s.len();
    if i > n || p.len() > n - i {
        return false;
    }
    let mut k: usize = 0;
    while k < p.len()
        invariant
            k <= p@.len(),
            n == s@.len(),
            i + p@.len() <= s@.len(),
            forall|m: int| 0 <= m < k ==> s@[i + m] == p@[m],
        decreases p@.len() - k,
    {
        assert(i + k < s@.len());
        if s[i + k] != p[k] {
            assert(s@.subrange(i as int, i + p@.len())[k as int] != p@[k as int]);
            return false;
        }
        k = k + 1;
    }
    assert(s@.subrange(i as int, i + p@.len()) == p@);
    true
}

/// Index, counted from the start of `s`, of the first occurrence of `p` in `s[from..]`.
pub fn find_seq_from(s: &[char], from: usize, p: &[char]) -> (r: Option<usize>)
    requires
        from <= s@.len(),
    ensures
        r matches Some(i) ==> from <= i && find_seq(s@.skip(from as int), p@) == Some(i - from),
        r is None ==> find_seq(s@.skip(from as int), p@) is None,
{
    let ghost t = s@.skip(from as int);
    if p.len() > s.len() - from {
        proof {
            lemma_find_seq_none(t, p@);
        }
        return None;
    }
    let last = s.len() - p.len();
    let mut i: usize = from;
    while i < last
        invariant
            from <= i <= last,
            last + p@.len() == s@.len(),
            t == s@.skip(from as int),
            forall|j: int| 0 <= j < i - from ==> !occurs_at(t, p@, j),
        decreases last - i,
    {
        let found = occurs_at_in(s, p, i);
        assert(occurs_at(s@, p@, i as int) == occurs_at(t, p@, i - from)) by {
            assert(s@.subrange(i as int, i + p@.len()) == t.subrange(i - from, i - from + p@.len()));
        }
        if found {
            proof {
                lemma_find_seq_at(t, p@, i - from);
            }
            return Some(i);
        }
        i = i + 1;
    }
    let found = occurs_at_in(s, p, last);
    assert(occurs_at(s@, p@, last as int) == occurs_at(t, p@, last - from)) by {
        assert(s@.subrange(last as int, last + p@.len()) == t.subrange(last - from, last - from + p@.len()));
    }
    if found {
        proof {
            lemma_find_seq_at(t, p@, last - from);
        }
        return Some(last);
    }
    proof {
        assert forall|j: int| !occurs_at(t, p@, j) by {
            if 0 <= j && j + p@.len() <= t.len() {
                assert(j <= last - from);
            }
        }
        lemma_find_seq_none(t, p@);
    }
    None
}

/// The views of a sequence of character vectors.
pub open spec fn views(v: Seq<Vec<char>>) -> Seq<Seq<char>> {
    v.map_values(|x: Vec<char>| x@)
}

pub proof fn lemma_views_push(v: Seq<Vec<char>>, x: Vec<char>)
    ensures
        views(v.push(x)) == views(v).push(x@),
{
    assert(views(v.push(x)) =~= views(v).push(x@));
}

/// `s` without one trailing carriage return.
pub fn strip_cr_chars(s: Vec<char>) -> (r: Vec<char>)
    ensures
        r@ == strip_cr(s@),
{
    let mut s = s;
    let ghost orig = s@;
    let n = s.len();
    if n > 0 && s[n - 1] == '\r' {
        s.pop();
        assert(s@ == orig.drop_last());
    }
    s
}

/// The lines of `s`, as `str::lines` splits them.
pub fn split_lines(s: &[char]) -> (r: Vec<Vec<char>>)
    ensures
        views(r@) == lines(s@),
{
    let n = s.len();
    let mut r: Vec<Vec<char>> = Vec::new();
    let mut st: usize = 0;
    let mut i: usize = 0;
    assert(s@.skip(0) == s@);
    assert(views(r@) =~= Seq::<Seq<char>>::empty());
    while i < n
        invariant
            st <= i <= n == s@.len(),
            views(r@) + lines(s@.skip(st as int)) == lines(s@),
            forall|j: int| st <= j < i ==> s@[j] != '\n',
        decreases n - i,
    {
        if s[i] == '\n' {
            let ghost t = s@.skip(st as int);
            proof {
                assert forall|j: int| 0 <= j < i - st implies t[j] != '\n' by {
                    assert(t[j] == s@[st + j]);
                }
                lemma_find_char_at(t, '\n', i - st);
                assert(t.take(i - st) == s@.subrange(st as int, i as int));
                assert(t.skip(i - st + 1) == s@.skip(i + 1));
            }
            let piece = slice_chars(s, st, i);
            let line = strip_cr_chars(piece);
            proof {
                lemma_views_push(r@, line);
                assert(lines(t) == seq![line@] + lines(s@.skip(i + 1)));
                assert(views(r@.push(line)) + lines(s@.skip(i + 1)) =~= views(r@) + lines(t));
            }
            r.push(line);
            st = i + 1;
        }
        i = i + 1;
    }
    if st < n {
        let ghost t = s@.skip(st as int);
        proof {
            assert forall|j: int| 0 <= j < t.len() implies t[j] != '\n' by {
                assert(t[j] == s@[st + j]);
            }
            lemma_find_char_none(t, '\n');
            assert(t == s@.subrange(st as int, n as int));
        }
        let piece = slice_chars(s, st, n);
        let line = strip_cr_chars(piece);
        proof {
            lemma_views_push(r@, line);
            assert(lines(t) == seq![line@]);
            assert(views(r@.push(line)) =~= views(r@) + lines(t));
        }
        r.push(line);
    } else {
        assert(s@.skip(st as int) =~= Seq::<char>::empty());
        assert(views(r@) + lines(s@.skip(st as int)) =~= views(r@));
    }
    r
}

/// `s` with every `\r\n` replaced by `\n`.
pub fn replace_crlf_chars(s: &[char]) -> (r: Vec<char>)
    ensures
        r@ == replace_crlf(s@),
{
    let n = s.len();
    let mut out: Vec<char> = Vec::new();
    let mut i: usize = 0;
    assert(s@.skip(0) == s@);
    while i < n
        invariant
            i <= n == s@.len(),
            out@ + replace_crlf(s@.skip(i as int)) == replace_crlf(s@),
        decreases n - i,
    {
        let ghost t = s@.skip(i as int);
        if i + 1 < n && s[i] == '\r' && s[i + 1] == '\n' {
            assert(t.skip(2) == s@.skip(i + 2));
            assert(replace_crlf(t) == seq!['\n'] + replace_crlf(s@.skip(i + 2)));
            let ghost before = out@;
            out.push('\n');
            assert(out@ + replace_crlf(s@.skip(i + 2)) =~= before + replace_crlf(t));
            i = i + 2;
        } else {
            assert(t.skip(1) == s@.skip(i + 1));
            assert(replace_crlf(t) == seq![s@[i as int]] + replace_crlf(s@.skip(i + 1)));
            let ghost before = out@;
            out.push(s[i]);
            assert(out@ + replace_crlf(s@.skip(i + 1)) =~= before + replace_crlf(t));
            i = i + 1;
        }
    }
    assert(s@.skip(n as int) =~= Seq::<char>::empty());
    assert(out@ + replace_crlf(s@.skip(n as int)) =~= out@);
    out
}

/// The whitespace-separated words of `s`.
pub fn split_whitespace_chars(s: &[char]) -> (r: Vec<Vec<char>>)
    ensures
        views(r@) == split_whitespace(s@),
{
    let n = s.len();
    let mut out: Vec<Vec<char>> = Vec::new();
    let mut cur: Vec<char> = Vec::new();
    let mut i: usize = 0;
    assert(s@.skip(0) == s@);
    assert(views(out@) =~= Seq::<Seq<char>>::empty());
    assert(cur@ =~= Seq::<char>::empty());
    while i < n
        invariant
            i <= n == s@.len(),
            views(out@) + split_ws_from(s@.skip(i as int), cur@) == split_whitespace(s@),
        decreases n - i,
    {
        let ghost t = s@.skip(i as int);
        assert(t.drop_first() == s@.skip(i + 1));
        if is_whitespace(s[i]) {
            if cur.len() > 0 {
                proof {
                    lemma_views_push(out@, cur);
                }
                let ghost old_out = out@;
                let ghost old_cur = cur@;
                out.push(cur);
                cur = Vec::new();
                assert(views(out@) + split_ws_from(s@.skip(i + 1), cur@) =~= views(old_out)
                    + split_ws_from(t, old_cur)) by {
                    assert(cur@ =~= Seq::<char>::empty());
                }
            } else {
                assert(views(out@) + split_ws_from(s@.skip(i + 1), cur@) =~= views(out@)
                    + split_ws_from(t, cur@)) by {
                    assert(cur@ =~= Seq::<char>::empty());
                }
            }
        } else {
            let ghost old_cur = cur@;
            cur.push(s[i]);
            assert(split_ws_from(t, old_cur) == split_ws_from(s@.skip(i + 1), cur@));
        }
        i = i + 1;
    }
    assert(s@.skip(n as int) =~= Seq::<char>::empty());
    if cur.len() > 0 {
        proof {
            lemma_views_push(out@, cur);
        }
        let ghost old_out = out@;
        let ghost old_cur = cur@;
        out.push(cur);
        assert(views(out@) =~= views(old_out) + split_ws_from(s@.skip(n as int), old_cur));
    } else {
        assert(views(out@) =~= views(out@) + split_ws_from(s@.skip(n as int), cur@));
    }
    out
}

pub proof fn lemma_digits_value_nonneg(s: Seq<char>)
    requires
        all_digits(s),
    ensures
        digits_value(s) >= 0,
    decreases s.len(),
{
    if s.len() > 0 {
        assert(is_digit(s[s.len() - 1]));
        lemma_digits_value_nonneg(s.drop_last());
    }
}

/// A prefix of a digit string is worth no more than the whole.
pub proof fn lemma_digits_value_prefix(s: Seq<char>, k: int)
    requires
        all_digits(s),
        0 <= k <= s.len(),
    ensures
        digits_value(s.take(k)) <= digits_value(s),
    decreases s.len(),
{
    if k < s.len() {
        assert(is_digit(s[s.len() - 1]));
        lemma_digits_value_prefix(s.drop_last(), k);
        assert(s.drop_last().take(k) == s.take(k));
        lemma_digits_value_nonneg(s.drop_last());
    } else {
        assert(s.take(k) == s);
    }
}

/// `str::parse::<i32>`.
pub fn parse_i32_chars(s: &[char]) -> (r: Option<i32>)
    ensures
        r == parse_i32(s@),
{
    let n = s.len();
    let neg = n > 0 && s[0] == '-';
    let start: usize = if n > 0 && (s[0] == '-' || s[0] == '+') {
        1
    } else {
        0
    };
    let ghost d = s@.skip(start as int);
    assert(split_sign(s@) == (neg, d)) by {
        if start == 1 {
            assert(s@.drop_first() == d);
        } else {
            assert(s@.skip(0) == s@);
        }
    }
    if start == n {
        return None;
    }
    let mut v: i64 = 0;
    let mut i: usize = start;
    while i < n
        invariant
            start <= i <= n == s@.len(),
            d == s@.skip(start as int),
            split_sign(s@) == (neg, d),
            d.len() > 0,
            all_digits(s@.subrange(start as int, i as int)),
            v == digits_value(s@.subrange(start as int, i as int)),
            0 <= v <= 2147483648,
        decreases n - i,
    {
        let c = s[i];
        if !('0' <= c && c <= '9') {
            assert(!is_digit(d[i - start]));
            assert(!all_digits(d));
            assert(parse_i32(s@) is None);
            return None;
        }
        let dv: i64 = (c as u32 - '0' as u32) as i64;
        let ghost pre = s@.subrange(start as int, i as int);
        assert(s@.subrange(start as int, i + 1) == pre.push(c));
        assert(s@.subrange(start as int, i + 1).drop_last() == pre);
        let nv = v * 10 + dv;
        assert(nv == digits_value(s@.subrange(start as int, i + 1)));
        if nv > 2147483648 {
            proof {
                if all_digits(d) {
                    assert(d.take(i + 1 - start) == s@.subrange(start as int, i + 1));
                    lemma_digits_value_prefix(d, i + 1 - start);
                    assert(digits_value(d) > 2147483648);
                }
                assert(parse_i32(s@) is None);
            }
            return None;
        }
        v = nv;
        i = i + 1;
    }
    assert(s@.subrange(start as int, n as int) == d);
    if neg {
        Some((-v) as i32)
    } else if v <= 2147483647 {
        Some(v as i32)
    } else {
        None
    }
}

/// The decimal digit character for `d`.
pub fn digit_to_char(d: u64) -> (c: char)
    requires
        d < 10,
    ensures
        c == digit_char(d as int),
{
    if d == 0 {
        '0'
    } else if d == 1 {
        '1'
    } else if d == 2 {
        '2'
    } else if d == 3 {
        '3'
    } else if d == 4 {
        '4'
    } else if d == 5 {
        '5'
    } else if d == 6 {
        '6'
    } else if d == 7 {
        '7'
    } else if d == 8 {
        '8'
    } else {
        '9'
    }
}

/// Appends the decimal digits of `n`.
pub fn push_nat_text(out: &mut Vec<char>, n: u128)
    ensures
        final(out)@ == old(out)@ + nat_text(n as nat),
    decreases n,
{
    if n >= 10 {
        push_nat_text(out, n / 10);
    }
    let ghost mid = out@;
    out.push(digit_to_char((n % 10) as u64));
    proof {
        if n >= 10 {
            assert(nat_text(n as nat) == nat_text((n / 10) as nat).push(digit_char((n % 10) as int)));
            assert(out@ =~= old(out)@ + nat_text(n as nat));
        } else {
            assert(out@ =~= old(out)@ + nat_text(n as nat));
        }
    }
}

/// Appends `v` written in decimal.
pub fn push_int_text(out: &mut Vec<char>, v: i64)
    ensures
        final(out)@ == old(out)@ + int_text(v as int),
{
    if v < 0 {
        out.push('-');
        let m: u64 = if v == i64::MIN {
            9223372036854775808u64
        } else {
            (-v) as u64
        };
        let ghost mid = out@;
        push_nat_text(out, m as u128);
        assert(out@ =~= old(out)@ + int_text(v as int));
    } else {
        push_nat_text(out, v as u128);
    }
}

/// Appends the characters of `s`.
pub fn push_str(out: &mut Vec<char>, s: &str)
    ensures
        final(out)@ == old(out)@ + s@,
{
    let cs = chars_of(s);
    push_all(out, &cs);
}

/// `p` occurs somewhere in `s` (`str::contains` with a `&str`).
pub open spec fn contains_text(s: Seq<char>, p: Seq<char>) -> bool {
    find_seq(s, p) is Some
}

/// Whether `p` occurs in `s`.
pub fn contains_str(s: &[char], p: &str) -> (b: bool)
    ensures
        b == contains_text(s@, p@),
{
    let pc = chars_of(p);
    let r = find_seq_from(s, 0, &pc);
    assert(s@.skip(0) == s@);
    r.is_some()
}

/// The total number of characters in a sequence of lines.
pub open spec fn sum_len(ls: Seq<Seq<char>>) -> int
    decreases ls.len(),
{
    if ls.len() == 0 {
        0
    } else {
        sum_len(ls.drop_last()) + ls.last().len()
    }
}

pub proof fn lemma_sum_len_concat(a: Seq<Seq<char>>, b: Seq<Seq<char>>)
    ensures
        sum_len(a + b) == sum_len(a) + sum_len(b),
    decreases b.len(),
{
    if b.len() > 0 {
        lemma_sum_len_concat(a, b.drop_last());
        assert((a + b).drop_last() == a + b.drop_last());
    } else {
        assert(a + b == a);
    }
}

pub proof fn lemma_sum_len_nonneg(ls: Seq<Seq<char>>)
    ensures
        sum_len(ls) >= 0,
    decreases ls.len(),
{
    if ls.len() > 0 {
        lemma_sum_len_nonneg(ls.drop_last());
    }
}

/// The lines of a prefix hold no more characters than the whole.
pub proof fn lemma_sum_len_take(ls: Seq<Seq<char>>, j: int)
    requires
        0 <= j <= ls.len(),
    ensures
        0 <= sum_len(ls.take(j)) <= sum_len(ls),
        j < ls.len() ==> sum_len(ls.take(j + 1)) == sum_len(ls.take(j)) + ls[j].len(),
{
    lemma_sum_len_concat(ls.take(j), ls.skip(j));
    assert(ls.take(j) + ls.skip(j) == ls);
    lemma_sum_len_nonneg(ls.take(j));
    lemma_sum_len_nonneg(ls.skip(j));
    if j < ls.len() {
        assert(ls.take(j + 1).drop_last() == ls.take(j));
    }
}

/// The lines of `s` hold no more characters than `s`.
pub proof fn lemma_lines_sum_len(s: Seq<char>)
    ensures
        sum_len(lines(s)) <= s.len(),
    decreases s.len(),
{
    if s.len() > 0 {
        lemma_find_char(s, '\n');
        match find_char(s, '\n') {
            None => {
                assert(lines(s) == seq![strip_cr(s)]);
                assert(sum_len(lines(s)) == sum_len(lines(s).drop_last()) + strip_cr(s).len());
                assert(lines(s).drop_last() =~= Seq::<Seq<char>>::empty());
            },
            Some(i) => {
                lemma_lines_sum_len(s.skip(i + 1));
                let first = seq![strip_cr(s.take(i))];
                lemma_sum_len_concat(first, lines(s.skip(i + 1)));
                assert(first.drop_last() =~= Seq::<Seq<char>>::empty());
                assert(sum_len(first) == sum_len(first.drop_last()) + first.last().len());
                assert(sum_len(first) == strip_cr(s.take(i)).len());
                assert(strip_cr(s.take(i)).len() <= i);
                assert(lines(s) == first + lines(s.skip(i + 1)));
            },
        }
    }
}

} // verus!
