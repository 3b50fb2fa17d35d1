//! Character-level helpers shared by the parser and the sanitizer.
//!
//! Text is handled as sequences of Unicode scalar values: a `String` is read
//! into a `Vec<char>` once, worked on, and written back.

use vstd::prelude::*;

verus! {

/// `String::push`: appends one character to the end of the string.
pub assume_specification[ String::push ](s: &mut String, ch: char)
    ensures
        final(s)@ == old(s)@.push(ch),
;

/// The characters of `s`, in order.
pub fn chars_of(s: &str) -> (out: Vec<char>)
    ensures
        out@ == s@,
{
    let mut out: Vec<char> = Vec::new();
    for c in it: s.chars()
        invariant
            out@ == it.seq().take(it.index() as int),
    {
        out.push(c);
    }
    out
}

/// The string made of the characters of `v`, in order.
pub fn string_of(v: &Vec<char>) -> (out: String)
    ensures
        out@ == v@,
{
    let mut out = String::new();
    let mut i: usize = 0;
    while i < v.len()
        invariant
            i <= v.len(),
            out@ == v@.take(i as int),
        decreases v.len() - i,
    {
        out.push(v[i]);
        i += 1;
    }
    out
}

/// The characters of `v` from index `from` up to, not including, `to`.
pub fn subrange(v: &Vec<char>, from: usize, to: usize) -> (out: Vec<char>)
    requires
        from <= to <= v.len(),
    ensures
        out@ == v@.subrange(from as int, to as int),
{
    let mut out: Vec<char> = Vec::new();
    let mut i: usize = from;
    while i < to
        invariant
            from <= i <= to <= v.len(),
            out@ == v@.subrange(from as int, i as int),
        decreases to - i,
    {
        out.push(v[i]);
        i += 1;
    }
    out
}

/// Whether two character sequences are equal.
pub fn same_chars(a: &Vec<char>, b: &Vec<char>) -> (eq: bool)
    ensures
        eq == (a@ == b@),
{
    if a.len() != b.len() {
        return false;
    }
    let mut i: usize = 0;
    while i < a.len()
        invariant
            i <= a.len(),
            a.len() == b.len(),
            a@.take(i as int) == b@.take(i as int),
        decreases a.len() - i,
    {
        if a[i] != b[i] {
            return false;
        }
        assert(a@.take(i + 1) == a@.take(i as int).push(a@[i as int]));
        assert(b@.take(i + 1) == b@.take(i as int).push(b@[i as int]));
        i += 1;
    }
    assert(a@ == a@.take(a.len() as int));
    assert(b@ == b@.take(b.len() as int));
    true
}

// ---------------------------------------------------------------------
// White space
// ---------------------------------------------------------------------

/// The code points with the Unicode property `White_Space`.
pub open spec fn is_space(c: char) -> bool {
    let n = c as u32;
    ||| 0x09 <= n <= 0x0D
    ||| n == 0x20
    ||| n == 0x85
    ||| n == 0xA0
    ||| n == 0x1680
    ||| 0x2000 <= n <= 0x200A
    ||| n == 0x2028
    ||| n == 0x2029
    ||| n == 0x202F
    ||| n == 0x205F
    ||| n == 0x3000
}

pub fn is_space_char(c: char) -> (b: bool)
    ensures
        b == is_space(c),
{
    let n: u32 = c as u32;
    (0x09 <= n && n <= 0x0D) || n == 0x20 || n == 0x85 || n == 0xA0 || n == 0x1680 || (0x2000 <= n
        && n <= 0x200A) || n == 0x2028 || n == 0x2029 || n == 0x202F || n == 0x205F || n == 0x3000
}

/// `s` without its leading white space.
pub open spec fn trim_start(s: Seq<char>) -> Seq<char>
    decreases s.len(),
{
    if s.len() > 0 && is_space(s[0]) {
        trim_start(s.drop_first())
    } else {
        s
    }
}

/// `s` without its trailing white space.
pub open spec fn trim_end(s: Seq<char>) -> Seq<char>
    decreases s.len(),
{
    if s.len() > 0 && is_space(s.last()) {
        trim_end(s.drop_last())
    } else {
        s
    }
}

/// `s` without leading and trailing white space.
pub open spec fn trimmed(s: Seq<char>) -> Seq<char> {
    trim_end(trim_start(s))
}

/// Whether every character of `s` is white space.
pub open spec fn is_blank(s: Seq<char>) -> bool {
    forall|i: int| 0 <= i < s.len() ==> is_space(#[trigger] s[i])
}

/// A sequence trims to nothing exactly when it is blank, and what is left
/// after trimming neither starts nor ends with white space.
pub proof fn lemma_trimmed(s: Seq<char>)
    ensures
        trimmed(s).len() == 0 <==> is_blank(s),
        trimmed(s).len() <= s.len(),
        trimmed(s).len() > 0 ==> !is_space(trimmed(s)[0]) && !is_space(trimmed(s).last()),
        trimmed(trimmed(s)) == trimmed(s),
{
    lemma_trim_start(s);
    lemma_trim_end(trim_start(s));
    let t = trim_start(s);
    let u = trim_end(t);
    let a = s.len() - t.len();
    if u.len() == 0 {
        assert forall|i: int| 0 <= i < s.len() implies is_space(#[trigger] s[i]) by {
            if i >= a {
                assert(t[i - a] == s[i]);
            }
        }
    }
    if is_blank(s) {
        if t.len() > 0 {
            assert(t[0] == s[a]);
        }
    }
    if u.len() > 0 {
        assert(u[0] == t[0]);
        assert(trim_start(u) == u);
        assert(trim_end(u) == u);
    } else {
        assert(trim_start(u) == u);
        assert(trim_end(u) == u);
    }
}

proof fn lemma_trim_start(s: Seq<char>)
    ensures
        trim_start(s).len() <= s.len(),
        trim_start(s) == s.skip(s.len() - trim_start(s).len()),
        forall|i: int| 0 <= i < s.len() - trim_start(s).len() ==> is_space(#[trigger] s[i]),
        trim_start(s).len() > 0 ==> !is_space(trim_start(s)[0]),
    decreases s.len(),
{
    if s.len() > 0 && is_space(s[0]) {
        let r = s.drop_first();
        lemma_trim_start(r);
        let k = r.len() - trim_start(r).len();
        assert(r.skip(k) == s.skip(k + 1));
        assert forall|i: int| 0 <= i < s.len() - trim_start(s).len() implies is_space(
            #[trigger] s[i],
        ) by {
            if i > 0 {
                assert(s[i] == r[i - 1]);
            }
        }
    } else {
        assert(s.skip(0) == s);
    }
}

proof fn lemma_trim_end(s: Seq<char>)
    ensures
        trim_end(s).len() <= s.len(),
        trim_end(s) == s.take(trim_end(s).len() as int),
        forall|i: int| trim_end(s).len() <= i < s.len() ==> is_space(#[trigger] s[i]),
        trim_end(s).len() > 0 ==> !is_space(trim_end(s).last()),
    decreases s.len(),
{
    if s.len() > 0 && is_space(s.last()) {
        let r = s.drop_last();
        lemma_trim_end(r);
        let k = trim_end(r).len() as int;
        assert(r.take(k) == s.take(k));
        assert forall|i: int| trim_end(s).len() <= i < s.len() implies is_space(
            #[trigger] s[i],
        ) by {
            if i < s.len() - 1 {
                assert(s[i] == r[i]);
            }
        }
    } else {
        assert(s.take(s.len() as int) == s);
    }
}

/// Removes leading and trailing white space.
pub fn trim(v: &Vec<char>) -> (out: Vec<char>)
    ensures
        out@ == trimmed(v@),
{
    let n = v.len();
    let mut a: usize = 0;
    assert(v@.skip(0) == v@);
    while a < n && is_space_char(v[a])
        invariant
            a <= n == v.len(),
            trim_start(v@) == trim_start(v@.skip(a as int)),
        decreases n - a,
    {
        assert(v@.skip(a as int).drop_first() == v@.skip(a + 1));
        assert(v@.skip(a as int)[0] == v@[a as int]);
        a += 1;
    }
    proof {
        if a < n {
            assert(v@.skip(a as int)[0] == v@[a as int]);
        }
        assert(trim_start(v@) == v@.skip(a as int));
    }
    let ghost t = v@.skip(a as int);
    let mut b: usize = n;
    assert(t.take(n - a) == t);
    while b > a && is_space_char(v[b - 1])
        invariant
            a <= b <= n == v.len(),
            t == v@.skip(a as int),
            trim_end(t) == trim_end(t.take(b - a)),
        decreases b,
    {
        assert(t.take(b - a).last() == v@[b - 1]);
        assert(t.take(b - a).drop_last() == t.take(b - a - 1));
        b -= 1;
    }
    proof {
        assert(t.take(t.len() as int) == t);
        if b > a {
            assert(t.take(b - a).last() == v@[b - 1]);
        }
        assert(trim_end(t) == t.take(b - a));
        assert(t.take(b - a) == v@.subrange(a as int, b as int));
    }
    subrange(v, a, b)
}

// ---------------------------------------------------------------------
// Decimal numbers
// ---------------------------------------------------------------------

/// An ASCII decimal digit.
pub open spec fn is_digit(c: char) -> bool {
    0x30 <= c as u32 <= 0x39
}

/// The number that the digit `c` stands for.
pub open spec fn digit_value(c: char) -> nat {
    (c as u32 - 0x30) as nat
}

/// The digit that stands for `d`, for `d` below ten.
pub open spec fn digit_char(d: nat) -> char {
    (0x30 + d) as u8 as char
}

pub open spec fn all_digits(s: Seq<char>) -> bool {
    forall|i: int| 0 <= i < s.len() ==> is_digit(#[trigger] s[i])
}

/// The number written by the decimal digits `s`, most significant first.
pub open spec fn decimal_value(s: Seq<char>) -> nat
    decreases s.len(),
{
    if s.len() == 0 {
        0
    } else {
        10 * decimal_value(s.drop_last()) + digit_value(s.last())
    }
}

/// The shortest decimal writing of `n`.
pub open spec fn decimal_text(n: nat) -> Seq<char>
    decreases n,
{
    if n < 10 {
        seq![digit_char(n)]
    } else {
        decimal_text(n / 10).push(digit_char(n % 10))
    }
}

/// What a run of digits parses to as a `u32`: nothing when the run is empty,
/// holds another character, or writes a number above `u32::MAX`.
pub open spec fn parse_u32_spec(s: Seq<char>) -> Option<u32> {
    if s.len() > 0 && all_digits(s) && decimal_value(s) <= u32::MAX {
        Some(decimal_value(s) as u32)
    } else {
        None
    }
}

pub fn is_digit_char(c: char) -> (b: bool)
    ensures
        b == is_digit(c),
{
    let n: u32 = c as u32;
    0x30 <= n && n <= 0x39
}

/// A longer run of digits never writes a smaller number than its prefix.
pub proof fn lemma_decimal_value_prefix(s: Seq<char>, k: int)
    requires
        0 <= k <= s.len(),
    ensures
        decimal_value(s.take(k)) <= decimal_value(s),
    decreases s.len() - k,
{
    if k == s.len() {
        assert(s.take(k) == s);
    } else {
        lemma_decimal_value_prefix(s.drop_last(), k);
        assert(s.drop_last().take(k) == s.take(k));
    }
}

/// Writing a number and reading it back gives the number.
pub proof fn lemma_decimal_round_trip(n: nat)
    ensures
        decimal_text(n).len() > 0,
        all_digits(decimal_text(n)),
        decimal_value(decimal_text(n)) == n,
    decreases n,
{
    if n < 10 {
        let s = seq![digit_char(n)];
        assert(s.drop_last() == Seq::<char>::empty());
        assert(s.last() == digit_char(n));
        assert(decimal_value(s.drop_last()) == 0);
    } else {
        lemma_decimal_round_trip(n / 10);
        let p = decimal_text(n / 10);
        let s = p.push(digit_char(n % 10));
        assert(s.drop_last() == p);
        assert(s.last() == digit_char(n % 10));
        assert forall|i: int| 0 <= i < s.len() implies is_digit(#[trigger] s[i]) by {
            if i < p.len() {
                assert(s[i] == p[i]);
            }
        }
    }
}

/// Different numbers are written differently.
pub proof fn lemma_decimal_text_injective(a: nat, b: nat)
    requires
        decimal_text(a) == decimal_text(b),
    ensures
        a == b,
{
    lemma_decimal_round_trip(a);
    lemma_decimal_round_trip(b);
}

/// Reads a run of decimal digits as a `u32`.
pub fn parse_u32(v: &Vec<char>) -> (out: Option<u32>)
    ensures
        out == parse_u32_spec(v@),
{
    let n = v.len();
    if n == 0 {
        return None;
    }
    let mut acc: u64 = 0;
    let mut i: usize = 0;
    while i < n
        invariant
            i <= n == v.len(),
            all_digits(v@.take(i as int)),
            acc == decimal_value(v@.take(i as int)),
            acc <= u32::MAX,
        decreases n - i,
    {
        let c = v[i];
        if !is_digit_char(c) {
            return None;
        }
        let d: u64 = (c as u32 - 0x30) as u64;
        let next: u64 = acc * 10 + d;
        proof {
            let p = v@.take(i + 1);
            assert(p.drop_last() == v@.take(i as int));
            assert(p.last() == c);
            assert(next == decimal_value(p));
            assert forall|j: int| 0 <= j < p.len() implies is_digit(#[trigger] p[j]) by {
                if j < i {
                    assert(p[j] == v@.take(i as int)[j]);
                }
            }
        }
        if next > u32::MAX as u64 {
            proof {
                lemma_decimal_value_prefix(v@, i + 1);
            }
            return None;
        }
        acc = next;
        i += 1;
    }
    assert(v@.take(n as int) == v@);
    Some(acc as u32)
}

/// Writes `n` in decimal.
pub fn decimal_chars(n: u128) -> (out: Vec<char>)
    ensures
        out@ == decimal_text(n as nat),
{
    let mut rev: Vec<char> = Vec::new();
    let mut rest: u128 = n;
    // digits are produced least significant first
    while rest >= 10
        invariant
            decimal_text(n as nat) == decimal_text(rest as nat) + rev@.reverse(),
        decreases rest,
    {
        let d: u8 = (rest % 10) as u8;
        let c: char = (0x30u8 + d) as char;
        proof {
            let r = rev@;
            assert(c == digit_char((rest % 10) as nat));
            assert(decimal_text(rest as nat) == decimal_text((rest / 10) as nat).push(c));
            assert(r.push(c).reverse() == seq![c] + r.reverse()) by {
                assert(r.push(c).reverse() =~= seq![c] + r.reverse());
            }
            assert(decimal_text((rest / 10) as nat).push(c) + r.reverse() == decimal_text(
                (rest / 10) as nat,
            ) + (seq![c] + r.reverse()));
        }
        rev.push(c);
        rest = rest / 10;
    }
    let c: char = (0x30u8 + rest as u8) as char;
    proof {
        assert(c == digit_char(rest as nat));
        assert(decimal_text(rest as nat) == seq![c]);
        assert(rev@.push(c).reverse() =~= seq![c] + rev@.reverse());
    }
    rev.push(c);
    let mut out: Vec<char> = Vec::new();
    let mut i: usize = rev.len();
    while i > 0
        invariant
            i <= rev.len(),
            out@ == rev@.reverse().take(rev.len() - i),
        decreases i,
    {
        i -= 1;
        out.push(rev[i]);
        assert(out@ =~= rev@.reverse().take(rev.len() - i));
    }
    assert(rev@.reverse().take(rev.len() as int) == rev@.reverse());
    out
}

// ---------------------------------------------------------------------
// Splitting
// ---------------------------------------------------------------------

/// The index of the first `c` in `s`, or the length of `s` where there is none.
pub open spec fn index_of(s: Seq<char>, c: char) -> int
    decreases s.len(),
{
    if s.len() == 0 || s[0] == c {
        0
    } else {
        1 + index_of(s.drop_first(), c)
    }
}

/// The pieces of `s` between occurrences of `sep`; one piece more than there
/// are separators, so never empty.
pub open spec fn split(s: Seq<char>, sep: char) -> Seq<Seq<char>>
    decreases s.len(),
{
    let i = index_of(s, sep);
    if 0 <= i < s.len() {
        seq![s.take(i)] + split(s.skip(i + 1), sep)
    } else {
        seq![s]
    }
}

/// The index that `index_of` gives is that of the first occurrence.
pub proof fn lemma_index_of(s: Seq<char>, c: char)
    ensures
        0 <= index_of(s, c) <= s.len(),
        index_of(s, c) < s.len() ==> s[index_of(s, c)] == c,
        forall|i: int| 0 <= i < index_of(s, c) ==> #[trigger] s[i] != c,
    decreases s.len(),
{
    if s.len() == 0 || s[0] == c {
    } else {
        let r = s.drop_first();
        lemma_index_of(r, c);
        assert forall|i: int| 0 <= i < index_of(s, c) implies #[trigger] s[i] != c by {
            if i > 0 {
                assert(s[i] == r[i - 1]);
            }
        }
    }
}

/// The first index at or after `from` where `v` holds `c`, or the length.
pub fn find_char(v: &Vec<char>, from: usize, c: char) -> (at: usize)
    requires
        from <= v.len(),
    ensures
        from <= at <= v.len(),
        at == from + index_of(v@.skip(from as int), c),
{
    let mut at: usize = from;
    while at < v.len() && v[at] != c
        invariant
            from <= at <= v.len(),
            from + index_of(v@.skip(from as int), c) == at + index_of(v@.skip(at as int), c),
        decreases v.len() - at,
    {
        assert(v@.skip(at as int)[0] == v@[at as int]);
        assert(v@.skip(at as int).drop_first() == v@.skip(at + 1));
        at += 1;
    }
    proof {
        if at < v.len() {
            assert(v@.skip(at as int)[0] == v@[at as int]);
        }
    }
    at
}

/// The character sequences that a list of pieces holds.
pub open spec fn pieces(v: Seq<Vec<char>>) -> Seq<Seq<char>> {
    Seq::new(v.len(), |i: int| v[i]@)
}

/// Cuts `v` at every `sep`.
pub fn split_on(v: &Vec<char>, sep: char) -> (out: Vec<Vec<char>>)
    ensures
        out.len() > 0,
        pieces(out@) == split(v@, sep),
{
    let mut out: Vec<Vec<char>> = Vec::new();
    let mut start: usize = 0;
    let n = v.len();
    proof {
        assert(v@.skip(0) == v@);
        assert(pieces(out@) + split(v@, sep) == split(v@, sep));
    }
    loop
        invariant
            start <= n == v.len(),
            split(v@, sep) == pieces(out@) + split(
                v@.skip(start as int),
                sep,
            ),
        decreases n - start,
    {
        let at = find_char(v, start, sep);
        let piece = subrange(v, start, at);
        let ghost rest = v@.skip(start as int);
        let ghost before = pieces(out@);
        proof {
            assert(rest.take(at - start) == v@.subrange(start as int, at as int));
        }
        out.push(piece);
        proof {
            assert(pieces(out@) == before.push(piece@));
        }
        if at == n {
            proof {
                assert(rest.take(rest.len() as int) == rest);
                assert(split(rest, sep) == seq![rest]);
                assert(before + seq![rest] == before.push(rest));
            }
            return out;
        }
        proof {
            assert(rest.skip(at - start + 1) == v@.skip(at + 1));
            assert(split(rest, sep) == seq![piece@] + split(v@.skip(at + 1), sep));
            assert(before + (seq![piece@] + split(v@.skip(at + 1), sep)) == before.push(piece@)
                + split(v@.skip(at + 1), sep));
        }
        start = at + 1;
    }
}

// ---------------------------------------------------------------------
// Lists of strings
// ---------------------------------------------------------------------

/// The character sequences that a list of strings holds.
pub open spec fn texts(v: Seq<String>) -> Seq<Seq<char>> {
    Seq::new(v.len(), |i: int| v[i]@)
}

/// The character sequence of an optional string.
pub open spec fn opt_text(o: Option<String>) -> Option<Seq<char>> {
    match o {
        Some(s) => Some(s@),
        None => None,
    }
}

/// Whether `v` holds a string equal to `x`.
pub fn contains_text(v: &Vec<String>, x: &String) -> (found: bool)
    ensures
        found == texts(v@).contains(x@),
{
    index_of_text(v, 0, x).is_some()
}

/// The first index at or after `from` at which `v` holds `x`.
pub fn index_of_text(v: &Vec<String>, from: usize, x: &String) -> (at: Option<usize>)
    requires
        from <= v.len(),
    ensures
        match at {
            Some(i) => from <= i < v.len() && v@[i as int]@ == x@ && forall|j: int|
                from <= j < i ==> texts(v@)[j] != x@,
            None => forall|j: int| from <= j < v.len() ==> texts(v@)[j] != x@,
        },
        at is Some <==> texts(v@).skip(from as int).contains(x@),
{
    let mut i: usize = from;
    while i < v.len()
        invariant
            from <= i <= v.len(),
            forall|j: int| from <= j < i ==> texts(v@)[j] != x@,
        decreases v.len() - i,
    {
        if v[i] == *x {
            assert(texts(v@).skip(from as int)[i - from] == x@);
            return Some(i);
        }
        i += 1;
    }
    proof {
        let tail = texts(v@).skip(from as int);
        if tail.contains(x@) {
            let k = choose|k: int| 0 <= k < tail.len() && tail[k] == x@;
            assert(texts(v@)[from + k] == x@);
        }
    }
    None
}

/// A copy of a list of strings.
pub fn clone_texts(v: &Vec<String>) -> (out: Vec<String>)
    ensures
        texts(out@) == texts(v@),
{
    let mut out: Vec<String> = Vec::new();
    let mut i: usize = 0;
    while i < v.len()
        invariant
            i <= v.len(),
            out.len() == i,
            forall|j: int| 0 <= j < i ==> out@[j]@ == v@[j]@,
        decreases v.len() - i,
    {
        out.push(v[i].clone());
        i += 1;
    }
    assert(texts(out@) == texts(v@));
    out
}

} // verus!
