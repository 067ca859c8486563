//! Character-level text handling: the models of the text operations that the rest of the
//! crate speaks of, and the functions that compute them.

use vstd::prelude::*;

verus! {

/// `String::push` appends the character to the end of the string.
pub assume_specification[ String::push ](s: &mut String, ch: char)
    ensures
        final(s)@ == old(s)@.push(ch),
;

/// The characters of a string.
pub fn chars_of(s: &str) -> (r: Vec<char>)
    ensures
        r@ == s@,
{
    let mut r: Vec<char> = Vec::new();
    for c in it: s.chars()
        invariant
            it.seq() == s@,
            r@ == s@.take(it.index()),
    {
        r.push(c);
        assert(r@ == s@.take(it.index() + 1));
    }
    assert(s@.take(s@.len() as int) == s@);
    r
}

/// The same text in a string of its own.
pub fn copy_of(s: &str) -> (r: String)
    ensures
        r@ == s@,
{
    s.to_owned()
}

/// Whether two texts are the same.
pub fn same(a: &str, b: &str) -> (r: bool)
    ensures
        r == (a@ == b@),
{
    let x = chars_of(a);
    let y = chars_of(b);
    if x.len() != y.len() {
        return false;
    }
    for i in 0..x.len()
        invariant
            x@ == a@,
            y@ == b@,
            x@.len() == y@.len(),
            forall|j: int| 0 <= j < i ==> x@[j] == y@[j],
    {
        if x[i] != y[i] {
            return false;
        }
    }
    assert(a@ == b@);
    true
}

// ---------------------------------------------------------------------------------------------
// Decimal numbers

/// The character of one decimal digit.
pub open spec fn digit(d: int) -> char {
    (48 + d) as char
}

/// A natural number in decimal, without leading zeros.
pub open spec fn decimal(n: nat) -> Seq<char>
    decreases n,
{
    if n < 10 {
        seq![digit(n as int)]
    } else {
        decimal(n / 10).push(digit((n % 10) as int))
    }
}

/// An integer in decimal, with a leading `-` if it is negative.
pub open spec fn signed_decimal(i: int) -> Seq<char> {
    if i < 0 {
        seq!['-'] + decimal((-i) as nat)
    } else {
        decimal(i as nat)
    }
}

/// The character of one decimal digit.
pub fn digit_char(d: u64) -> (c: char)
    requires
        d < 10,
    ensures
        c == digit(d as int),
{
    (48u8 + d as u8) as char
}

fn push_decimal(out: &mut String, n: u64)
    ensures
        final(out)@ == old(out)@ + decimal(n as nat),
    decreases n,
{
    if n >= 10 {
        push_decimal(out, n / 10);
    }
    out.push(digit_char(n % 10));
    proof {
        assert(out@ == old(out)@ + decimal(n as nat));
    }
}

/// A number in decimal.
pub fn unsigned_text(n: u64) -> (r: String)
    ensures
        r@ == decimal(n as nat),
{
    let mut r = String::new();
    push_decimal(&mut r, n);
    assert(r@ == decimal(n as nat));
    r
}

/// A signed number in decimal.
pub fn signed_text(i: i64) -> (r: String)
    ensures
        r@ == signed_decimal(i as int),
{
    let mut r = String::new();
    if i < 0 {
        r.push('-');
        let magnitude: u64 = (-(i + 1)) as u64 + 1;
        push_decimal(&mut r, magnitude);
        assert(r@ == signed_decimal(i as int));
    } else {
        push_decimal(&mut r, i as u64);
        assert(r@ == signed_decimal(i as int));
    }
    r
}

/// The number that a row of decimal digits stands for.
pub open spec fn digits_value(s: Seq<char>) -> nat
    decreases s.len(),
{
    if s.len() == 0 {
        0
    } else {
        digits_value(s.drop_last()) * 10 + (s.last() as int - 48) as nat
    }
}

/// Whether a character is an ASCII digit.
pub open spec fn is_digit(c: char) -> bool {
    '0' <= c && c <= '9'
}

/// The digits of an unsigned number: a single leading `+` does not count.
pub open spec fn unsigned_part(s: Seq<char>) -> Seq<char> {
    if s.len() > 0 && s[0] == '+' {
        s.skip(1)
    } else {
        s
    }
}

/// The 64-bit number that a text stands for: decimal digits, at least one, after an optional
/// `+`, whose value fits.
pub open spec fn unsigned_value(s: Seq<char>) -> Option<u64> {
    let digits = unsigned_part(s);
    if digits.len() > 0 && (forall|i: int| 0 <= i < digits.len() ==> is_digit(#[trigger] digits[i]))
        && digits_value(digits) <= u64::MAX {
        Some(digits_value(digits) as u64)
    } else {
        None
    }
}

proof fn lemma_digits_value_grows(s: Seq<char>, n: int)
    requires
        0 <= n <= s.len(),
    ensures
        digits_value(s.take(n)) <= digits_value(s),
    decreases s.len() - n,
{
    if n == s.len() {
        assert(s.take(n) == s);
    } else {
        lemma_digits_value_grows(s, n + 1);
        assert(s.take(n + 1).drop_last() == s.take(n));
    }
}

/// Reads an unsigned number.
pub fn parse_unsigned(s: &str) -> (r: Option<u64>)
    ensures
        r == unsigned_value(s@),
{
    let chars = chars_of(s);
    let start: usize = if chars.len() > 0 && chars[0] == '+' { 1 } else { 0 };
    let ghost digits = unsigned_part(s@);
    if chars.len() == start {
        return None;
    }
    let mut value: u64 = 0;
    let mut i: usize = start;
    while i < chars.len()
        invariant
            chars@ == s@,
            start <= i <= chars.len(),
            digits == unsigned_part(s@),
            digits == chars@.skip(start as int),
            forall|j: int| 0 <= j < i - start ==> is_digit(#[trigger] digits[j]),
            value == digits_value(digits.take(i - start)),
        decreases chars.len() - i,
    {
        let c = chars[i];
        assert(c == digits[i - start]);
        if c < '0' || c > '9' {
            return None;
        }
        let d: u64 = (c as u32 - 48) as u64;
        proof {
            assert(digits.take(i - start + 1).drop_last() == digits.take(i - start));
            assert(digits_value(digits.take(i - start + 1)) == value * 10 + d);
            lemma_digits_value_grows(digits, i - start + 1);
        }
        if value > (u64::MAX - d) / 10 {
            return None;
        }
        value = value * 10 + d;
        i += 1;
    }
    assert(digits.take(digits.len() as int) == digits);
    Some(value)
}

/// A number in decimal is a row of digits whose value is the number.
pub proof fn lemma_decimal_digits(n: nat)
    ensures
        decimal(n).len() > 0,
        forall|i: int| 0 <= i < decimal(n).len() ==> is_digit(#[trigger] decimal(n)[i]),
        digits_value(decimal(n)) == n,
    decreases n,
{
    if n < 10 {
        reveal_with_fuel(digits_value, 2);
        assert(decimal(n).drop_last() == Seq::<char>::empty());
    } else {
        lemma_decimal_digits(n / 10);
        assert(decimal(n).drop_last() == decimal(n / 10));
    }
}

/// A number written in decimal reads back as itself.
pub proof fn law_decimal_reads_back(n: u64)
    ensures
        unsigned_value(decimal(n as nat)) == Some(n),
{
    lemma_decimal_digits(n as nat);
    let s = decimal(n as nat);
    assert(is_digit(s[0]));
    assert(unsigned_part(s) == s);
}

// ---------------------------------------------------------------------------------------------
// Searching and splitting

/// How many characters stand before the first `c`: all of them if there is none.
pub open spec fn first_at(s: Seq<char>, c: char) -> nat
    decreases s.len(),
{
    if s.len() == 0 || s[0] == c {
        0
    } else {
        1 + first_at(s.skip(1), c)
    }
}

/// How many characters stand up to and with the last `c`: none if there is none.
pub open spec fn past_last(s: Seq<char>, c: char) -> nat
    decreases s.len(),
{
    if s.len() == 0 {
        0
    } else if s.last() == c {
        s.len()
    } else {
        past_last(s.drop_last(), c)
    }
}

/// Where the first `c` stands is told by what stands before it.
pub proof fn lemma_first_at(s: Seq<char>, c: char, k: nat)
    requires
        k <= s.len(),
        forall|i: int| 0 <= i < k ==> s[i] != c,
        k < s.len() ==> s[k as int] == c,
    ensures
        first_at(s, c) == k,
    decreases k,
{
    if k > 0 {
        assert(s[0] != c);
        lemma_first_at(s.skip(1), c, (k - 1) as nat);
    }
}

/// What `first_at` says of the characters around it.
pub proof fn lemma_first_at_is_first(s: Seq<char>, c: char)
    ensures
        first_at(s, c) <= s.len(),
        forall|i: int| 0 <= i < first_at(s, c) ==> s[i] != c,
        first_at(s, c) < s.len() ==> s[first_at(s, c) as int] == c,
    decreases s.len(),
{
    if s.len() > 0 && s[0] != c {
        let t = s.skip(1);
        lemma_first_at_is_first(t, c);
        assert forall|i: int| 0 <= i < first_at(s, c) implies s[i] != c by {
            if i > 0 {
                assert(t[i - 1] == s[i]);
            }
        }
    }
}

/// What `past_last` says of the characters around it.
pub proof fn lemma_past_last_is_last(s: Seq<char>, c: char)
    ensures
        past_last(s, c) <= s.len(),
        past_last(s, c) > 0 ==> s[past_last(s, c) - 1] == c,
        forall|i: int| past_last(s, c) <= i < s.len() ==> s[i] != c,
    decreases s.len(),
{
    if s.len() > 0 && s.last() != c {
        let t = s.drop_last();
        lemma_past_last_is_last(t, c);
        assert forall|i: int| past_last(s, c) <= i < s.len() implies s[i] != c by {
            if i < t.len() {
                assert(t[i] == s[i]);
            }
        }
    }
}

/// Where the last `c` stands is told by what stands after it.
pub proof fn lemma_past_last(s: Seq<char>, c: char, k: nat)
    requires
        k <= s.len(),
        k > 0 ==> s[k - 1] == c,
        forall|i: int| k <= i < s.len() ==> s[i] != c,
    ensures
        past_last(s, c) == k,
{
    lemma_past_last_is_last(s, c);
}

/// The text before and after the first `c`, if there is one.
pub open spec fn split_once(s: Seq<char>, c: char) -> Option<(Seq<char>, Seq<char>)> {
    let k = first_at(s, c) as int;
    if k < s.len() {
        Some((s.take(k), s.skip(k + 1)))
    } else {
        None
    }
}

/// The index of the first `c` at or after `from`, or the number of characters.
pub fn find_from(chars: &[char], from: usize, c: char) -> (r: usize)
    requires
        from <= chars@.len(),
    ensures
        r == from + first_at(chars@.skip(from as int), c),
        from <= r <= chars@.len(),
{
    let ghost rest = chars@.skip(from as int);
    let mut i: usize = from;
    while i < chars.len() && chars[i] != c
        invariant
            from <= i <= chars@.len(),
            rest == chars@.skip(from as int),
            forall|j: int| 0 <= j < i - from ==> rest[j] != c,
        decreases chars@.len() - i,
    {
        assert(rest[i - from] == chars@[i as int]);
        i += 1;
    }
    proof {
        lemma_first_at(rest, c, (i - from) as nat);
    }
    i
}

/// The index after the last `c` among the first `to` characters, or 0.
pub fn find_past_last(chars: &[char], to: usize, c: char) -> (r: usize)
    requires
        to <= chars@.len(),
    ensures
        r == past_last(chars@.take(to as int), c),
        r <= to,
{
    let ghost head = chars@.take(to as int);
    let mut i: usize = to;
    while i > 0 && chars[i - 1] != c
        invariant
            i <= to <= chars@.len(),
            head == chars@.take(to as int),
            forall|j: int| i <= j < to ==> head[j] != c,
        decreases i,
    {
        assert(head[i - 1] == chars@[i - 1]);
        i -= 1;
    }
    proof {
        lemma_past_last(head, c, i as nat);
    }
    i
}

/// The characters from one index to another as a string.
pub fn slice_text(chars: &[char], from: usize, to: usize) -> (r: String)
    requires
        from <= to <= chars@.len(),
    ensures
        r@ == chars@.subrange(from as int, to as int),
{
    let mut r = String::new();
    for i in from..to
        invariant
            from <= to <= chars@.len(),
            r@ == chars@.subrange(from as int, i as int),
    {
        r.push(chars[i]);
        assert(r@ == chars@.subrange(from as int, i + 1));
    }
    r
}

/// Splits a text at the first `c`.
pub fn split_text(s: &str, c: char) -> (r: Option<(String, String)>)
    ensures
        match r {
            Some((a, b)) => split_once(s@, c) == Some((a@, b@)),
            None => split_once(s@, c) is None,
        },
{
    let chars = chars_of(s);
    assert(chars@.skip(0) == s@);
    let k = find_from(&chars, 0, c);
    if k < chars.len() {
        let a = slice_text(&chars, 0, k);
        let b = slice_text(&chars, k + 1, chars.len());
        assert(a@ == s@.take(k as int));
        assert(b@ == s@.skip(k + 1));
        Some((a, b))
    } else {
        None
    }
}

/// Whether a text starts with another.
pub open spec fn has_prefix(s: Seq<char>, p: Seq<char>) -> bool {
    p.len() <= s.len() && s.take(p.len() as int) == p
}

/// Whether a text ends with another.
pub open spec fn has_suffix(s: Seq<char>, p: Seq<char>) -> bool {
    p.len() <= s.len() && s.skip(s.len() - p.len()) == p
}

/// The text after a prefix, if the text has that prefix.
pub fn strip_prefix(s: &str, p: &str) -> (r: Option<String>)
    ensures
        match r {
            Some(rest) => has_prefix(s@, p@) && rest@ == s@.skip(p@.len() as int),
            None => !has_prefix(s@, p@),
        },
{
    let a = chars_of(s);
    let b = chars_of(p);
    if b.len() > a.len() {
        return None;
    }
    for i in 0..b.len()
        invariant
            a@ == s@,
            b@ == p@,
            b@.len() <= a@.len(),
            forall|j: int| 0 <= j < i ==> a@[j] == b@[j],
    {
        if a[i] != b[i] {
            assert(s@.take(p@.len() as int)[i as int] != p@[i as int]);
            return None;
        }
    }
    assert(s@.take(p@.len() as int) == p@);
    let rest = slice_text(&a, b.len(), a.len());
    assert(rest@ == s@.skip(p@.len() as int));
    Some(rest)
}

/// Tells whether a text ends with another.
pub fn ends_with(s: &str, p: &str) -> (r: bool)
    ensures
        r == has_suffix(s@, p@),
{
    let a = chars_of(s);
    let b = chars_of(p);
    if b.len() > a.len() {
        return false;
    }
    let total: usize = a.len();
    let from: usize = total - b.len();
    for i in 0..b.len()
        invariant
            a@ == s@,
            b@ == p@,
            total == a@.len(),
            from == total - b@.len(),
            forall|j: int| 0 <= j < i ==> a@[from + j] == b@[j],
    {
        if a[from + i] != b[i] {
            assert(s@.skip(from as int)[i as int] != p@[i as int]);
            return false;
        }
    }
    assert(s@.skip(from as int) == p@);
    true
}

// ---------------------------------------------------------------------------------------------
// Lines and white space

/// A line without the carriage return that ends it, if one does.
pub open spec fn without_return(s: Seq<char>) -> Seq<char> {
    if s.len() > 0 && s.last() == '\r' {
        s.drop_last()
    } else {
        s
    }
}

/// The lines of a text: each ends at a newline, and a carriage return before that newline
/// belongs to the line ending. The newline after the last line may be missing.
pub open spec fn lines(s: Seq<char>) -> Seq<Seq<char>>
    decreases s.len(),
{
    let k = first_at(s, '\n') as int;
    if s.len() == 0 {
        seq![]
    } else if k >= s.len() {
        seq![s]
    } else {
        seq![without_return(s.take(k))] + lines(s.skip(k + 1))
    }
}

/// The texts that strings hold.
pub open spec fn texts(v: Seq<String>) -> Seq<Seq<char>> {
    Seq::new(v.len(), |i: int| v[i]@)
}

/// Splits a text into its lines.
pub fn split_lines(s: &str) -> (r: Vec<String>)
    ensures
        texts(r@) == lines(s@),
{
    let chars = chars_of(s);
    let mut r: Vec<String> = Vec::new();
    let mut start: usize = 0;
    assert(s@.skip(0) == s@);
    assert(texts(r@) + lines(s@) == lines(s@));
    while start < chars.len()
        invariant
            chars@ == s@,
            start <= chars@.len(),
            texts(r@) + lines(s@.skip(start as int)) == lines(s@),
        decreases chars@.len() - start,
    {
        let ghost rest = s@.skip(start as int);
        let ghost before = texts(r@);
        let end = find_from(&chars, start, '\n');
        if end >= chars.len() {
            let line = slice_text(&chars, start, end);
            assert(line@ == rest);
            r.push(line);
            assert(texts(r@) == before.push(rest));
            assert(before + seq![rest] == before.push(rest));
            start = end;
            assert(s@.skip(start as int) == Seq::<char>::empty());
            assert(texts(r@) + lines(s@.skip(start as int)) == texts(r@));
        } else {
            let mut stop: usize = end;
            if stop > start && chars[stop - 1] == '\r' {
                stop -= 1;
            }
            let line = slice_text(&chars, start, stop);
            proof {
                let k = (end - start) as int;
                assert(rest.take(k) == s@.subrange(start as int, end as int));
                assert(line@ == without_return(rest.take(k)));
                assert(rest.skip(k + 1) == s@.skip(end + 1));
            }
            r.push(line);
            assert(texts(r@) == before.push(line@));
            start = end + 1;
            assert(before + (seq![line@] + lines(s@.skip(start as int))) == before.push(line@) + lines(
                s@.skip(start as int),
            ));
        }
    }
    assert(s@.skip(start as int) == Seq::<char>::empty());
    assert(texts(r@) + lines(s@.skip(start as int)) == texts(r@));
    r
}

/// The characters that have the Unicode property `White_Space`.
pub open spec fn is_space(c: char) -> bool {
    let u = c as u32;
    ||| 0x09 <= u <= 0x0D
    ||| u == 0x20
    ||| u == 0x85
    ||| u == 0xA0
    ||| u == 0x1680
    ||| 0x2000 <= u <= 0x200A
    ||| u == 0x2028
    ||| u == 0x2029
    ||| u == 0x202F
    ||| u == 0x205F
    ||| u == 0x3000
}

/// Tells whether a character is white space.
pub fn is_white_space(c: char) -> (r: bool)
    ensures
        r == is_space(c),
{
    let u = c as u32;
    (0x09 <= u && u <= 0x0D) || u == 0x20 || u == 0x85 || u == 0xA0 || u == 0x1680 || (0x2000 <= u
        && u <= 0x200A) || u == 0x2028 || u == 0x2029 || u == 0x202F || u == 0x205F || u == 0x3000
}

/// A text without the white space at its start.
pub open spec fn trim_start(s: Seq<char>) -> Seq<char>
    decreases s.len(),
{
    if s.len() > 0 && is_space(s[0]) {
        trim_start(s.skip(1))
    } else {
        s
    }
}

/// A text without the white space at its end.
pub open spec fn trim_end(s: Seq<char>) -> Seq<char>
    decreases s.len(),
{
    if s.len() > 0 && is_space(s.last()) {
        trim_end(s.drop_last())
    } else {
        s
    }
}

/// What stands up to a character that is no white space is not trimmed from the end.
pub proof fn lemma_trim_end_keeps(s: Seq<char>, i: int)
    requires
        0 <= i < s.len(),
        !is_space(s[i]),
    ensures
        trim_end(s).len() > i,
    decreases s.len(),
{
    if is_space(s.last()) {
        lemma_trim_end_keeps(s.drop_last(), i);
    }
}

/// A text without the white space around it.
pub open spec fn trim(s: Seq<char>) -> Seq<char> {
    trim_end(trim_start(s))
}

/// Removes the white space around a text.
pub fn trimmed(s: &str) -> (r: String)
    ensures
        r@ == trim(s@),
{
    let chars = chars_of(s);
    let mut from: usize = 0;
    assert(s@.skip(0) == s@);
    while from < chars.len() && is_white_space(chars[from])
        invariant
            chars@ == s@,
            from <= chars@.len(),
            trim_start(s@.skip(from as int)) == trim_start(s@),
        decreases chars@.len() - from,
    {
        assert(s@.skip(from as int).skip(1) == s@.skip(from + 1));
        from += 1;
    }
    let mut to: usize = chars.len();
    assert(s@.subrange(from as int, to as int) == s@.skip(from as int));
    while to > from && is_white_space(chars[to - 1])
        invariant
            chars@ == s@,
            from <= to <= chars@.len(),
            trim_end(s@.subrange(from as int, to as int)) == trim(s@),
        decreases to,
    {
        assert(s@.subrange(from as int, to as int).drop_last() == s@.subrange(from as int, to - 1));
        to -= 1;
    }
    slice_text(&chars, from, to)
}

/// A text without the `c`s at its start.
pub open spec fn drop_leading(s: Seq<char>, c: char) -> Seq<char>
    decreases s.len(),
{
    if s.len() > 0 && s[0] == c {
        drop_leading(s.skip(1), c)
    } else {
        s
    }
}

/// Removes the `c`s at the start of a text.
pub fn without_leading(s: &str, c: char) -> (r: String)
    ensures
        r@ == drop_leading(s@, c),
{
    let chars = chars_of(s);
    let mut from: usize = 0;
    assert(s@.skip(0) == s@);
    while from < chars.len() && chars[from] == c
        invariant
            chars@ == s@,
            from <= chars@.len(),
            drop_leading(s@.skip(from as int), c) == drop_leading(s@, c),
        decreases chars@.len() - from,
    {
        assert(s@.skip(from as int).skip(1) == s@.skip(from + 1));
        from += 1;
    }
    let r = slice_text(&chars, from, chars.len());
    assert(r@ == s@.skip(from as int));
    r
}

// ---------------------------------------------------------------------------------------------
// Joining and padding

/// Texts one after the other, with `sep` between each two.
pub open spec fn join(parts: Seq<Seq<char>>, sep: Seq<char>) -> Seq<char>
    decreases parts.len(),
{
    if parts.len() == 0 {
        seq![]
    } else if parts.len() == 1 {
        parts[0]
    } else {
        join(parts.drop_last(), sep) + sep + parts.last()
    }
}

/// Joins texts.
pub fn join_texts(parts: &[String], sep: &str) -> (r: String)
    ensures
        r@ == join(texts(parts@), sep@),
{
    let mut r = String::new();
    let ghost all = texts(parts@);
    for i in 0..parts.len()
        invariant
            all == texts(parts@),
            r@ == join(all.take(i as int), sep@),
    {
        proof {
            assert(all.take(i + 1).drop_last() == all.take(i as int));
            assert(all.take(i + 1).last() == parts@[i as int]@);
        }
        if i > 0 {
            r.append(sep);
        }
        r.append(parts[i].as_str());
        assert(r@ == join(all.take(i + 1), sep@));
    }
    assert(all.take(all.len() as int) == all);
    r
}

/// `n` times the character `c`.
pub open spec fn repeated(c: char, n: nat) -> Seq<char> {
    Seq::new(n, |i: int| c)
}

/// A text padded with spaces on the right to at least `width` characters.
pub open spec fn pad_right(s: Seq<char>, width: nat) -> Seq<char> {
    if s.len() < width {
        s + repeated(' ', (width - s.len()) as nat)
    } else {
        s
    }
}

/// Appends `n` times a character.
pub fn push_repeated(out: &mut String, c: char, n: usize)
    ensures
        final(out)@ == old(out)@ + repeated(c, n as nat),
{
    for i in 0..n
        invariant
            out@ == old(out)@ + repeated(c, i as nat),
    {
        out.push(c);
        assert(out@ == old(out)@ + repeated(c, (i + 1) as nat));
    }
}

/// Appends a text, padded with spaces on the right.
pub fn push_padded(out: &mut String, s: &str, width: usize)
    ensures
        final(out)@ == old(out)@ + pad_right(s@, width as nat),
{
    let n = s.unicode_len();
    out.append(s);
    if n < width {
        push_repeated(out, ' ', width - n);
    }
    assert(out@ == old(out)@ + pad_right(s@, width as nat));
}

// ---------------------------------------------------------------------------------------------
// What the texts are

/// Whether a text is lines one after the other, each with a newline behind it.
pub open spec fn ends_lines(parts: Seq<Seq<char>>, s: Seq<char>) -> bool
    decreases parts.len(),
{
    if parts.len() == 0 {
        s.len() == 0
    } else {
        &&& s.len() > parts[0].len()
        &&& s.take(parts[0].len() as int) == parts[0]
        &&& s[parts[0].len() as int] == '\n'
        &&& ends_lines(parts.skip(1), s.skip(parts[0].len() as int + 1))
    }
}

/// Joining puts the separator between each two and nowhere else: one more text stands behind the
/// others after a separator.
pub proof fn law_join_separates(parts: Seq<Seq<char>>, part: Seq<char>, sep: Seq<char>)
    ensures
        join(Seq::empty(), sep) == Seq::<char>::empty(),
        parts.len() == 0 ==> join(parts.push(part), sep) == part,
        parts.len() > 0 ==> join(parts.push(part), sep) == join(parts, sep) + sep + part,
{
    assert(parts.push(part).drop_last() =~= parts);
}

/// Joining from the front: the first text, a separator, and the others joined.
proof fn lemma_join_first(parts: Seq<Seq<char>>, sep: Seq<char>)
    requires
        parts.len() > 1,
    ensures
        join(parts, sep) == parts[0] + sep + join(parts.skip(1), sep),
    decreases parts.len(),
{
    let head = parts.drop_last();
    let rest = parts.skip(1);
    if parts.len() == 2 {
        assert(join(head, sep) == parts[0]);
        assert(join(rest, sep) == parts[1]);
        assert(join(parts, sep) =~= parts[0] + sep + join(rest, sep));
    } else {
        lemma_join_first(head, sep);
        assert(rest.drop_last() =~= head.skip(1));
        assert(join(rest, sep) == join(head.skip(1), sep) + sep + parts.last());
        assert(join(parts, sep) =~= parts[0] + sep + join(rest, sep));
    }
}

/// Lines joined by newlines, with one behind the last, each end with a newline.
pub proof fn lemma_joined_lines(parts: Seq<Seq<char>>)
    requires
        parts.len() > 0,
    ensures
        ends_lines(parts, join(parts, seq!['\n']) + seq!['\n']),
    decreases parts.len(),
{
    let s = join(parts, seq!['\n']) + seq!['\n'];
    let n = parts[0].len() as int;
    if parts.len() == 1 {
        assert(s.take(n) =~= parts[0]);
        assert(parts.skip(1).len() == 0);
        assert(s.skip(n + 1).len() == 0);
        reveal_with_fuel(ends_lines, 2);
    } else {
        lemma_join_first(parts, seq!['\n']);
        lemma_joined_lines(parts.skip(1));
        assert(s.take(n) =~= parts[0]);
        assert(s.skip(n + 1) =~= join(parts.skip(1), seq!['\n']) + seq!['\n']);
    }
}

/// Splitting cuts at the first `c`: what comes before it holds none, and both parts around it make the
/// text. A text without `c` is not split.
pub proof fn law_split_is_at_the_first(s: Seq<char>, c: char, a: Seq<char>, b: Seq<char>)
    ensures
        split_once(s, c) == Some((a, b)) <==> s == a + seq![c] + b && !a.contains(c),
        split_once(s, c) is None <==> !s.contains(c),
{
    lemma_first_at_is_first(s, c);
    let k = first_at(s, c) as int;
    if k < s.len() {
        assert(s =~= s.take(k) + seq![c] + s.skip(k + 1));
        assert(s[k] == c);
        if s.take(k).contains(c) {
            let i = s.take(k).index_of(c);
            assert(s[i] == c);
        }
    } else if s.contains(c) {
        assert(s[s.index_of(c)] == c);
    }
    if s == a + seq![c] + b && !a.contains(c) {
        let n = a.len();
        assert forall|i: int| 0 <= i < n implies s[i] != c by {
            assert(s[i] == a[i]);
            assert(a.contains(a[i]));
        }
        assert(s[n as int] == c);
        lemma_first_at(s, c, n);
        assert(s.take(k) =~= a);
        assert(s.skip(k + 1) =~= b);
    }
}

/// A text starts with another exactly if something can be put behind that to make it, and ends with
/// it exactly if something can be put before it.
pub proof fn law_prefix_and_suffix(s: Seq<char>, p: Seq<char>, rest: Seq<char>)
    ensures
        has_prefix(p + rest, p),
        has_suffix(rest + p, p),
        has_prefix(s, p) ==> s == p + s.skip(p.len() as int),
        has_suffix(s, p) ==> s == s.take(s.len() - p.len()) + p,
{
    assert((p + rest).take(p.len() as int) =~= p);
    assert((rest + p).skip((rest + p).len() - p.len()) =~= p);
    if has_prefix(s, p) {
        assert(s =~= s.take(p.len() as int) + s.skip(p.len() as int));
    }
    if has_suffix(s, p) {
        assert(s =~= s.take(s.len() - p.len()) + s.skip(s.len() - p.len()));
    }
}

/// Lines end at newlines: the line before the first newline loses a carriage return at its end, and
/// what follows is lines of its own. A text without a newline is one line, as it is, unless it is
/// empty.
pub proof fn law_lines_end_at_newlines(line: Seq<char>, rest: Seq<char>)
    requires
        !line.contains('\n'),
    ensures
        lines(line + seq!['\n'] + rest) == seq![
            if line.len() > 0 && line.last() == '\r' {
                line.drop_last()
            } else {
                line
            },
        ] + lines(rest),
        line.len() > 0 ==> lines(line) == seq![line],
        lines(Seq::empty()) == Seq::<Seq<char>>::empty(),
{
    let s = line + seq!['\n'] + rest;
    let n = line.len();
    assert forall|i: int| 0 <= i < n implies s[i] != '\n' && line[i] != '\n' by {
        assert(s[i] == line[i]);
        assert(line.contains(line[i]));
    }
    lemma_first_at(s, '\n', n);
    lemma_first_at(line, '\n', n);
    assert(s.take(n as int) =~= line);
    assert(s.skip(n as int + 1) =~= rest);
}

/// Whether all characters of a text are white space.
pub open spec fn all_space(s: Seq<char>) -> bool {
    forall|i: int| 0 <= i < s.len() ==> is_space(#[trigger] s[i])
}

/// Trimming takes white space from both ends and nothing else, and leaves none there.
pub proof fn law_trim_takes_white_space(s: Seq<char>)
    ensures
        exists|k: int|
            0 <= k <= s.len() - trim(s).len() && all_space(#[trigger] s.take(k)) && all_space(
                s.skip(k + trim(s).len()),
            ) && s.subrange(k, k + trim(s).len()) == trim(s),
        trim(s).len() > 0 ==> !is_space(trim(s)[0]) && !is_space(trim(s).last()),
{
    let t = trim_start(s);
    lemma_trim_start(s);
    lemma_trim_end(t);
    let k = s.len() - t.len();
    assert(all_space(s.take(k)));
    assert(s.skip(k + trim(s).len()) =~= t.skip(trim(s).len() as int));
    assert(s.subrange(k, k + trim(s).len()) =~= t.take(trim(s).len() as int));
    if trim(s).len() > 0 {
        assert(trim(s)[0] == t[0]);
    }
}

proof fn lemma_trim_start(s: Seq<char>)
    ensures
        trim_start(s).len() <= s.len(),
        s.skip(s.len() - trim_start(s).len()) == trim_start(s),
        all_space(s.take(s.len() - trim_start(s).len())),
        trim_start(s).len() > 0 ==> !is_space(trim_start(s)[0]),
    decreases s.len(),
{
    let t = trim_start(s);
    if s.len() > 0 && is_space(s[0]) {
        let rest = s.skip(1);
        lemma_trim_start(rest);
        assert(s.skip(s.len() - t.len()) =~= rest.skip(rest.len() - t.len()));
        let a = s.take(s.len() - t.len());
        let b = rest.take(rest.len() - t.len());
        assert forall|i: int| 0 <= i < a.len() implies is_space(#[trigger] a[i]) by {
            if i > 0 {
                assert(is_space(b[i - 1]));
            }
        }
    } else {
        assert(s.skip(0) =~= s);
    }
}

proof fn lemma_trim_end(s: Seq<char>)
    ensures
        trim_end(s).len() <= s.len(),
        s.take(trim_end(s).len() as int) == trim_end(s),
        all_space(s.skip(trim_end(s).len() as int)),
        trim_end(s).len() > 0 ==> !is_space(trim_end(s).last()),
    decreases s.len(),
{
    let t = trim_end(s);
    if s.len() > 0 && is_space(s.last()) {
        let rest = s.drop_last();
        lemma_trim_end(rest);
        assert(s.take(t.len() as int) =~= rest.take(t.len() as int));
        let a = s.skip(t.len() as int);
        let b = rest.skip(t.len() as int);
        assert forall|i: int| 0 <= i < a.len() implies is_space(#[trigger] a[i]) by {
            if i < b.len() {
                assert(is_space(b[i]));
            }
        }
    } else {
        assert(s.take(s.len() as int) =~= s);
    }
}

/// Dropping a character from the start of a text drops only that character, and all of it that stands
/// there.
pub proof fn law_drop_leading_drops_only_that(s: Seq<char>, c: char)
    ensures
        drop_leading(s, c).len() <= s.len(),
        s.skip(s.len() - drop_leading(s, c).len()) == drop_leading(s, c),
        forall|i: int| 0 <= i < s.len() - drop_leading(s, c).len() ==> #[trigger] s[i] == c,
        drop_leading(s, c).len() > 0 ==> drop_leading(s, c)[0] != c,
    decreases s.len(),
{
    if s.len() > 0 && s[0] == c {
        let rest = s.skip(1);
        law_drop_leading_drops_only_that(rest, c);
        let t = drop_leading(s, c);
        assert(s.skip(s.len() - t.len()) =~= rest.skip(rest.len() - t.len()));
        assert forall|i: int| 0 <= i < s.len() - t.len() implies #[trigger] s[i] == c by {
            if i > 0 {
                assert(rest[i - 1] == c);
            }
        }
    } else {
        assert(s.skip(0) =~= s);
    }
}

/// A number in decimal is made of digits, the most significant first: one more digit behind it is ten
/// times the number and that digit. A number below zero has a `-` before its distance from zero.
pub proof fn law_decimal_is_positional(n: nat, d: nat)
    requires
        d < 10,
    ensures
        n > 0 ==> decimal(n * 10 + d) == decimal(n).push(digit(d as int)),
        decimal(d) == seq![digit(d as int)],
        digit(0) == '0' && digit(1) == '1' && digit(2) == '2' && digit(3) == '3' && digit(4) == '4',
        digit(5) == '5' && digit(6) == '6' && digit(7) == '7' && digit(8) == '8' && digit(9) == '9',
        signed_decimal(n as int) == decimal(n),
        n > 0 ==> signed_decimal(-n) == seq!['-'] + decimal(n),
{
}

/// Padding puts spaces behind a text until it is so wide, and changes nothing of a wider one.
pub proof fn law_padding_is_behind(s: Seq<char>, width: nat)
    ensures
        pad_right(s, width).len() == if s.len() < width {
            width
        } else {
            s.len()
        },
        pad_right(s, width).take(s.len() as int) == s,
        forall|i: int| s.len() <= i < pad_right(s, width).len() ==> #[trigger] pad_right(s, width)[i] == ' ',
{
    assert(pad_right(s, width).take(s.len() as int) =~= s);
}

/// A whole number is written in digits, with a `+` before them or without, and each digit more stands
/// for ten times as much and its own value. What does not fit in 64 bits is none, and neither is
/// anything else.
pub proof fn law_numbers_are_read_digit_by_digit(s: Seq<char>, c: char)
    ensures
        unsigned_value(s) is Some ==> s.len() > 0 && ('0' <= s[0] <= '9' || (s[0] == '+' && s.len() > 1)),
        unsigned_value(s) is Some ==> forall|i: int| 0 < i < s.len() ==> '0' <= #[trigger] s[i] <= '9',
        '0' <= c <= '9' ==> unsigned_value(seq![c]) == Some((c as int - '0' as int) as u64),
        '0' <= c <= '9' && unsigned_value(s) is Some && unsigned_value(s)->0 * 10 + (c as int - '0' as int)
            <= u64::MAX ==> unsigned_value(s.push(c)) == Some(
            (unsigned_value(s)->0 * 10 + (c as int - '0' as int)) as u64,
        ),
        '0' <= c <= '9' && unsigned_value(s) is Some && unsigned_value(s)->0 * 10 + (c as int - '0' as int)
            > u64::MAX ==> unsigned_value(s.push(c)) is None,
        s.len() > 0 && s[0] != '+' ==> unsigned_value(seq!['+'] + s) == unsigned_value(s),
        s.len() > 0 && s[0] == '+' ==> unsigned_value(seq!['+'] + s) is None,
{
    let digits = unsigned_part(s);
    if unsigned_value(s) is Some {
        assert(is_digit(digits[0]));
        assert forall|i: int| 0 < i < s.len() implies '0' <= #[trigger] s[i] <= '9' by {
            if s[0] == '+' {
                assert(digits[i - 1] == s[i]);
            } else {
                assert(digits[i] == s[i]);
            }
            assert(s[0] == '+' ==> is_digit(digits[i - 1]));
            assert(s[0] != '+' ==> is_digit(digits[i]));
        }
        let more = s.push(c);
        assert(unsigned_part(more) =~= digits.push(c));
        assert(digits.push(c).drop_last() =~= digits);
        assert(digits_value(digits.push(c)) == digits_value(digits) * 10 + (c as int - 48) as nat);
        if is_digit(c) {
            assert forall|i: int| 0 <= i < digits.push(c).len() implies is_digit(
                #[trigger] digits.push(c)[i],
            ) by {
                if i < digits.len() {
                    assert(is_digit(digits[i]));
                }
            }
        }
    }
    reveal_with_fuel(digits_value, 2);
    let one = seq![c];
    assert(one.drop_last() =~= Seq::<char>::empty());
    if is_digit(c) {
        assert(unsigned_part(one) == one);
        assert(digits_value(one) == (c as int - 48) as nat);
    }
    if s.len() > 0 {
        let signed = seq!['+'] + s;
        assert(signed.skip(1) =~= s);
        if s[0] == '+' {
            assert(!is_digit(s[0]));
        }
    }
}

/// White space is these characters and no others.
pub proof fn law_white_space_is_these(c: char)
    ensures
        is_space(c) <==> c == '\t' || c == '\n' || c == '\u{b}' || c == '\u{c}' || c == '\r' || c == ' '
            || c == '\u{85}' || c == '\u{a0}' || c == '\u{1680}' || c == '\u{2000}' || c == '\u{2001}' || c
            == '\u{2002}' || c == '\u{2003}' || c == '\u{2004}' || c == '\u{2005}' || c == '\u{2006}' || c
            == '\u{2007}' || c == '\u{2008}' || c == '\u{2009}' || c == '\u{200a}' || c == '\u{2028}' || c
            == '\u{2029}' || c == '\u{202f}' || c == '\u{205f}' || c == '\u{3000}',
{
}

} // verus!
