//! Text primitives: searching, splitting, trimming, and decimal numbers, over
//! strings seen as sequences of characters.

use vstd::prelude::*;

verus! {

/// `String::push` appends one character.
pub assume_specification[ String::push ](s: &mut String, c: char)
    ensures
        final(s)@ == old(s)@.push(c),
;

/// The characters of `s`, in order.
pub fn chars_of(s: &str) -> (r: Vec<char>)
    ensures
        r@ == s@,
{
    let mut out: Vec<char> = Vec::new();
    for c in it: s.chars()
        invariant
            it.seq() == s@,
            out@ == s@.take(it.index()),
    {
        out.push(c);
        assert(s@.take(it.index() + 1) =~= s@.take(it.index()).push(c));
    }
    assert(s@.take(s@.len() as int) =~= s@);
    out
}

/// The string made of the characters `v[from..to]`.
pub fn string_of(v: &Vec<char>, from: usize, to: usize) -> (r: String)
    requires
        from <= to <= v@.len(),
    ensures
        r@ == v@.subrange(from as int, to as int),
{
    let mut out = String::new();
    let mut i: usize = from;
    while i < to
        invariant
            from <= i <= to <= v@.len(),
            out@ == v@.subrange(from as int, i as int),
        decreases to - i,
    {
        out.push(v[i]);
        assert(v@.subrange(from as int, i + 1) =~= v@.subrange(from as int, i as int).push(v@[i as int]));
        i = i + 1;
    }
    out
}

/// Whether two strings hold the same characters.
pub fn same(a: &str, b: &str) -> (r: bool)
    ensures
        r == (a@ == b@),
{
    let x = a.as_bytes();
    let y = b.as_bytes();
    proof {
        vstd::utf8::encode_utf8_decode_utf8(a@);
        vstd::utf8::encode_utf8_decode_utf8(b@);
    }
    if x.len() != y.len() {
        return false;
    }
    let mut i: usize = 0;
    while i < x.len()
        invariant
            0 <= i <= x@.len(),
            x@.len() == y@.len(),
            x@ == vstd::utf8::encode_utf8(a@),
            y@ == vstd::utf8::encode_utf8(b@),
            forall|k: int| 0 <= k < i ==> x@[k] == y@[k],
        decreases x@.len() - i,
    {
        if x[i] != y[i] {
            return false;
        }
        i = i + 1;
    }
    assert(x@ =~= y@);
    true
}

/// A copy of `s`.
pub fn copy_of(s: &str) -> (r: String)
    ensures
        r@ == s@,
{
    s.to_owned()
}

// ---------------------------------------------------------------------------
// Character classes
// ---------------------------------------------------------------------------

/// The characters with the Unicode property White_Space.
pub open spec fn is_space(c: char) -> bool {
    ||| '\u{9}' <= c <= '\u{d}'
    ||| c == ' '
    ||| c == '\u{85}'
    ||| c == '\u{a0}'
    ||| c == '\u{1680}'
    ||| '\u{2000}' <= c <= '\u{200a}'
    ||| c == '\u{2028}'
    ||| c == '\u{2029}'
    ||| c == '\u{202f}'
    ||| c == '\u{205f}'
    ||| c == '\u{3000}'
}

/// Whether `c` is white space.
pub fn space(c: char) -> (r: bool)
    ensures
        r == is_space(c),
{
    ('\u{9}' <= c && c <= '\u{d}') || c == ' ' || c == '\u{85}' || c == '\u{a0}' || c == '\u{1680}'
        || ('\u{2000}' <= c && c <= '\u{200a}') || c == '\u{2028}' || c == '\u{2029}'
        || c == '\u{202f}' || c == '\u{205f}' || c == '\u{3000}'
}

/// ASCII lower-case letters.
pub open spec fn is_lower(c: char) -> bool {
    'a' <= c <= 'z'
}

/// ASCII upper-case letters.
pub open spec fn is_upper(c: char) -> bool {
    'A' <= c <= 'Z'
}

/// ASCII letters.
pub open spec fn is_letter(c: char) -> bool {
    is_lower(c) || is_upper(c)
}

/// ASCII digits.
pub open spec fn is_digit(c: char) -> bool {
    '0' <= c <= '9'
}

/// The ASCII lower-case form of `c`; any other character is its own.
pub open spec fn lower_char(c: char) -> char {
    if is_upper(c) {
        ((c as u32) + 32) as char
    } else {
        c
    }
}

/// The ASCII lower-case form of a text.
pub open spec fn lowered(s: Seq<char>) -> Seq<char> {
    s.map_values(|c: char| lower_char(c))
}

/// The ASCII lower-case form of one character.
pub fn lower(c: char) -> (r: char)
    ensures
        r == lower_char(c),
{
    if 'A' <= c && c <= 'Z' {
        let b: u8 = c as u8;
        (b + 32) as char
    } else {
        c
    }
}

/// The ASCII lower-case form of `s`.
pub fn to_lower(s: &str) -> (r: String)
    ensures
        r@ == lowered(s@),
{
    let v = chars_of(s);
    let mut out = String::new();
    let mut i: usize = 0;
    while i < v.len()
        invariant
            0 <= i <= v@.len(),
            v@ == s@,
            out@ == lowered(s@.take(i as int)),
        decreases v@.len() - i,
    {
        out.push(lower(v[i]));
        assert(lowered(s@.take(i + 1)) =~= lowered(s@.take(i as int)).push(lower_char(v@[i as int])));
        i = i + 1;
    }
    assert(s@.take(s@.len() as int) =~= s@);
    out
}

// ---------------------------------------------------------------------------
// Trimming
// ---------------------------------------------------------------------------

/// `s` without the white space at its two ends.
pub open spec fn trimmed(s: Seq<char>) -> Seq<char>
    decreases s.len(),
{
    if s.len() > 0 && is_space(s[0]) {
        trimmed(s.drop_first())
    } else if s.len() > 0 && is_space(s.last()) {
        trimmed(s.drop_last())
    } else {
        s
    }
}

/// `s` without the white space at its two ends.
pub fn trim(s: &str) -> (r: String)
    ensures
        r@ == trimmed(s@),
{
    let v = chars_of(s);
    let mut a: usize = 0;
    let mut b: usize = v.len();
    assert(v@.subrange(0, v@.len() as int) =~= v@);
    while a < b && space(v[a])
        invariant
            a <= b <= v@.len(),
            v@ == s@,
            trimmed(s@) == trimmed(v@.subrange(a as int, b as int)),
        decreases b - a,
    {
        assert(v@.subrange(a as int, b as int).drop_first() =~= v@.subrange(a + 1, b as int));
        a = a + 1;
    }
    while a < b && space(v[b - 1])
        invariant
            a <= b <= v@.len(),
            v@ == s@,
            a < b ==> !is_space(v@[a as int]),
            trimmed(s@) == trimmed(v@.subrange(a as int, b as int)),
        decreases b - a,
    {
        assert(v@.subrange(a as int, b as int).drop_last() =~= v@.subrange(a as int, b - 1));
        b = b - 1;
    }
    string_of(&v, a, b)
}

/// What trimming leaves neither starts nor ends with white space, and a text
/// without white space at its ends is left as it is.
pub proof fn lemma_trimmed(s: Seq<char>)
    ensures
        trimmed(s).len() > 0 ==> !is_space(trimmed(s)[0]) && !is_space(trimmed(s).last()),
        (s.len() == 0 || (!is_space(s[0]) && !is_space(s.last()))) ==> trimmed(s) == s,
    decreases s.len(),
{
    if s.len() > 0 && is_space(s[0]) {
        lemma_trimmed(s.drop_first());
    } else if s.len() > 0 && is_space(s.last()) {
        lemma_trimmed(s.drop_last());
    }
}

// ---------------------------------------------------------------------------
// Splitting
// ---------------------------------------------------------------------------

/// The pieces of `s` between the separators: a separator opens a new piece,
/// any other character extends the last one.
pub open spec fn split(s: Seq<char>, sep: char) -> Seq<Seq<char>>
    decreases s.len(),
{
    if s.len() == 0 {
        seq![Seq::<char>::empty()]
    } else {
        let p = split(s.drop_last(), sep);
        if s.last() == sep {
            p.push(Seq::<char>::empty())
        } else {
            p.drop_last().push(p.last().push(s.last()))
        }
    }
}

/// The view of a list of strings.
pub open spec fn views(v: Seq<String>) -> Seq<Seq<char>> {
    Seq::new(v.len(), |i: int| v[i]@)
}

/// A text has at least one piece.
pub proof fn lemma_split_nonempty(s: Seq<char>, sep: char)
    ensures
        split(s, sep).len() > 0,
    decreases s.len(),
{
    if s.len() > 0 {
        lemma_split_nonempty(s.drop_last(), sep);
    }
}

/// A text without the separator is one piece.
pub proof fn lemma_split_single(s: Seq<char>, sep: char)
    requires
        !s.contains(sep),
    ensures
        split(s, sep) == seq![s],
    decreases s.len(),
{
    if s.len() > 0 {
        let t = s.drop_last();
        assert forall|i: int| 0 <= i < t.len() implies t[i] != sep by {
            assert(s[i] == t[i]);
        }
        assert(s[s.len() - 1] == s.last());
        lemma_split_single(t, sep);
        assert(split(s, sep) =~= seq![t.push(s.last())]);
        assert(t.push(s.last()) =~= s);
    } else {
        assert(s =~= Seq::<char>::empty());
    }
}

/// Splitting two texts joined by a separator gives the pieces of both.
pub proof fn lemma_split_join(a: Seq<char>, b: Seq<char>, sep: char)
    ensures
        split(a.push(sep) + b, sep) == split(a, sep) + split(b, sep),
    decreases b.len(),
{
    let s = a.push(sep) + b;
    if b.len() == 0 {
        assert(s =~= a.push(sep));
        assert(s.drop_last() =~= a);
        assert(split(s, sep) =~= split(a, sep) + split(b, sep));
    } else {
        lemma_split_join(a, b.drop_last(), sep);
        lemma_split_nonempty(b.drop_last(), sep);
        assert(s.drop_last() =~= a.push(sep) + b.drop_last());
        assert(s.last() == b.last());
        let p = split(s.drop_last(), sep);
        let q = split(b.drop_last(), sep);
        assert(p.last() == q.last());
        assert(p.drop_last() =~= split(a, sep) + q.drop_last());
        assert(split(s, sep) =~= split(a, sep) + split(b, sep));
    }
}

/// The pieces of `s` between the characters `sep`.
pub fn split_on(s: &str, sep: char) -> (r: Vec<String>)
    ensures
        views(r@) == split(s@, sep),
        r@.len() > 0,
{
    let v = chars_of(s);
    let mut out: Vec<String> = Vec::new();
    let mut cur = String::new();
    let mut i: usize = 0;
    proof {
        assert(s@.take(0) =~= Seq::<char>::empty());
        assert(views(out@).push(cur@) =~= split(s@.take(0), sep));
    }
    while i < v.len()
        invariant
            0 <= i <= v@.len(),
            v@ == s@,
            views(out@).push(cur@) == split(s@.take(i as int), sep),
        decreases v@.len() - i,
    {
        let ghost before = views(out@).push(cur@);
        proof {
            assert(s@.take(i + 1).drop_last() =~= s@.take(i as int));
            assert(before.drop_last() =~= views(out@));
        }
        if v[i] == sep {
            out.push(cur);
            cur = String::new();
            assert(views(out@) =~= before);
        } else {
            cur.push(v[i]);
        }
        i = i + 1;
    }
    let ghost head = views(out@);
    out.push(cur);
    proof {
        assert(s@.take(s@.len() as int) =~= s@);
        assert(views(out@) =~= head.push(cur@));
    }
    out
}

/// A line without the carriage return that ended it together with the newline.
pub open spec fn strip_cr(s: Seq<char>) -> Seq<char> {
    if s.len() > 0 && s.last() == '\r' {
        s.drop_last()
    } else {
        s
    }
}

/// The lines of a text: what stands between newlines, each without the
/// carriage return before its newline. The text after the last newline is a
/// line unless it is empty, and keeps its carriage return.
pub open spec fn lines_of(s: Seq<char>) -> Seq<Seq<char>> {
    let p = split(s, '\n');
    let ended = Seq::new((p.len() - 1) as nat, |i: int| strip_cr(p[i]));
    if p.last().len() == 0 {
        ended
    } else {
        ended.push(p.last())
    }
}

/// The lines of `s`.
pub fn lines(s: &str) -> (r: Vec<String>)
    ensures
        views(r@) == lines_of(s@),
{
    let p = split_on(s, '\n');
    let ghost pieces = split(s@, '\n');
    let mut out: Vec<String> = Vec::new();
    let n: usize = p.len() - 1;
    let mut i: usize = 0;
    while i < n
        invariant
            0 <= i <= n,
            n + 1 == p@.len(),
            views(p@) == pieces,
            views(out@) == Seq::new(i as nat, |k: int| strip_cr(pieces[k])),
        decreases n - i,
    {
        let v = chars_of(p[i].as_str());
        let ghost head = views(out@);
        assert(v@ == pieces[i as int]);
        let line = if v.len() > 0 && v[v.len() - 1] == '\r' {
            let t = string_of(&v, 0, v.len() - 1);
            assert(t@ =~= v@.drop_last());
            t
        } else {
            copy_of(p[i].as_str())
        };
        assert(line@ == strip_cr(pieces[i as int]));
        out.push(line);
        assert(views(out@) =~= head.push(line@));
        assert(views(out@) =~= Seq::new((i + 1) as nat, |k: int| strip_cr(pieces[k])));
        i = i + 1;
    }
    if !p[n].as_str().is_empty() {
        let ghost head = views(out@);
        let last = copy_of(p[n].as_str());
        out.push(last);
        assert(views(out@) =~= head.push(last@));
    }
    assert(pieces.last() == p@[n as int]@);
    assert(views(out@) =~= lines_of(s@));
    out
}

/// Lines, each ended by a newline.
pub open spec fn joined(ls: Seq<Seq<char>>) -> Seq<char>
    decreases ls.len(),
{
    if ls.len() == 0 {
        Seq::empty()
    } else {
        (joined(ls.drop_last()) + ls.last()).push('\n')
    }
}

/// A line that is read back as it was written: no newline in it, and no
/// carriage return at its end.
pub open spec fn plain_line(l: Seq<char>) -> bool {
    !l.contains('\n') && (l.len() == 0 || l.last() != '\r')
}

proof fn lemma_split_joined(ls: Seq<Seq<char>>)
    requires
        forall|i: int| 0 <= i < ls.len() ==> plain_line(#[trigger] ls[i]),
    ensures
        split(joined(ls), '\n') == ls.push(Seq::<char>::empty()),
    decreases ls.len(),
{
    let none = Seq::<char>::empty();
    if ls.len() == 0 {
        assert(split(joined(ls), '\n') =~= ls.push(none));
    } else {
        let init = ls.drop_last();
        let last = ls.last();
        assert(plain_line(ls[ls.len() - 1]));
        assert forall|i: int| 0 <= i < init.len() implies plain_line(#[trigger] init[i]) by {
            assert(init[i] == ls[i]);
        }
        lemma_split_joined(init);
        lemma_split_single(last, '\n');
        let head = joined(init);
        lemma_split_join(head + last, none, '\n');
        assert((head + last).push('\n') + none =~= joined(ls));
        assert(split(none, '\n') =~= seq![none]);
        if init.len() == 0 {
            assert(head + last =~= last);
            assert(split(joined(ls), '\n') =~= ls.push(none));
        } else {
            let x = joined(init.drop_last()) + init.last();
            assert(head == x.push('\n'));
            lemma_split_join(x, none, '\n');
            assert(x.push('\n') + none =~= head);
            assert(split(head, '\n') == split(x, '\n').push(none));
            assert(split(x, '\n').push(none).drop_last() =~= split(x, '\n'));
            assert(init.push(none).drop_last() =~= init);
            lemma_split_join(x, last, '\n');
            assert(split(joined(ls), '\n') =~= ls.push(none));
        }
    }
}

/// Plain lines are read back from the text that they make.
pub proof fn lemma_lines_of_joined(ls: Seq<Seq<char>>)
    requires
        forall|i: int| 0 <= i < ls.len() ==> plain_line(#[trigger] ls[i]),
    ensures
        lines_of(joined(ls)) == ls,
{
    lemma_split_joined(ls);
    let p = split(joined(ls), '\n');
    assert forall|i: int| 0 <= i < ls.len() implies strip_cr(#[trigger] p[i]) == ls[i] by {
        assert(plain_line(ls[i]));
    }
    assert(lines_of(joined(ls)) =~= ls);
}

// ---------------------------------------------------------------------------
// Decimal numbers
// ---------------------------------------------------------------------------

/// Whether every character is an ASCII digit.
pub open spec fn all_digits(s: Seq<char>) -> bool {
    forall|i: int| 0 <= i < s.len() ==> is_digit(#[trigger] s[i])
}

/// The number that a run of digits writes in base ten.
pub open spec fn value_of(s: Seq<char>) -> int
    decreases s.len(),
{
    if s.len() == 0 {
        0
    } else {
        value_of(s.drop_last()) * 10 + (s.last() as int - '0' as int)
    }
}

/// `s` without the plus sign that it may start with.
pub open spec fn unsigned_part(s: Seq<char>) -> Seq<char> {
    if s.len() > 0 && s[0] == '+' {
        s.drop_first()
    } else {
        s
    }
}

/// The number not above `max` that `s` writes: an optional plus sign, then one
/// or more digits.
pub open spec fn number_in(s: Seq<char>, max: int) -> Option<int> {
    let t = unsigned_part(s);
    if t.len() > 0 && all_digits(t) && value_of(t) <= max {
        Some(value_of(t))
    } else {
        None
    }
}

/// More digits never make a number smaller.
proof fn lemma_value_grows(s: Seq<char>, i: int)
    requires
        all_digits(s),
        0 <= i <= s.len(),
    ensures
        0 <= value_of(s.take(i)) <= value_of(s),
    decreases s.len(),
{
    if s.len() == 0 {
        assert(s.take(i) =~= s);
    } else {
        let t = s.drop_last();
        assert(all_digits(t)) by {
            assert forall|k: int| 0 <= k < t.len() implies is_digit(#[trigger] t[k]) by {
                assert(t[k] == s[k]);
            }
        }
        assert(is_digit(s[s.len() - 1]));
        if i == s.len() {
            assert(s.take(i) =~= s);
            lemma_value_grows(t, t.len() as int);
            assert(t.take(t.len() as int) =~= t);
        } else {
            lemma_value_grows(t, i);
            assert(t.take(i) =~= s.take(i));
        }
    }
}

/// A run of digits writes a number that is not negative.
pub proof fn lemma_value_nonneg(s: Seq<char>)
    requires
        all_digits(s),
    ensures
        0 <= value_of(s),
{
    lemma_value_grows(s, 0);
}

/// Reads a number not above `max`: an optional plus sign, then digits.
pub fn parse_number(s: &str, max: u64) -> (r: Option<u64>)
    ensures
        r is Some <==> number_in(s@, max as int) is Some,
        r is Some ==> number_in(s@, max as int) == Some(r->0 as int),
{
    let v = chars_of(s);
    let start: usize = if v.len() > 0 && v[0] == '+' { 1 } else { 0 };
    let ghost t = unsigned_part(s@);
    assert(t =~= v@.subrange(start as int, v@.len() as int));
    if start == v.len() {
        return None;
    }
    let mut acc: u64 = 0;
    let mut i: usize = start;
    assert(t.take(0) =~= Seq::<char>::empty());
    while i < v.len()
        invariant
            start <= i <= v@.len(),
            v@ == s@,
            t == unsigned_part(s@),
            t == v@.subrange(start as int, v@.len() as int),
            acc == value_of(t.take(i - start)),
            acc <= max,
            all_digits(t.take(i - start)),
        decreases v@.len() - i,
    {
        let c = v[i];
        assert(t[i - start] == c);
        if !('0' <= c && c <= '9') {
            return None;
        }
        let d: u64 = (c as u32 - '0' as u32) as u64;
        assert(t.take(i - start + 1).drop_last() =~= t.take(i - start));
        assert(t.take(i - start + 1).last() == c);
        assert(value_of(t.take(i - start + 1)) == acc * 10 + d);
        if acc > max / 10 || d > max || acc * 10 > max - d {
            proof {
                if all_digits(t) {
                    lemma_value_grows(t, i - start + 1);
                }
            }
            return None;
        }
        acc = acc * 10 + d;
        i = i + 1;
    }
    assert(t.take(t.len() as int) =~= t);
    Some(acc)
}

/// The digit that writes `d`.
pub open spec fn digit_char(d: int) -> char {
    (('0' as u32) + d) as char
}

/// The decimal writing of `n`, without leading zeros.
pub open spec fn decimal(n: nat) -> Seq<char>
    decreases n,
{
    if n < 10 {
        seq![digit_char(n as int)]
    } else {
        decimal(n / 10).push(digit_char((n % 10) as int))
    }
}

/// A number is read back from its decimal writing, which holds digits only.
pub proof fn lemma_decimal_value(n: nat)
    ensures
        decimal(n).len() > 0,
        all_digits(decimal(n)),
        value_of(decimal(n)) == n,
    decreases n,
{
    let s = decimal(n);
    if n < 10 {
        assert(s.drop_last() =~= Seq::<char>::empty());
        assert(s.last() == digit_char(n as int));
        assert(value_of(s.drop_last()) == 0);
    } else {
        lemma_decimal_value(n / 10);
        let t = decimal(n / 10);
        assert(s.drop_last() =~= t);
        assert forall|i: int| 0 <= i < s.len() implies is_digit(#[trigger] s[i]) by {
            if i < t.len() {
                assert(s[i] == t[i]);
            }
        }
    }
}

/// Writing a number and reading it gives the number back.
pub proof fn lemma_decimal_round_trip(n: nat, max: int)
    requires
        n <= max,
    ensures
        number_in(decimal(n), max) == Some(n as int),
{
    lemma_decimal_value(n);
    assert(is_digit(decimal(n)[0]));
}

/// Appends the decimal writing of `n`.
pub fn push_number(s: &mut String, n: u64)
    ensures
        final(s)@ == old(s)@ + decimal(n as nat),
    decreases n,
{
    let c: char = ((n % 10) as u8 + 48) as char;
    assert(c == digit_char((n % 10) as int));
    if n >= 10 {
        push_number(s, n / 10);
    }
    let ghost mid = s@;
    s.push(c);
    proof {
        if n >= 10 {
            assert(s@ =~= old(s)@ + decimal((n / 10) as nat).push(c));
        } else {
            assert(s@ =~= old(s)@ + seq![c]);
        }
    }
}

// ---------------------------------------------------------------------------
// Searching
// ---------------------------------------------------------------------------

/// Whether `pat` stands in `s` at position `i`.
pub open spec fn stands_at(s: Seq<char>, pat: Seq<char>, i: int) -> bool {
    0 <= i && i + pat.len() <= s.len() && s.subrange(i, i + pat.len()) == pat
}

/// The first position at or after `i` where `pat` stands in `s`.
pub open spec fn find_from(s: Seq<char>, pat: Seq<char>, i: int) -> Option<int>
    decreases s.len() + 1 - i,
{
    if i + pat.len() > s.len() {
        None
    } else if stands_at(s, pat, i) {
        Some(i)
    } else {
        find_from(s, pat, i + 1)
    }
}

/// The first position where `pat` stands in `s`.
pub open spec fn find(s: Seq<char>, pat: Seq<char>) -> Option<int> {
    find_from(s, pat, 0)
}

/// What `find_from` finds is an occurrence, and none stands before it.
pub proof fn lemma_find_from(s: Seq<char>, pat: Seq<char>, i: int)
    requires
        0 <= i,
    ensures
        match find_from(s, pat, i) {
            Some(k) => i <= k && stands_at(s, pat, k) && forall|j: int| i <= j < k ==> !#[trigger] stands_at(s, pat, j),
            None => forall|j: int| i <= j ==> !#[trigger] stands_at(s, pat, j),
        },
    decreases s.len() + 1 - i,
{
    if i + pat.len() > s.len() {
    } else if stands_at(s, pat, i) {
    } else {
        lemma_find_from(s, pat, i + 1);
    }
}

/// Whether `pat` stands in `v` at position `i`.
fn matches_at(v: &Vec<char>, pat: &Vec<char>, i: usize) -> (r: bool)
    requires
        i + pat@.len() <= v@.len(),
    ensures
        r == stands_at(v@, pat@, i as int),
{
    let mut k: usize = 0;
    while k < pat.len()
        invariant
            0 <= k <= pat@.len(),
            i + pat@.len() <= v.len(),
            forall|j: int| 0 <= j < k ==> v@[i + j] == pat@[j],
        decreases pat@.len() - k,
    {
        if v[i + k] != pat[k] {
            assert(v@.subrange(i as int, i + pat@.len())[k as int] != pat@[k as int]);
            return false;
        }
        k = k + 1;
    }
    assert(v@.subrange(i as int, i + pat@.len()) =~= pat@);
    true
}

/// The first position at or after `from` where `pat` stands in `v`.
pub fn find_chars(v: &Vec<char>, pat: &Vec<char>, from: usize) -> (r: Option<usize>)
    requires
        from <= v@.len(),
    ensures
        r is Some <==> find_from(v@, pat@, from as int) is Some,
        r is Some ==> find_from(v@, pat@, from as int) == Some(r->0 as int),
        r is Some ==> from <= r->0 && r->0 + pat@.len() <= v@.len(),
{
    if pat.len() > v.len() {
        return None;
    }
    let last: usize = v.len() - pat.len();
    let mut i: usize = from;
    while i <= last
        invariant
            from <= i <= v@.len() + 1,
            i <= usize::MAX,
            last + pat@.len() == v.len(),
            find_from(v@, pat@, from as int) == find_from(v@, pat@, i as int),
        decreases v@.len() + 1 - i,
    {
        if matches_at(v, pat, i) {
            return Some(i);
        }
        assert(pat@.len() > 0) by {
            if pat@.len() == 0 {
                assert(v@.subrange(i as int, i as int) =~= pat@);
            }
        }
        i = i + 1;
    }
    None
}

/// The first place from `i` on that holds `c`; the length if there is none.
pub open spec fn place_of(s: Seq<char>, c: char, i: int) -> int
    decreases s.len() - i,
{
    if i < 0 || i >= s.len() {
        s.len() as int
    } else if s[i] == c {
        i
    } else {
        place_of(s, c, i + 1)
    }
}

/// What stands before and behind the first `c` of a text.
pub open spec fn split_once(s: Seq<char>, c: char) -> Option<(Seq<char>, Seq<char>)> {
    let i = place_of(s, c, 0);
    if i < s.len() {
        Some((s.take(i), s.skip(i + 1)))
    } else {
        None
    }
}

/// The place is where `c` stands first.
pub proof fn lemma_place_of(s: Seq<char>, c: char, i: int)
    requires
        0 <= i <= s.len(),
    ensures
        i <= place_of(s, c, i) <= s.len(),
        place_of(s, c, i) < s.len() ==> s[place_of(s, c, i)] == c,
        forall|k: int| i <= k < place_of(s, c, i) ==> #[trigger] s[k] != c,
    decreases s.len() - i,
{
    if i < s.len() && s[i] != c {
        lemma_place_of(s, c, i + 1);
    }
}

/// Two texts joined by the first `c` are split there.
pub proof fn lemma_split_once(a: Seq<char>, c: char, b: Seq<char>)
    requires
        !a.contains(c),
    ensures
        split_once(a.push(c) + b, c) == Some((a, b)),
{
    let s = a.push(c) + b;
    let i = place_of(s, c, 0);
    lemma_place_of(s, c, 0);
    assert(s[a.len() as int] == c);
    if i < a.len() {
        assert(s[i] == a[i]);
        assert(a.contains(a[i]));
    }
    assert(i == a.len());
    assert(s.take(i) =~= a);
    assert(s.skip(i + 1) =~= b);
}

/// What stands before and behind the first `c` of `s`.
pub fn cut_once(s: &str, c: char) -> (r: Option<(String, String)>)
    ensures
        match r {
            Some((a, b)) => split_once(s@, c) == Some((a@, b@)),
            None => split_once(s@, c) is None,
        },
{
    let v = chars_of(s);
    let mut i: usize = 0;
    while i < v.len()
        invariant
            0 <= i <= v@.len(),
            v@ == s@,
            place_of(s@, c, 0) == place_of(s@, c, i as int),
        decreases v@.len() - i,
    {
        if v[i] == c {
            assert(s@.take(i as int) =~= s@.subrange(0, i as int));
            assert(s@.skip(i + 1) =~= s@.subrange(i + 1, s@.len() as int));
            return Some((string_of(&v, 0, i), string_of(&v, i + 1, v.len())));
        }
        i = i + 1;
    }
    None
}

// ---------------------------------------------------------------------------
// What texts keep
// ---------------------------------------------------------------------------

/// White space is blanks and line ends: among ASCII characters the space and
/// the five controls from tab to carriage return, and no letter, digit, mark or
/// Chinese character.
pub proof fn law_white_space_is_blank(c: char)
    ensures
        c <= '\u{7f}' ==> (is_space(c) <==> c == ' ' || c == '\t' || c == '\n' || c == '\r' || c == '\u{b}' || c == '\u{c}'),
        is_space('\u{a0}') && is_space('\u{3000}') && is_space('\u{2009}') && is_space('\u{2028}'),
        c > '\u{3000}' ==> !is_space(c),
{
}

/// Trimming takes white space from the ends and nothing else: what is left
/// stood in the text as it is, between white space and white space.
pub proof fn law_trimming_takes_white_space_only(s: Seq<char>) -> (r: (int, int))
    ensures
        0 <= r.0 <= r.1 <= s.len(),
        trimmed(s) == s.subrange(r.0, r.1),
        forall|i: int| 0 <= i < r.0 ==> is_space(#[trigger] s[i]),
        forall|i: int| r.1 <= i < s.len() ==> is_space(#[trigger] s[i]),
        trimmed(s).len() > 0 ==> !is_space(trimmed(s)[0]) && !is_space(trimmed(s).last()),
    decreases s.len(),
{
    lemma_trimmed(s);
    if s.len() > 0 && is_space(s[0]) {
        let t = s.drop_first();
        let (a, b) = law_trimming_takes_white_space_only(t);
        assert(t.subrange(a, b) =~= s.subrange(a + 1, b + 1));
        assert forall|i: int| 0 <= i < a + 1 implies is_space(#[trigger] s[i]) by {
            if i > 0 {
                assert(s[i] == t[i - 1]);
            }
        }
        assert forall|i: int| b + 1 <= i < s.len() implies is_space(#[trigger] s[i]) by {
            assert(s[i] == t[i - 1]);
        }
        (a + 1, b + 1)
    } else if s.len() > 0 && is_space(s.last()) {
        let t = s.drop_last();
        let (a, b) = law_trimming_takes_white_space_only(t);
        assert(t.subrange(a, b) =~= s.subrange(a, b));
        assert forall|i: int| 0 <= i < a implies is_space(#[trigger] s[i]) by {
            assert(s[i] == t[i]);
        }
        assert forall|i: int| b <= i < s.len() implies is_space(#[trigger] s[i]) by {
            if i < t.len() {
                assert(s[i] == t[i]);
            }
        }
        (a, b)
    } else {
        assert(s.subrange(0, s.len() as int) =~= s);
        (0, s.len() as int)
    }
}

/// Lower case changes the ASCII capitals, each to its small letter, and nothing
/// else.
pub proof fn law_lower_case_changes_capitals_only(s: Seq<char>, i: int)
    requires
        0 <= i < s.len(),
    ensures
        lowered(s).len() == s.len(),
        'A' <= s[i] <= 'Z' ==> 'a' <= lowered(s)[i] <= 'z' && lowered(s)[i] as u32 - 'a' as u32 == s[i] as u32
            - 'A' as u32,
        !('A' <= s[i] <= 'Z') ==> lowered(s)[i] == s[i],
        lowered(lowered(s)) =~= lowered(s),
{
    assert forall|k: int| 0 <= k < s.len() implies #[trigger] lowered(s)[k] == lower_char(s[k]) by {}
    assert(lowered(lowered(s)) =~= lowered(s));
}

/// Pieces with separators between them.
pub open spec fn rejoined(p: Seq<Seq<char>>, sep: char) -> Seq<char>
    decreases p.len(),
{
    if p.len() == 0 {
        Seq::empty()
    } else if p.len() == 1 {
        p[0]
    } else {
        rejoined(p.drop_last(), sep).push(sep) + p.last()
    }
}

/// Splitting loses nothing: the pieces with the separators between them are the
/// text again, and no piece holds a separator.
pub proof fn law_split_pieces_make_the_text(s: Seq<char>, sep: char)
    ensures
        split(s, sep).len() > 0,
        rejoined(split(s, sep), sep) == s,
        forall|i: int| 0 <= i < split(s, sep).len() ==> !(#[trigger] split(s, sep)[i]).contains(sep),
    decreases s.len(),
{
    if s.len() > 0 {
        let t = s.drop_last();
        let p = split(t, sep);
        let q = split(s, sep);
        law_split_pieces_make_the_text(t, sep);
        if s.last() == sep {
            assert(q.drop_last() =~= p);
            assert(rejoined(p, sep).push(sep) + Seq::<char>::empty() =~= s);
            assert forall|i: int| 0 <= i < q.len() implies !(#[trigger] q[i]).contains(sep) by {
                if i < p.len() {
                    assert(q[i] == p[i]);
                }
            }
        } else {
            let m = p.len() - 1;
            assert(q.drop_last() =~= p.drop_last());
            assert(q.last() == p.last().push(s.last()));
            assert forall|i: int| 0 <= i < q.len() implies !(#[trigger] q[i]).contains(sep) by {
                assert(!p[i].contains(sep));
                if i < m {
                    assert(q[i] == p[i]);
                } else if q[i].contains(sep) {
                    let k = choose|k: int| 0 <= k < q[i].len() && q[i][k] == sep;
                    assert(p[i][k] == sep);
                }
            }
            if p.len() == 1 {
                assert(q[0] =~= s);
            } else {
                assert(rejoined(q, sep) =~= rejoined(p, sep).push(s.last()));
            }
            assert(t.push(s.last()) =~= s);
        }
    } else {
        assert(!split(s, sep)[0].contains(sep));
    }
}

/// A number is read exactly where it is written in digits, with at most a plus
/// sign before them, and does not exceed the limit.
pub proof fn law_numbers_are_digits(s: Seq<char>, n: nat, max: int)
    ensures
        number_in(decimal(n), max) == if n <= max {
            Some(n as int)
        } else {
            None
        },
        number_in(seq!['+'] + decimal(n), max) == number_in(decimal(n), max),
        number_in(s, max) is Some ==> s.len() > 0 && 0 <= number_in(s, max)->0 <= max && forall|i: int|
            0 <= i < s.len() ==> '0' <= #[trigger] s[i] <= '9' || (i == 0 && s[i] == '+' && s.len() > 1),
{
    lemma_decimal_value(n);
    let d = decimal(n);
    assert(is_digit(d[0]));
    let p = seq!['+'] + d;
    assert(p.drop_first() =~= d);
    if number_in(s, max) is Some {
        let t = unsigned_part(s);
        lemma_value_nonneg(t);
        assert forall|i: int| 0 <= i < s.len() implies '0' <= #[trigger] s[i] <= '9' || (i == 0 && s[i] == '+' && s.len()
            > 1) by {
            if s[0] == '+' {
                if i > 0 {
                    assert(t[i - 1] == s[i]);
                    assert(is_digit(t[i - 1]));
                }
            } else {
                assert(is_digit(t[i]));
            }
        }
    }
}

/// Texts one behind the other.
pub open spec fn concat(ps: Seq<Seq<char>>) -> Seq<char>
    decreases ps.len(),
{
    if ps.len() == 0 {
        Seq::empty()
    } else {
        concat(ps.drop_last()) + ps.last()
    }
}

/// Digits are read in base ten, the first one first; leading zeros do not
/// matter, and a number is written without them.
pub proof fn law_numbers_are_read_in_base_ten(s: Seq<char>, c: char, n: nat, max: int)
    requires
        '0' <= c <= '9',
        max >= 9,
    ensures
        number_in(seq![c], max) == Some(c as int - '0' as int),
        number_in(s, max) is Some ==> number_in(s.push(c), max) == if number_in(s, max)->0 * 10 + (c as int
            - '0' as int) <= max {
            Some(number_in(s, max)->0 * 10 + (c as int - '0' as int))
        } else {
            None
        },
        n > 0 ==> decimal(n)[0] != '0',
    decreases n,
{
    let one = seq![c];
    assert(one.drop_last() =~= Seq::<char>::empty());
    assert(value_of(one.drop_last()) == 0);
    assert(value_of(one) == c as int - '0' as int);
    assert(is_digit(one[0]));
    if number_in(s, max) is Some {
        let t = unsigned_part(s);
        let u = unsigned_part(s.push(c));
        assert(s.push(c)[0] == s[0]);
        assert(u =~= t.push(c));
        assert(u.drop_last() =~= t);
        assert forall|i: int| 0 <= i < u.len() implies is_digit(#[trigger] u[i]) by {
            if i < t.len() {
                assert(u[i] == t[i]);
            }
        }
    }
    if n >= 10 {
        law_numbers_are_read_in_base_ten(s, c, n / 10, max);
        lemma_decimal_value(n / 10);
        assert(decimal(n)[0] == decimal(n / 10)[0]);
    }
}

/// A text is cut at the first place of a character: what stands before it does
/// not hold the character, and nothing is lost but that one place. A text that
/// does not hold it is not cut.
pub proof fn law_cut_at_the_first_place(s: Seq<char>, c: char)
    ensures
        match split_once(s, c) {
            Some((a, b)) => s == a.push(c) + b && !a.contains(c),
            None => !s.contains(c),
        },
{
    lemma_place_of(s, c, 0);
    let i = place_of(s, c, 0);
    if i < s.len() {
        assert(s.take(i).push(c) + s.skip(i + 1) =~= s);
        assert(!s.take(i).contains(c)) by {
            if s.take(i).contains(c) {
                let k = choose|k: int| 0 <= k < s.take(i).len() && s.take(i)[k] == c;
                assert(s[k] == c);
            }
        }
    } else if s.contains(c) {
        let k = choose|k: int| 0 <= k < s.len() && s[k] == c;
        assert(s[k] != c);
    }
}

/// What is found stands there, and does not stand anywhere before; what stands
/// somewhere is found.
pub proof fn law_the_first_occurrence_is_found(s: Seq<char>, pat: Seq<char>, j: int)
    requires
        0 <= j,
        j + pat.len() <= s.len(),
    ensures
        find(s, pat) is Some ==> 0 <= find(s, pat)->0 && find(s, pat)->0 + pat.len() <= s.len() && s.subrange(
            find(s, pat)->0,
            find(s, pat)->0 + pat.len(),
        ) == pat,
        s.subrange(j, j + pat.len()) == pat ==> find(s, pat) is Some && find(s, pat)->0 <= j,
{
    lemma_find_from(s, pat, 0);
    if s.subrange(j, j + pat.len()) == pat {
        assert(stands_at(s, pat, j));
    }
}

/// Lines end at newlines, with or without a carriage return before them; what
/// stands behind the last newline is a line if it is not empty.
pub proof fn law_lines_end_at_newlines(a: Seq<char>, b: Seq<char>)
    requires
        !a.contains('\n'),
    ensures
        a.len() == 0 || a.last() != '\r' ==> lines_of(a.push('\n') + b) == seq![a] + lines_of(b),
        lines_of(a.push('\r').push('\n') + b) == seq![a] + lines_of(b),
        a.len() > 0 ==> lines_of(a) == seq![a],
        lines_of(Seq::<char>::empty()) == Seq::<Seq<char>>::empty(),
{
    let none = Seq::<char>::empty();
    lemma_split_single(a, '\n');
    lemma_split_nonempty(b, '\n');
    lemma_split_join(a, b, '\n');
    let p = split(b, '\n');
    let x = a.push('\n') + b;
    assert(split(x, '\n') =~= seq![a] + p);
    assert((seq![a] + p).last() == p.last());
    if a.len() == 0 || a.last() != '\r' {
        assert(lines_of(x) =~= seq![a] + lines_of(b));
    }
    let r = a.push('\r');
    if r.contains('\n') {
        let i = choose|i: int| 0 <= i < r.len() && r[i] == '\n';
        assert(a[i] == '\n');
    }
    lemma_split_single(r, '\n');
    lemma_split_join(r, b, '\n');
    let y = r.push('\n') + b;
    assert(split(y, '\n') =~= seq![r] + p);
    assert((seq![r] + p).last() == p.last());
    assert(r.drop_last() =~= a);
    assert(lines_of(y) =~= seq![a] + lines_of(b));
    if a.len() > 0 {
        assert(seq![a].last() == a);
        assert(lines_of(a) =~= seq![a]);
    }
    assert(split(none, '\n') =~= seq![none]);
    assert(seq![none].last() == none);
    assert(lines_of(none) =~= Seq::<Seq<char>>::empty());
}

/// White space around a text does not change what trimming leaves of it.
pub proof fn law_white_space_around_does_not_matter(a: Seq<char>, s: Seq<char>, b: Seq<char>)
    requires
        forall|i: int| 0 <= i < a.len() ==> is_space(#[trigger] a[i]),
        forall|i: int| 0 <= i < b.len() ==> is_space(#[trigger] b[i]),
    ensures
        trimmed(a + s + b) == trimmed(s),
    decreases a.len() + s.len() + b.len(),
{
    let t = a + s + b;
    if a.len() > 0 {
        let a1 = a.drop_first();
        assert forall|i: int| 0 <= i < a1.len() implies is_space(#[trigger] a1[i]) by {
            assert(a1[i] == a[i + 1]);
        }
        law_white_space_around_does_not_matter(a1, s, b);
        assert(t[0] == a[0]);
        assert(t.drop_first() =~= a1 + s + b);
    } else if b.len() > 0 {
        if s.len() == 0 {
            let b1 = b.drop_first();
            assert forall|i: int| 0 <= i < b1.len() implies is_space(#[trigger] b1[i]) by {
                assert(b1[i] == b[i + 1]);
            }
            law_white_space_around_does_not_matter(a, s, b1);
            assert(t[0] == b[0]);
            assert(t.drop_first() =~= a + s + b1);
        } else if is_space(s[0]) {
            law_white_space_around_does_not_matter(a, s.drop_first(), b);
            assert(t[0] == s[0]);
            assert(t.drop_first() =~= a + s.drop_first() + b);
        } else {
            let b1 = b.drop_last();
            assert forall|i: int| 0 <= i < b1.len() implies is_space(#[trigger] b1[i]) by {
                assert(b1[i] == b[i]);
            }
            law_white_space_around_does_not_matter(a, s, b1);
            assert(t[0] == s[0]);
            assert(t.last() == b.last() && b[b.len() - 1] == b.last());
            assert(t.drop_last() =~= a + s + b1);
        }
    } else {
        assert(t =~= s);
    }
}

} // verus!
