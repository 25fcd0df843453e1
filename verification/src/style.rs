//! Output register polish: nudges textbook English toward North American
//! business-casual. Deliberately conservative: only word-boundary contractions,
//! a few stock de-stiffeners, and whitespace cleanup.

use vstd::prelude::*;

use crate::text;

verus! {

/// How many rules there are: multi-word phrases first, then contractions.
pub const RULES: usize = 78;

/// The rule with number `i`: the phrase and what replaces it.
pub open spec fn rule(i: usize) -> (Seq<char>, Seq<char>) {
    match i {
        0 => ("As soon as possible"@, "ASAP"@),
        1 => ("as soon as possible"@, "ASAP"@),
        2 => ("In order to"@, "To"@),
        3 => ("in order to"@, "to"@),
        4 => ("a great deal of"@, "a lot of"@),
        5 => ("It is a pity that"@, "Too bad"@),
        6 => ("I have been"@, "I've been"@),
        7 => ("We have been"@, "We've been"@),
        8 => ("You have been"@, "You've been"@),
        9 => ("They have been"@, "They've been"@),
        10 => ("we have been"@, "we've been"@),
        11 => ("you have been"@, "you've been"@),
        12 => ("they have been"@, "they've been"@),
        13 => ("I am"@, "I'm"@),
        14 => ("You are"@, "You're"@),
        15 => ("you are"@, "you're"@),
        16 => ("We are"@, "We're"@),
        17 => ("we are"@, "we're"@),
        18 => ("They are"@, "They're"@),
        19 => ("they are"@, "they're"@),
        20 => ("He is"@, "He's"@),
        21 => ("he is"@, "he's"@),
        22 => ("She is"@, "She's"@),
        23 => ("she is"@, "she's"@),
        24 => ("It is"@, "It's"@),
        25 => ("it is"@, "it's"@),
        26 => ("That is"@, "That's"@),
        27 => ("that is"@, "that's"@),
        28 => ("There is"@, "There's"@),
        29 => ("there is"@, "there's"@),
        30 => ("What is"@, "What's"@),
        31 => ("what is"@, "what's"@),
        32 => ("I will"@, "I'll"@),
        33 => ("We will"@, "We'll"@),
        34 => ("we will"@, "we'll"@),
        35 => ("You will"@, "You'll"@),
        36 => ("you will"@, "you'll"@),
        37 => ("They will"@, "They'll"@),
        38 => ("they will"@, "they'll"@),
        39 => ("He will"@, "He'll"@),
        40 => ("he will"@, "he'll"@),
        41 => ("She will"@, "She'll"@),
        42 => ("she will"@, "she'll"@),
        43 => ("It will"@, "It'll"@),
        44 => ("it will"@, "it'll"@),
        45 => ("I would"@, "I'd"@),
        46 => ("We would"@, "We'd"@),
        47 => ("we would"@, "we'd"@),
        48 => ("Do not"@, "Don't"@),
        49 => ("do not"@, "don't"@),
        50 => ("Does not"@, "Doesn't"@),
        51 => ("does not"@, "doesn't"@),
        52 => ("Did not"@, "Didn't"@),
        53 => ("did not"@, "didn't"@),
        54 => ("Cannot"@, "Can't"@),
        55 => ("cannot"@, "can't"@),
        56 => ("Can not"@, "Can't"@),
        57 => ("can not"@, "can't"@),
        58 => ("Will not"@, "Won't"@),
        59 => ("will not"@, "won't"@),
        60 => ("Is not"@, "Isn't"@),
        61 => ("is not"@, "isn't"@),
        62 => ("Are not"@, "Aren't"@),
        63 => ("are not"@, "aren't"@),
        64 => ("Was not"@, "Wasn't"@),
        65 => ("was not"@, "wasn't"@),
        66 => ("Were not"@, "Weren't"@),
        67 => ("were not"@, "weren't"@),
        68 => ("Would not"@, "Wouldn't"@),
        69 => ("would not"@, "wouldn't"@),
        70 => ("Should not"@, "Shouldn't"@),
        71 => ("should not"@, "shouldn't"@),
        72 => ("Could not"@, "Couldn't"@),
        73 => ("could not"@, "couldn't"@),
        74 => ("Have not"@, "Haven't"@),
        75 => ("have not"@, "haven't"@),
        76 => ("Has not"@, "Hasn't"@),
        _ => ("has not"@, "hasn't"@),
    }
}

/// The rule with number `i`.
fn rule_at(i: usize) -> (r: (&'static str, &'static str))
    ensures
        (r.0@, r.1@) == rule(i),
{
    match i {
        0 => ("As soon as possible", "ASAP"),
        1 => ("as soon as possible", "ASAP"),
        2 => ("In order to", "To"),
        3 => ("in order to", "to"),
        4 => ("a great deal of", "a lot of"),
        5 => ("It is a pity that", "Too bad"),
        6 => ("I have been", "I've been"),
        7 => ("We have been", "We've been"),
        8 => ("You have been", "You've been"),
        9 => ("They have been", "They've been"),
        10 => ("we have been", "we've been"),
        11 => ("you have been", "you've been"),
        12 => ("they have been", "they've been"),
        13 => ("I am", "I'm"),
        14 => ("You are", "You're"),
        15 => ("you are", "you're"),
        16 => ("We are", "We're"),
        17 => ("we are", "we're"),
        18 => ("They are", "They're"),
        19 => ("they are", "they're"),
        20 => ("He is", "He's"),
        21 => ("he is", "he's"),
        22 => ("She is", "She's"),
        23 => ("she is", "she's"),
        24 => ("It is", "It's"),
        25 => ("it is", "it's"),
        26 => ("That is", "That's"),
        27 => ("that is", "that's"),
        28 => ("There is", "There's"),
        29 => ("there is", "there's"),
        30 => ("What is", "What's"),
        31 => ("what is", "what's"),
        32 => ("I will", "I'll"),
        33 => ("We will", "We'll"),
        34 => ("we will", "we'll"),
        35 => ("You will", "You'll"),
        36 => ("you will", "you'll"),
        37 => ("They will", "They'll"),
        38 => ("they will", "they'll"),
        39 => ("He will", "He'll"),
        40 => ("he will", "he'll"),
        41 => ("She will", "She'll"),
        42 => ("she will", "she'll"),
        43 => ("It will", "It'll"),
        44 => ("it will", "it'll"),
        45 => ("I would", "I'd"),
        46 => ("We would", "We'd"),
        47 => ("we would", "we'd"),
        48 => ("Do not", "Don't"),
        49 => ("do not", "don't"),
        50 => ("Does not", "Doesn't"),
        51 => ("does not", "doesn't"),
        52 => ("Did not", "Didn't"),
        53 => ("did not", "didn't"),
        54 => ("Cannot", "Can't"),
        55 => ("cannot", "can't"),
        56 => ("Can not", "Can't"),
        57 => ("can not", "can't"),
        58 => ("Will not", "Won't"),
        59 => ("will not", "won't"),
        60 => ("Is not", "Isn't"),
        61 => ("is not", "isn't"),
        62 => ("Are not", "Aren't"),
        63 => ("are not", "aren't"),
        64 => ("Was not", "Wasn't"),
        65 => ("was not", "wasn't"),
        66 => ("Were not", "Weren't"),
        67 => ("were not", "weren't"),
        68 => ("Would not", "Wouldn't"),
        69 => ("would not", "wouldn't"),
        70 => ("Should not", "Shouldn't"),
        71 => ("should not", "shouldn't"),
        72 => ("Could not", "Couldn't"),
        73 => ("could not", "couldn't"),
        74 => ("Have not", "Haven't"),
        75 => ("have not", "haven't"),
        76 => ("Has not", "Hasn't"),
        _ => ("has not", "hasn't"),
    }
}

/// No rule is about the empty phrase.
proof fn lemma_phrases_not_empty(i: usize)
    ensures
        rule(i).0.len() > 0,
{
    reveal_strlit("As soon as possible");
    reveal_strlit("as soon as possible");
    reveal_strlit("In order to");
    reveal_strlit("in order to");
    reveal_strlit("a great deal of");
    reveal_strlit("It is a pity that");
    reveal_strlit("I have been");
    reveal_strlit("We have been");
    reveal_strlit("You have been");
    reveal_strlit("They have been");
    reveal_strlit("we have been");
    reveal_strlit("you have been");
    reveal_strlit("they have been");
    reveal_strlit("I am");
    reveal_strlit("You are");
    reveal_strlit("you are");
    reveal_strlit("We are");
    reveal_strlit("we are");
    reveal_strlit("They are");
    reveal_strlit("they are");
    reveal_strlit("He is");
    reveal_strlit("he is");
    reveal_strlit("She is");
    reveal_strlit("she is");
    reveal_strlit("It is");
    reveal_strlit("it is");
    reveal_strlit("That is");
    reveal_strlit("that is");
    reveal_strlit("There is");
    reveal_strlit("there is");
    reveal_strlit("What is");
    reveal_strlit("what is");
    reveal_strlit("I will");
    reveal_strlit("We will");
    reveal_strlit("we will");
    reveal_strlit("You will");
    reveal_strlit("you will");
    reveal_strlit("They will");
    reveal_strlit("they will");
    reveal_strlit("He will");
    reveal_strlit("he will");
    reveal_strlit("She will");
    reveal_strlit("she will");
    reveal_strlit("It will");
    reveal_strlit("it will");
    reveal_strlit("I would");
    reveal_strlit("We would");
    reveal_strlit("we would");
    reveal_strlit("Do not");
    reveal_strlit("do not");
    reveal_strlit("Does not");
    reveal_strlit("does not");
    reveal_strlit("Did not");
    reveal_strlit("did not");
    reveal_strlit("Cannot");
    reveal_strlit("cannot");
    reveal_strlit("Can not");
    reveal_strlit("can not");
    reveal_strlit("Will not");
    reveal_strlit("will not");
    reveal_strlit("Is not");
    reveal_strlit("is not");
    reveal_strlit("Are not");
    reveal_strlit("are not");
    reveal_strlit("Was not");
    reveal_strlit("was not");
    reveal_strlit("Were not");
    reveal_strlit("were not");
    reveal_strlit("Would not");
    reveal_strlit("would not");
    reveal_strlit("Should not");
    reveal_strlit("should not");
    reveal_strlit("Could not");
    reveal_strlit("could not");
    reveal_strlit("Have not");
    reveal_strlit("have not");
    reveal_strlit("Has not");
    reveal_strlit("has not");
}

// ---------------------------------------------------------------------------
// Replacing words
// ---------------------------------------------------------------------------

/// Whether a character has one of the Unicode properties Alphabetic and
/// Numeric.
pub uninterp spec fn unicode_alphanumeric(c: char) -> bool;

/// `char::is_alphanumeric` tells whether a character is alphabetic or numeric
/// in Unicode. Of ASCII characters these are the letters and the digits; the
/// properties of the others are not spelled out.
pub assume_specification[ char::is_alphanumeric ](c: char) -> (r: bool)
    ensures
        r == unicode_alphanumeric(c),
        c <= '\u{7f}' ==> r == (text::is_letter(c) || text::is_digit(c)),
;

/// Whether a word may start behind `c`.
pub open spec fn opens_word(c: Option<char>) -> bool {
    c is Some ==> !unicode_alphanumeric(c->0)
}

/// Whether a word may end before `c`: never right before an apostrophe, which
/// would contract twice.
pub open spec fn closes_word(c: Option<char>) -> bool {
    c is Some ==> !unicode_alphanumeric(c->0) && c->0 != '\''
}

/// The character at a place of a text, if there is one.
pub open spec fn char_at(s: Seq<char>, i: int) -> Option<char> {
    if 0 <= i < s.len() {
        Some(s[i])
    } else {
        None
    }
}

/// The last character of `s`, or `prev` if it is empty.
pub open spec fn last_or(s: Seq<char>, prev: Option<char>) -> Option<char> {
    if s.len() > 0 {
        Some(s.last())
    } else {
        prev
    }
}

/// The text from `pos` on, with `from` replaced by `to` where it is a word;
/// `prev` is what stands before it.
pub open spec fn replaced_from(s: Seq<char>, pos: int, prev: Option<char>, from: Seq<char>, to: Seq<char>) -> Seq<char>
    decreases s.len() - pos,
    when 0 <= pos && from.len() > 0
{
    proof {
        text::lemma_find_from(s, from, pos);
    }
    match text::find_from(s, from, pos) {
        Some(i) => {
            let end = i + from.len();
            let is_word = opens_word(last_or(s.subrange(pos, i), prev)) && closes_word(char_at(s, end));
            let chunk = s.subrange(pos, i) + if is_word {
                to
            } else {
                from
            };
            chunk + replaced_from(s, end, last_or(chunk, prev), from, to)
        },
        None => s.skip(pos),
    }
}

/// The text with `from` replaced by `to` where it is a word.
pub open spec fn replaced(s: Seq<char>, from: Seq<char>, to: Seq<char>) -> Seq<char> {
    replaced_from(s, 0, None, from, to)
}

/// Replaces `from` with `to` only at word boundaries: no mid-word hits, and
/// never right before an apostrophe.
pub fn replace_word(s: &str, from: &str, to: &str) -> (r: String)
    requires
        from@.len() > 0,
    ensures
        r@ == replaced(s@, from@, to@),
{
    let v = text::chars_of(s);
    let pat = text::chars_of(from);
    let n: usize = v.len();
    let mut out = String::new();
    let mut prev: Option<char> = None;
    let mut pos: usize = 0;
    assert(out@ + replaced_from(s@, 0, prev, from@, to@) =~= replaced(s@, from@, to@));
    let mut next = text::find_chars(&v, &pat, 0);
    while next.is_some()
        invariant
            v@ == s@,
            n == v@.len(),
            pat@ == from@,
            from@.len() > 0,
            pos <= v@.len(),
            next is Some <==> text::find_from(v@, pat@, pos as int) is Some,
            next is Some ==> text::find_from(v@, pat@, pos as int) == Some(next->0 as int),
            next is Some ==> pos <= next->0 && next->0 + pat@.len() <= v@.len(),
            prev == last_or(out@, None),
            out@ + replaced_from(s@, pos as int, prev, from@, to@) == replaced(s@, from@, to@),
        decreases v@.len() - pos + if next is Some { 1int } else { 0 },
    {
        let i: usize = next.unwrap();
        let end: usize = i + pat.len();
        let ghost prev0 = prev;
        let ghost out0 = out@;
        let before: Option<char> = if i > pos { Some(v[i - 1]) } else { prev };
        proof {
            assert(before == last_or(s@.subrange(pos as int, i as int), prev0));
        }
        let before_ok = match before {
            Some(c) => !c.is_alphanumeric(),
            None => true,
        };
        let after_ok = if end < n { !v[end].is_alphanumeric() && v[end] != '\'' } else { true };
        let gap = text::string_of(&v, pos, i);
        out.append(gap.as_str());
        let ghost mid = out@;
        let word = if before_ok && after_ok { to } else { from };
        out.append(word);
        if i > pos {
            prev = Some(v[i - 1]);
        }
        let w = text::chars_of(word);
        if w.len() > 0 {
            prev = Some(w[w.len() - 1]);
        }
        proof {
            let chunk = gap@ + word@;
            assert(out@ =~= out0 + chunk);
            assert(prev == last_or(chunk, prev0)) by {
                if word@.len() > 0 {
                    assert(chunk.last() == word@.last());
                } else {
                    assert(chunk =~= gap@);
                }
            }
            assert(prev == last_or(out@, None)) by {
                if chunk.len() > 0 {
                    assert(out@.last() == chunk.last());
                } else {
                    assert(out@ =~= out0);
                }
            }
            let tail = replaced_from(s@, end as int, prev, from@, to@);
            assert(out0 + (chunk + tail) =~= (out0 + chunk) + tail);
        }
        pos = end;
        next = text::find_chars(&v, &pat, pos);
    }
    let rest = text::string_of(&v, pos, v.len());
    out.append(rest.as_str());
    assert(s@.skip(pos as int) =~= rest@);
    out
}

/// The text after the first `n` rules.
pub open spec fn styled(s: Seq<char>, n: int) -> Seq<char>
    decreases n,
{
    if n <= 0 {
        s
    } else {
        replaced(styled(s, n - 1), rule((n - 1) as usize).0, rule((n - 1) as usize).1)
    }
}

/// A text in which a phrase does not stand is left as it is.
pub proof fn law_replaces_nothing_else(s: Seq<char>, from: Seq<char>, to: Seq<char>)
    requires
        from.len() > 0,
        text::find(s, from) is None,
    ensures
        replaced(s, from, to) == s,
{
    assert(s.skip(0) =~= s);
}

/// Replacing a phrase by itself changes nothing.
pub proof fn law_replacing_by_itself(s: Seq<char>, pos: int, prev: Option<char>, from: Seq<char>)
    requires
        0 <= pos <= s.len(),
        from.len() > 0,
    ensures
        replaced_from(s, pos, prev, from, from) == s.skip(pos),
    decreases s.len() - pos,
{
    text::lemma_find_from(s, from, pos);
    match text::find_from(s, from, pos) {
        Some(i) => {
            let end = i + from.len();
            let chunk = s.subrange(pos, i) + from;
            law_replacing_by_itself(s, end, last_or(chunk, prev), from);
            assert(s.subrange(i, end) == from);
            assert(chunk =~= s.subrange(pos, end));
            assert(chunk + s.skip(end) =~= s.skip(pos));
        },
        None => {},
    }
}

/// A text in which no phrase of the rules stands keeps its words.
pub proof fn law_text_without_phrases_keeps_its_words(s: Seq<char>, n: int)
    requires
        0 <= n <= RULES,
        forall|i: usize| 0 <= i < RULES ==> text::find(s, (#[trigger] rule(i)).0) is None,
    ensures
        styled(s, n) == s,
    decreases n,
{
    if n > 0 {
        law_text_without_phrases_keeps_its_words(s, n - 1);
        let i = (n - 1) as usize;
        lemma_phrases_not_empty(i);
        law_replaces_nothing_else(s, rule(i).0, rule(i).1);
    }
}

// ---------------------------------------------------------------------------
// Cleaning up
// ---------------------------------------------------------------------------

/// The text with every run of spaces made one space.
pub open spec fn collapsed(s: Seq<char>) -> Seq<char>
    decreases s.len(),
{
    if s.len() == 0 {
        s
    } else {
        let head = collapsed(s.drop_last());
        if s.last() == ' ' && head.len() > 0 && head.last() == ' ' {
            head
        } else {
            head.push(s.last())
        }
    }
}

/// The text without the spaces that stand right before `c`.
pub open spec fn closed_up(s: Seq<char>, c: char) -> Seq<char>
    decreases s.len(),
{
    if s.len() == 0 {
        s
    } else {
        let head = closed_up(s.drop_last(), c);
        if s.last() == c && s.len() > 1 && s[s.len() - 2] == ' ' {
            head.drop_last().push(c)
        } else {
            head.push(s.last())
        }
    }
}

/// The text with its whitespace and punctuation cleaned up.
pub open spec fn cleaned(s: Seq<char>) -> Seq<char> {
    text::trimmed(closed_up(closed_up(closed_up(closed_up(collapsed(s), '.'), ','), '?'), '!'))
}

/// What polishing makes of a text.
pub open spec fn polished(s: Seq<char>) -> Seq<char> {
    cleaned(styled(s, RULES as int))
}

/// The text with every run of spaces made one space.
fn collapse(s: &str) -> (r: String)
    ensures
        r@ == collapsed(s@),
{
    let v = text::chars_of(s);
    let mut out: Vec<char> = Vec::new();
    let mut i: usize = 0;
    assert(s@.take(0) =~= Seq::<char>::empty());
    while i < v.len()
        invariant
            0 <= i <= v@.len(),
            v@ == s@,
            out@ == collapsed(s@.take(i as int)),
        decreases v@.len() - i,
    {
        assert(s@.take(i + 1).drop_last() =~= s@.take(i as int));
        if !(v[i] == ' ' && out.len() > 0 && out[out.len() - 1] == ' ') {
            out.push(v[i]);
        }
        i = i + 1;
    }
    assert(s@.take(s@.len() as int) =~= s@);
    assert(out@.subrange(0, out@.len() as int) =~= out@);
    text::string_of(&out, 0, out.len())
}

/// The last character stays, unless a space goes before it.
proof fn lemma_closed_up_last(s: Seq<char>, c: char)
    requires
        c != ' ',
    ensures
        s.len() > 0 ==> closed_up(s, c).len() > 0 && closed_up(s, c).last() == s.last(),
    decreases s.len(),
{
    if s.len() > 0 {
        lemma_closed_up_last(s.drop_last(), c);
    }
}

/// The text without the spaces that stand right before `c`.
fn close_up(s: &str, c: char) -> (r: String)
    requires
        c != ' ',
    ensures
        r@ == closed_up(s@, c),
{
    let v = text::chars_of(s);
    let mut out: Vec<char> = Vec::new();
    let mut i: usize = 0;
    assert(s@.take(0) =~= Seq::<char>::empty());
    while i < v.len()
        invariant
            0 <= i <= v@.len(),
            v@ == s@,
            c != ' ',
            out@ == closed_up(s@.take(i as int), c),
        decreases v@.len() - i,
    {
        proof {
            assert(s@.take(i + 1).drop_last() =~= s@.take(i as int));
            lemma_closed_up_last(s@.take(i as int), c);
            if i > 0 {
                assert(s@.take(i + 1)[i - 1] == v@[i - 1]);
            }
        }
        if v[i] == c && i > 0 && v[i - 1] == ' ' {
            out.pop();
        }
        out.push(v[i]);
        i = i + 1;
    }
    assert(s@.take(s@.len() as int) =~= s@);
    assert(out@.subrange(0, out@.len() as int) =~= out@);
    text::string_of(&out, 0, out.len())
}

/// Polishes an English text.
pub fn polish(en: &str) -> (r: String)
    ensures
        r@ == polished(en@),
{
    let mut s = text::copy_of(en);
    let mut i: usize = 0;
    while i < RULES
        invariant
            0 <= i <= RULES,
            s@ == styled(en@, i as int),
        decreases RULES - i,
    {
        let (from, to) = rule_at(i);
        proof {
            lemma_phrases_not_empty(i);
        }
        s = replace_word(s.as_str(), from, to);
        i = i + 1;
    }
    let s = collapse(s.as_str());
    let s = close_up(s.as_str(), '.');
    let s = close_up(s.as_str(), ',');
    let s = close_up(s.as_str(), '?');
    let s = close_up(s.as_str(), '!');
    text::trim(s.as_str())
}

/// Whether `b` stands right behind `a` somewhere.
pub open spec fn holds_pair(s: Seq<char>, a: char, b: char) -> bool {
    exists|i: int| 0 <= i && i + 1 < s.len() && #[trigger] s[i] == a && s[i + 1] == b
}

proof fn lemma_pair_push(s: Seq<char>, x: char, a: char, b: char)
    ensures
        holds_pair(s.push(x), a, b) <==> holds_pair(s, a, b) || (s.len() > 0 && s.last() == a && x == b),
{
    let t = s.push(x);
    if holds_pair(t, a, b) {
        let i = choose|i: int| 0 <= i && i + 1 < t.len() && #[trigger] t[i] == a && t[i + 1] == b;
        if i + 1 < s.len() {
            assert(s[i] == a && s[i + 1] == b);
        }
    }
    if holds_pair(s, a, b) {
        let i = choose|i: int| 0 <= i && i + 1 < s.len() && #[trigger] s[i] == a && s[i + 1] == b;
        assert(t[i] == a && t[i + 1] == b);
    }
    if s.len() > 0 && s.last() == a && x == b {
        assert(t[s.len() - 1] == a && t[s.len() - 1 + 1] == b);
    }
}

proof fn lemma_collapsed(s: Seq<char>)
    ensures
        !holds_pair(collapsed(s), ' ', ' '),
        s.len() > 0 ==> collapsed(s).len() > 0 && collapsed(s).last() == s.last(),
    decreases s.len(),
{
    if s.len() > 0 {
        lemma_collapsed(s.drop_last());
        lemma_pair_push(collapsed(s.drop_last()), s.last(), ' ', ' ');
    }
}

/// Closing up leaves no space before the character, brings no two spaces
/// together, and puts no space before another character.
proof fn lemma_closed_up(s: Seq<char>, c: char, b: char)
    requires
        c != ' ',
        !holds_pair(s, ' ', ' '),
    ensures
        !holds_pair(closed_up(s, c), ' ', c),
        !holds_pair(closed_up(s, c), ' ', ' '),
        !holds_pair(s, ' ', b) ==> !holds_pair(closed_up(s, c), ' ', b),
    decreases s.len(),
{
    if s.len() > 0 {
        let t = s.drop_last();
        assert(t.push(s.last()) =~= s);
        lemma_pair_push(t, s.last(), ' ', ' ');
        lemma_pair_push(t, s.last(), ' ', b);
        lemma_closed_up(t, c, b);
        lemma_closed_up_last(t, c);
        let head = closed_up(t, c);
        if s.last() == c && s.len() > 1 && s[s.len() - 2] == ' ' {
            assert(t.last() == ' ');
            let h = head.drop_last();
            assert(h.push(' ') =~= head);
            lemma_pair_push(h, ' ', ' ', ' ');
            lemma_pair_push(h, ' ', ' ', c);
            lemma_pair_push(h, ' ', ' ', b);
            lemma_pair_push(h, c, ' ', c);
            lemma_pair_push(h, c, ' ', ' ');
            lemma_pair_push(h, c, ' ', b);
        } else {
            if s.len() > 1 {
                assert(t.last() == s[s.len() - 2]);
            }
            lemma_pair_push(head, s.last(), ' ', c);
            lemma_pair_push(head, s.last(), ' ', ' ');
            lemma_pair_push(head, s.last(), ' ', b);
        }
    }
}

/// Trimming brings no two characters together.
proof fn lemma_trimmed_pair(s: Seq<char>, a: char, b: char)
    requires
        !holds_pair(s, a, b),
    ensures
        !holds_pair(text::trimmed(s), a, b),
    decreases s.len(),
{
    if s.len() > 0 && text::is_space(s[0]) {
        let t = s.drop_first();
        if holds_pair(t, a, b) {
            let i = choose|i: int| 0 <= i && i + 1 < t.len() && #[trigger] t[i] == a && t[i + 1] == b;
            assert(s[i + 1] == a && s[i + 1 + 1] == b);
        }
        lemma_trimmed_pair(t, a, b);
    } else if s.len() > 0 && text::is_space(s.last()) {
        let t = s.drop_last();
        if holds_pair(t, a, b) {
            let i = choose|i: int| 0 <= i && i + 1 < t.len() && #[trigger] t[i] == a && t[i + 1] == b;
            assert(s[i] == a && s[i + 1] == b);
        }
        lemma_trimmed_pair(t, a, b);
    }
}

/// A polished text has no two spaces in a row, no space before a full stop, a
/// comma, a question mark or an exclamation mark, and no white space at its
/// ends.
pub proof fn law_polished_text_is_clean(s: Seq<char>)
    ensures
        !holds_pair(polished(s), ' ', ' '),
        !holds_pair(polished(s), ' ', '.'),
        !holds_pair(polished(s), ' ', ','),
        !holds_pair(polished(s), ' ', '?'),
        !holds_pair(polished(s), ' ', '!'),
        polished(s).len() > 0 ==> !text::is_space(polished(s)[0]) && !text::is_space(polished(s).last()),
{
    let a = collapsed(styled(s, RULES as int));
    lemma_collapsed(styled(s, RULES as int));
    let b = closed_up(a, '.');
    lemma_closed_up(a, '.', '.');
    let c = closed_up(b, ',');
    lemma_closed_up(b, ',', '.');
    let d = closed_up(c, '?');
    lemma_closed_up(c, '?', '.');
    lemma_closed_up(c, '?', ',');
    let e = closed_up(d, '!');
    lemma_closed_up(d, '!', '.');
    lemma_closed_up(d, '!', ',');
    lemma_closed_up(d, '!', '?');
    lemma_trimmed_pair(e, ' ', ' ');
    lemma_trimmed_pair(e, ' ', '.');
    lemma_trimmed_pair(e, ' ', ',');
    lemma_trimmed_pair(e, ' ', '?');
    lemma_trimmed_pair(e, ' ', '!');
    text::lemma_trimmed(e);
}

// ---------------------------------------------------------------------------
// What polishing keeps
// ---------------------------------------------------------------------------

/// A text without its white space.
pub open spec fn inked(s: Seq<char>) -> Seq<char>
    decreases s.len(),
{
    if s.len() == 0 {
        s
    } else if text::is_space(s.last()) {
        inked(s.drop_last())
    } else {
        inked(s.drop_last()).push(s.last())
    }
}

proof fn lemma_inked_concat(a: Seq<char>, b: Seq<char>)
    ensures
        inked(a + b) == inked(a) + inked(b),
    decreases b.len(),
{
    if b.len() == 0 {
        assert(a + b =~= a);
        assert(inked(a) + inked(b) =~= inked(a));
    } else {
        lemma_inked_concat(a, b.drop_last());
        assert((a + b).drop_last() =~= a + b.drop_last());
        assert((a + b).last() == b.last());
        assert(inked(a + b) =~= inked(a) + inked(b));
    }
}

proof fn lemma_inked_blank(s: Seq<char>)
    requires
        forall|i: int| 0 <= i < s.len() ==> text::is_space(#[trigger] s[i]),
    ensures
        inked(s) == Seq::<char>::empty(),
    decreases s.len(),
{
    if s.len() > 0 {
        let t = s.drop_last();
        assert forall|i: int| 0 <= i < t.len() implies text::is_space(#[trigger] t[i]) by {
            assert(t[i] == s[i]);
        }
        lemma_inked_blank(t);
        assert(text::is_space(s[s.len() - 1]));
    }
}

proof fn lemma_inked_trimmed(s: Seq<char>)
    ensures
        inked(text::trimmed(s)) == inked(s),
{
    let (i, j) = text::law_trimming_takes_white_space_only(s);
    let a = s.subrange(0, i);
    let b = s.subrange(i, j);
    let c = s.subrange(j, s.len() as int);
    assert forall|k: int| 0 <= k < a.len() implies text::is_space(#[trigger] a[k]) by {
        assert(a[k] == s[k]);
    }
    assert forall|k: int| 0 <= k < c.len() implies text::is_space(#[trigger] c[k]) by {
        assert(c[k] == s[j + k]);
    }
    lemma_inked_blank(a);
    lemma_inked_blank(c);
    lemma_inked_concat(a, b);
    lemma_inked_concat(a + b, c);
    assert(a + b + c =~= s);
    assert(inked(a) + inked(b) + inked(c) =~= inked(b));
}

proof fn lemma_inked_collapsed(s: Seq<char>)
    ensures
        inked(collapsed(s)) == inked(s),
    decreases s.len(),
{
    if s.len() > 0 {
        lemma_inked_collapsed(s.drop_last());
        let head = collapsed(s.drop_last());
        assert(head.push(s.last()).drop_last() =~= head);
    }
}

proof fn lemma_inked_closed_up(s: Seq<char>, c: char)
    requires
        c != ' ',
    ensures
        inked(closed_up(s, c)) == inked(s),
    decreases s.len(),
{
    if s.len() > 0 {
        let t = s.drop_last();
        let head = closed_up(t, c);
        lemma_inked_closed_up(t, c);
        lemma_closed_up_last(t, c);
        if s.last() == c && s.len() > 1 && s[s.len() - 2] == ' ' {
            assert(t.last() == ' ');
            assert(inked(head) == inked(head.drop_last()));
            assert(head.drop_last().push(c).drop_last() =~= head.drop_last());
        } else {
            assert(head.push(s.last()).drop_last() =~= head);
        }
    }
}

/// Cleaning up takes white space and nothing else: all other characters stay,
/// in order and in number.
pub proof fn law_cleaning_takes_white_space_only(s: Seq<char>)
    ensures
        inked(cleaned(s)) == inked(s),
        inked(polished(s)) == inked(styled(s, RULES as int)),
{
    lemma_inked_cleaned(s);
    lemma_inked_cleaned(styled(s, RULES as int));
}

proof fn lemma_inked_cleaned(s: Seq<char>)
    ensures
        inked(cleaned(s)) == inked(s),
{
    let a = collapsed(s);
    let b = closed_up(a, '.');
    let c = closed_up(b, ',');
    let d = closed_up(c, '?');
    lemma_inked_collapsed(s);
    lemma_inked_closed_up(a, '.');
    lemma_inked_closed_up(b, ',');
    lemma_inked_closed_up(c, '?');
    lemma_inked_closed_up(d, '!');
    lemma_inked_trimmed(closed_up(d, '!'));
}

/// Whether a text has no two spaces in a row, no space before a mark, and no
/// white space at its ends.
pub open spec fn is_tidy(s: Seq<char>) -> bool {
    &&& forall|i: int| 0 <= i < s.len() - 1 && #[trigger] s[i] == ' ' ==> s[i + 1] != ' ' && s[i + 1] != '.' && s[i + 1] != ','
        && s[i + 1] != '?' && s[i + 1] != '!'
    &&& s.len() > 0 ==> !text::is_space(s[0]) && !text::is_space(s.last())
}

proof fn lemma_collapsed_fixed(s: Seq<char>)
    requires
        forall|i: int| 0 <= i < s.len() - 1 && #[trigger] s[i] == ' ' ==> s[i + 1] != ' ',
    ensures
        collapsed(s) == s,
    decreases s.len(),
{
    if s.len() > 0 {
        let t = s.drop_last();
        assert forall|i: int| 0 <= i < t.len() - 1 && #[trigger] t[i] == ' ' implies t[i + 1] != ' ' by {
            assert(s[i] == t[i]);
        }
        lemma_collapsed_fixed(t);
        if t.len() > 0 {
            assert(t.last() == s[s.len() - 2]);
        }
        assert(t.push(s.last()) =~= s);
    }
}

proof fn lemma_closed_up_fixed(s: Seq<char>, c: char)
    requires
        forall|i: int| 0 <= i < s.len() - 1 && #[trigger] s[i] == ' ' ==> s[i + 1] != c,
    ensures
        closed_up(s, c) == s,
    decreases s.len(),
{
    if s.len() > 0 {
        let t = s.drop_last();
        assert forall|i: int| 0 <= i < t.len() - 1 && #[trigger] t[i] == ' ' implies t[i + 1] != c by {
            assert(s[i] == t[i]);
        }
        lemma_closed_up_fixed(t, c);
        assert(t.push(s.last()) =~= s);
    }
}

/// A tidy text in which no phrase of the rules stands is left as it is.
pub proof fn law_tidy_text_is_left_alone(s: Seq<char>)
    requires
        is_tidy(s),
    ensures
        cleaned(s) == s,
        (forall|i: usize| 0 <= i < RULES ==> text::find(s, (#[trigger] rule(i)).0) is None) ==> polished(s) == s,
{
    lemma_collapsed_fixed(s);
    lemma_closed_up_fixed(s, '.');
    lemma_closed_up_fixed(s, ',');
    lemma_closed_up_fixed(s, '?');
    lemma_closed_up_fixed(s, '!');
    text::lemma_trimmed(s);
    if forall|i: usize| 0 <= i < RULES ==> text::find(s, (#[trigger] rule(i)).0) is None {
        law_text_without_phrases_keeps_its_words(s, RULES as int);
    }
}

/// One space is as good as two: how many there are between two words makes no
/// difference to a cleaned text.
pub proof fn law_two_spaces_are_one(a: Seq<char>, b: Seq<char>)
    ensures
        cleaned(a + seq![' ', ' '] + b) == cleaned(a + seq![' '] + b),
{
    lemma_two_spaces(a, b);
}

proof fn lemma_two_spaces(a: Seq<char>, b: Seq<char>)
    ensures
        collapsed(a + seq![' ', ' '] + b) == collapsed(a + seq![' '] + b),
    decreases b.len(),
{
    let x = a + seq![' ', ' '] + b;
    let y = a + seq![' '] + b;
    if b.len() == 0 {
        assert(x.drop_last() =~= y);
        assert(x.last() == ' ' && y.last() == ' ');
        lemma_collapsed(y);
    } else {
        lemma_two_spaces(a, b.drop_last());
        assert(x.drop_last() =~= a + seq![' ', ' '] + b.drop_last());
        assert(y.drop_last() =~= a + seq![' '] + b.drop_last());
        assert(x.last() == b.last() && y.last() == b.last());
    }
}

/// A text that starts without a space is collapsed by itself.
proof fn lemma_collapsed_concat(a: Seq<char>, b: Seq<char>)
    requires
        b.len() > 0,
        b[0] != ' ',
    ensures
        collapsed(a + b) == collapsed(a) + collapsed(b),
        collapsed(b).len() > 0 && collapsed(b)[0] == b[0],
    decreases b.len(),
{
    let s = a + b;
    assert(s.drop_last() =~= a + b.drop_last());
    assert(s.last() == b.last());
    if b.len() == 1 {
        assert(b.drop_last() =~= Seq::<char>::empty());
        assert(a + b.drop_last() =~= a);
        assert(collapsed(b.drop_last()) =~= Seq::<char>::empty());
        assert(collapsed(b) =~= b);
        assert(collapsed(s) =~= collapsed(a) + collapsed(b));
    } else {
        lemma_collapsed_concat(a, b.drop_last());
        lemma_collapsed(b.drop_last());
        let h = collapsed(b.drop_last());
        assert((collapsed(a) + h).last() == h.last());
        assert((collapsed(a) + h).push(b.last()) =~= collapsed(a) + h.push(b.last()));
    }
}

/// Closing up works on two texts by themselves, unless a space meets the mark.
proof fn lemma_closed_up_concat(a: Seq<char>, b: Seq<char>, c: char)
    requires
        c != ' ',
        b.len() > 0,
        !(b[0] == c && a.len() > 0 && a.last() == ' '),
        b[0] != ' ',
    ensures
        closed_up(a + b, c) == closed_up(a, c) + closed_up(b, c),
        closed_up(b, c).len() > 0 && closed_up(b, c)[0] == b[0],
    decreases b.len(),
{
    let s = a + b;
    assert(s.drop_last() =~= a + b.drop_last());
    assert(s.last() == b.last());
    if b.len() == 1 {
        assert(b.drop_last() =~= Seq::<char>::empty());
        assert(a + b.drop_last() =~= a);
        if a.len() > 0 {
            assert(s[s.len() - 2] == a.last());
        }
        assert(closed_up(b.drop_last(), c) =~= Seq::<char>::empty());
        assert(closed_up(b, c) =~= b);
        assert(closed_up(s, c) =~= closed_up(a, c) + closed_up(b, c));
    } else {
        let t = b.drop_last();
        lemma_closed_up_concat(a, t, c);
        lemma_closed_up_last(t, c);
        let h = closed_up(t, c);
        assert(s[s.len() - 2] == b[b.len() - 2]);
        if b.last() == c && b[b.len() - 2] == ' ' {
            assert(t.last() == ' ');
            assert(h.len() > 1) by {
                if h.len() == 1 {
                    assert(h[0] == h.last());
                }
            }
            assert((closed_up(a, c) + h).drop_last().push(c) =~= closed_up(a, c) + h.drop_last().push(c));
        } else {
            assert((closed_up(a, c) + h).push(b.last()) =~= closed_up(a, c) + h.push(b.last()));
        }
    }
}

/// Closing up the mark takes the space before it.
proof fn lemma_closed_up_space(a: Seq<char>, b: Seq<char>, c: char)
    requires
        c != ' ',
        b.len() > 0,
        b[0] == c,
        a.len() == 0 || a.last() != ' ',
    ensures
        closed_up(a.push(' ') + b, c) == closed_up(a + b, c),
    decreases b.len(),
{
    let x = a.push(' ') + b;
    let y = a + b;
    assert(x.last() == b.last() && y.last() == b.last());
    if b.len() == 1 {
        assert(x.drop_last() =~= a.push(' '));
        assert(y.drop_last() =~= a);
        assert(a.push(' ').drop_last() =~= a);
        assert(x[x.len() - 2] == ' ');
        if a.len() > 0 {
            assert(y[y.len() - 2] == a.last());
        }
        assert(closed_up(a.push(' '), c) == closed_up(a, c).push(' '));
        assert(closed_up(a, c).push(' ').drop_last() =~= closed_up(a, c));
    } else {
        lemma_closed_up_space(a, b.drop_last(), c);
        assert(x.drop_last() =~= a.push(' ') + b.drop_last());
        assert(y.drop_last() =~= a + b.drop_last());
        assert(x[x.len() - 2] == b[b.len() - 2] && y[y.len() - 2] == b[b.len() - 2]);
    }
}

/// Closing up another mark leaves a space before a mark where it is.
proof fn lemma_closed_up_other(a: Seq<char>, b: Seq<char>, c: char, p: char) -> (r: (Seq<char>, Seq<char>))
    requires
        c != ' ' && p != ' ' && c != p,
        b.len() > 0,
        b[0] == p,
        a.len() == 0 || a.last() != ' ',
    ensures
        closed_up(a.push(' ') + b, c) == r.0.push(' ') + r.1,
        closed_up(a + b, c) == r.0 + r.1,
        r.1.len() > 0,
        r.1[0] == p,
        r.0.len() == 0 || r.0.last() != ' ',
{
    lemma_closed_up_concat(a.push(' '), b, c);
    lemma_closed_up_concat(a, b, c);
    lemma_closed_up_last(a, c);
    assert(a.push(' ').drop_last() =~= a);
    assert(closed_up(a.push(' '), c) == closed_up(a, c).push(' '));
    if a.len() == 0 {
        assert(closed_up(a, c) =~= a);
    }
    (closed_up(a, c), closed_up(b, c))
}

/// A space before a mark makes no difference to a cleaned text.
pub proof fn law_no_space_before_marks(a: Seq<char>, p: char, b: Seq<char>)
    requires
        p == '.' || p == ',' || p == '?' || p == '!',
    ensures
        cleaned(a + seq![' ', p] + b) == cleaned(a + seq![p] + b),
{
    let q = seq![p] + b;
    let x = a + seq![' ', p] + b;
    let y = a + seq![p] + b;
    assert(y =~= a + q);
    assert(x =~= a.push(' ') + q);
    if a.len() > 0 && a.last() == ' ' {
        let t = a.drop_last();
        assert(x =~= t + seq![' ', ' '] + q);
        assert(y =~= t + seq![' '] + q);
        lemma_two_spaces(t, q);
    } else {
        lemma_collapsed_concat(a.push(' '), q);
        lemma_collapsed_concat(a, q);
        lemma_collapsed(a);
        assert(a.push(' ').drop_last() =~= a);
        let c0 = collapsed(a);
        let d0 = collapsed(q);
        if a.len() == 0 {
            assert(c0 =~= a);
        }
        assert(collapsed(a.push(' ')) == c0.push(' '));
        if p == '.' {
            lemma_closed_up_space(c0, d0, '.');
        } else {
            let (c1, d1) = lemma_closed_up_other(c0, d0, '.', p);
            if p == ',' {
                lemma_closed_up_space(c1, d1, ',');
            } else {
                let (c2, d2) = lemma_closed_up_other(c1, d1, ',', p);
                if p == '?' {
                    lemma_closed_up_space(c2, d2, '?');
                } else {
                    let (c3, d3) = lemma_closed_up_other(c2, d2, '?', p);
                    lemma_closed_up_space(c3, d3, '!');
                }
            }
        }
    }
}

/// A phrase that stands in a text once is replaced if and only if it is a word
/// there: nothing, or no letter and no digit, stands before it, and behind it
/// nothing, or no letter, no digit and no apostrophe. What stands around it
/// stays.
pub proof fn law_phrase_is_replaced_as_a_word(a: Seq<char>, b: Seq<char>, from: Seq<char>, to: Seq<char>)
    requires
        from.len() > 0,
        forall|i: int| 0 <= i <= (a + from + b).len() - from.len() && i != a.len() ==> #[trigger] (a + from + b).subrange(
            i,
            i + from.len(),
        ) != from,
    ensures
        ({
            let free = a.len() == 0 || !unicode_alphanumeric(a.last());
            let ends = b.len() == 0 || (!unicode_alphanumeric(b[0]) && b[0] != '\'');
            replaced(a + from + b, from, to) == a + (if free && ends {
                to
            } else {
                from
            }) + b
        }),
{
    reveal_with_fuel(replaced_from, 2);
    let s = a + from + b;
    let n = a.len() as int;
    let end = n + from.len();
    text::lemma_find_from(s, from, 0);
    text::lemma_find_from(s, from, end);
    assert(s.subrange(n, end) =~= from);
    assert(text::stands_at(s, from, n));
    let f = text::find_from(s, from, 0);
    assert(f is Some);
    assert(s.subrange(f->0, f->0 + from.len()) == from);
    assert(f == Some(n));
    match text::find_from(s, from, end) {
        Some(k) => {
            assert(s.subrange(k, k + from.len()) == from);
            assert(false);
        },
        None => {},
    }
    assert(s.subrange(0, n) =~= a);
    assert(s.skip(end) =~= b);
    let free = a.len() == 0 || !unicode_alphanumeric(a.last());
    assert(free == opens_word(last_or(s.subrange(0, n), None)));
    if b.len() > 0 {
        assert(s[end] == b[0]);
    }
}

/// Whether a phrase has a rule.
pub open spec fn has_rule(from: Seq<char>, to: Seq<char>) -> bool {
    exists|i: usize| 0 <= i < RULES && #[trigger] rule(i) == (from, to)
}

/// Whether a word and what follows it contract.
pub open spec fn contracts(word: Seq<char>, rest: Seq<char>, short: Seq<char>) -> bool {
    has_rule(word + rest, word + short)
}

/// Stiff phrases are shortened.
pub proof fn law_phrases_are_shortened()
    ensures
        has_rule("As soon as possible"@, "ASAP"@),
        has_rule("as soon as possible"@, "ASAP"@),
        has_rule("In order to"@, "To"@),
        has_rule("in order to"@, "to"@),
        has_rule("a great deal of"@, "a lot of"@),
        has_rule("It is a pity that"@, "Too bad"@),
        contracts("I"@, " have been"@, "'ve been"@),
        contracts("We"@, " have been"@, "'ve been"@),
        contracts("You"@, " have been"@, "'ve been"@),
        contracts("They"@, " have been"@, "'ve been"@),
        contracts("we"@, " have been"@, "'ve been"@),
        contracts("you"@, " have been"@, "'ve been"@),
        contracts("they"@, " have been"@, "'ve been"@),
{
    reveal_strlit(" have been");
    reveal_strlit("'ve been");
    reveal_strlit("ASAP");
    reveal_strlit("As soon as possible");
    reveal_strlit("I");
    reveal_strlit("I have been");
    reveal_strlit("I've been");
    reveal_strlit("In order to");
    reveal_strlit("It is a pity that");
    reveal_strlit("They");
    reveal_strlit("They have been");
    reveal_strlit("They've been");
    reveal_strlit("To");
    reveal_strlit("Too bad");
    reveal_strlit("We");
    reveal_strlit("We have been");
    reveal_strlit("We've been");
    reveal_strlit("You");
    reveal_strlit("You have been");
    reveal_strlit("You've been");
    reveal_strlit("a great deal of");
    reveal_strlit("a lot of");
    reveal_strlit("as soon as possible");
    reveal_strlit("in order to");
    reveal_strlit("they");
    reveal_strlit("they have been");
    reveal_strlit("they've been");
    reveal_strlit("to");
    reveal_strlit("we");
    reveal_strlit("we have been");
    reveal_strlit("we've been");
    reveal_strlit("you");
    reveal_strlit("you have been");
    reveal_strlit("you've been");
    assert(rule(0) == ("As soon as possible"@, "ASAP"@));
    assert(rule(1) == ("as soon as possible"@, "ASAP"@));
    assert(rule(2) == ("In order to"@, "To"@));
    assert(rule(3) == ("in order to"@, "to"@));
    assert(rule(4) == ("a great deal of"@, "a lot of"@));
    assert(rule(5) == ("It is a pity that"@, "Too bad"@));
    assert("I"@ + " have been"@ =~= "I have been"@ && "I"@ + "'ve been"@ =~= "I've been"@);
    assert(rule(6) == ("I"@ + " have been"@, "I"@ + "'ve been"@));
    assert("We"@ + " have been"@ =~= "We have been"@ && "We"@ + "'ve been"@ =~= "We've been"@);
    assert(rule(7) == ("We"@ + " have been"@, "We"@ + "'ve been"@));
    assert("You"@ + " have been"@ =~= "You have been"@ && "You"@ + "'ve been"@ =~= "You've been"@);
    assert(rule(8) == ("You"@ + " have been"@, "You"@ + "'ve been"@));
    assert("They"@ + " have been"@ =~= "They have been"@ && "They"@ + "'ve been"@ =~= "They've been"@);
    assert(rule(9) == ("They"@ + " have been"@, "They"@ + "'ve been"@));
    assert("we"@ + " have been"@ =~= "we have been"@ && "we"@ + "'ve been"@ =~= "we've been"@);
    assert(rule(10) == ("we"@ + " have been"@, "we"@ + "'ve been"@));
    assert("you"@ + " have been"@ =~= "you have been"@ && "you"@ + "'ve been"@ =~= "you've been"@);
    assert(rule(11) == ("you"@ + " have been"@, "you"@ + "'ve been"@));
    assert("they"@ + " have been"@ =~= "they have been"@ && "they"@ + "'ve been"@ =~= "they've been"@);
    assert(rule(12) == ("they"@ + " have been"@, "they"@ + "'ve been"@));
}

/// Pronouns contract with the verb behind them.
pub proof fn law_subjects_contract()
    ensures
        contracts("I"@, " am"@, "'m"@),
        contracts("You"@, " are"@, "'re"@),
        contracts("you"@, " are"@, "'re"@),
        contracts("We"@, " are"@, "'re"@),
        contracts("we"@, " are"@, "'re"@),
        contracts("They"@, " are"@, "'re"@),
        contracts("they"@, " are"@, "'re"@),
        contracts("He"@, " is"@, "'s"@),
        contracts("he"@, " is"@, "'s"@),
        contracts("She"@, " is"@, "'s"@),
        contracts("she"@, " is"@, "'s"@),
        contracts("It"@, " is"@, "'s"@),
        contracts("it"@, " is"@, "'s"@),
        contracts("That"@, " is"@, "'s"@),
        contracts("that"@, " is"@, "'s"@),
        contracts("There"@, " is"@, "'s"@),
        contracts("there"@, " is"@, "'s"@),
        contracts("What"@, " is"@, "'s"@),
        contracts("what"@, " is"@, "'s"@),
        contracts("I"@, " will"@, "'ll"@),
        contracts("We"@, " will"@, "'ll"@),
        contracts("we"@, " will"@, "'ll"@),
        contracts("You"@, " will"@, "'ll"@),
        contracts("you"@, " will"@, "'ll"@),
        contracts("They"@, " will"@, "'ll"@),
        contracts("they"@, " will"@, "'ll"@),
        contracts("He"@, " will"@, "'ll"@),
        contracts("he"@, " will"@, "'ll"@),
        contracts("She"@, " will"@, "'ll"@),
        contracts("she"@, " will"@, "'ll"@),
        contracts("It"@, " will"@, "'ll"@),
        contracts("it"@, " will"@, "'ll"@),
        contracts("I"@, " would"@, "'d"@),
        contracts("We"@, " would"@, "'d"@),
        contracts("we"@, " would"@, "'d"@),
{
    reveal_strlit(" am");
    reveal_strlit(" are");
    reveal_strlit(" is");
    reveal_strlit(" will");
    reveal_strlit(" would");
    reveal_strlit("'d");
    reveal_strlit("'ll");
    reveal_strlit("'m");
    reveal_strlit("'re");
    reveal_strlit("'s");
    reveal_strlit("He");
    reveal_strlit("He is");
    reveal_strlit("He will");
    reveal_strlit("He'll");
    reveal_strlit("He's");
    reveal_strlit("I");
    reveal_strlit("I am");
    reveal_strlit("I will");
    reveal_strlit("I would");
    reveal_strlit("I'd");
    reveal_strlit("I'll");
    reveal_strlit("I'm");
    reveal_strlit("It");
    reveal_strlit("It is");
    reveal_strlit("It will");
    reveal_strlit("It'll");
    reveal_strlit("It's");
    reveal_strlit("She");
    reveal_strlit("She is");
    reveal_strlit("She will");
    reveal_strlit("She'll");
    reveal_strlit("She's");
    reveal_strlit("That");
    reveal_strlit("That is");
    reveal_strlit("That's");
    reveal_strlit("There");
    reveal_strlit("There is");
    reveal_strlit("There's");
    reveal_strlit("They");
    reveal_strlit("They are");
    reveal_strlit("They will");
    reveal_strlit("They'll");
    reveal_strlit("They're");
    reveal_strlit("We");
    reveal_strlit("We are");
    reveal_strlit("We will");
    reveal_strlit("We would");
    reveal_strlit("We'd");
    reveal_strlit("We'll");
    reveal_strlit("We're");
    reveal_strlit("What");
    reveal_strlit("What is");
    reveal_strlit("What's");
    reveal_strlit("You");
    reveal_strlit("You are");
    reveal_strlit("You will");
    reveal_strlit("You'll");
    reveal_strlit("You're");
    reveal_strlit("he");
    reveal_strlit("he is");
    reveal_strlit("he will");
    reveal_strlit("he'll");
    reveal_strlit("he's");
    reveal_strlit("it");
    reveal_strlit("it is");
    reveal_strlit("it will");
    reveal_strlit("it'll");
    reveal_strlit("it's");
    reveal_strlit("she");
    reveal_strlit("she is");
    reveal_strlit("she will");
    reveal_strlit("she'll");
    reveal_strlit("she's");
    reveal_strlit("that");
    reveal_strlit("that is");
    reveal_strlit("that's");
    reveal_strlit("there");
    reveal_strlit("there is");
    reveal_strlit("there's");
    reveal_strlit("they");
    reveal_strlit("they are");
    reveal_strlit("they will");
    reveal_strlit("they'll");
    reveal_strlit("they're");
    reveal_strlit("we");
    reveal_strlit("we are");
    reveal_strlit("we will");
    reveal_strlit("we would");
    reveal_strlit("we'd");
    reveal_strlit("we'll");
    reveal_strlit("we're");
    reveal_strlit("what");
    reveal_strlit("what is");
    reveal_strlit("what's");
    reveal_strlit("you");
    reveal_strlit("you are");
    reveal_strlit("you will");
    reveal_strlit("you'll");
    reveal_strlit("you're");
    assert("I"@ + " am"@ =~= "I am"@ && "I"@ + "'m"@ =~= "I'm"@);
    assert(rule(13) == ("I"@ + " am"@, "I"@ + "'m"@));
    assert("You"@ + " are"@ =~= "You are"@ && "You"@ + "'re"@ =~= "You're"@);
    assert(rule(14) == ("You"@ + " are"@, "You"@ + "'re"@));
    assert("you"@ + " are"@ =~= "you are"@ && "you"@ + "'re"@ =~= "you're"@);
    assert(rule(15) == ("you"@ + " are"@, "you"@ + "'re"@));
    assert("We"@ + " are"@ =~= "We are"@ && "We"@ + "'re"@ =~= "We're"@);
    assert(rule(16) == ("We"@ + " are"@, "We"@ + "'re"@));
    assert("we"@ + " are"@ =~= "we are"@ && "we"@ + "'re"@ =~= "we're"@);
    assert(rule(17) == ("we"@ + " are"@, "we"@ + "'re"@));
    assert("They"@ + " are"@ =~= "They are"@ && "They"@ + "'re"@ =~= "They're"@);
    assert(rule(18) == ("They"@ + " are"@, "They"@ + "'re"@));
    assert("they"@ + " are"@ =~= "they are"@ && "they"@ + "'re"@ =~= "they're"@);
    assert(rule(19) == ("they"@ + " are"@, "they"@ + "'re"@));
    assert("He"@ + " is"@ =~= "He is"@ && "He"@ + "'s"@ =~= "He's"@);
    assert(rule(20) == ("He"@ + " is"@, "He"@ + "'s"@));
    assert("he"@ + " is"@ =~= "he is"@ && "he"@ + "'s"@ =~= "he's"@);
    assert(rule(21) == ("he"@ + " is"@, "he"@ + "'s"@));
    assert("She"@ + " is"@ =~= "She is"@ && "She"@ + "'s"@ =~= "She's"@);
    assert(rule(22) == ("She"@ + " is"@, "She"@ + "'s"@));
    assert("she"@ + " is"@ =~= "she is"@ && "she"@ + "'s"@ =~= "she's"@);
    assert(rule(23) == ("she"@ + " is"@, "she"@ + "'s"@));
    assert("It"@ + " is"@ =~= "It is"@ && "It"@ + "'s"@ =~= "It's"@);
    assert(rule(24) == ("It"@ + " is"@, "It"@ + "'s"@));
    assert("it"@ + " is"@ =~= "it is"@ && "it"@ + "'s"@ =~= "it's"@);
    assert(rule(25) == ("it"@ + " is"@, "it"@ + "'s"@));
    assert("That"@ + " is"@ =~= "That is"@ && "That"@ + "'s"@ =~= "That's"@);
    assert(rule(26) == ("That"@ + " is"@, "That"@ + "'s"@));
    assert("that"@ + " is"@ =~= "that is"@ && "that"@ + "'s"@ =~= "that's"@);
    assert(rule(27) == ("that"@ + " is"@, "that"@ + "'s"@));
    assert("There"@ + " is"@ =~= "There is"@ && "There"@ + "'s"@ =~= "There's"@);
    assert(rule(28) == ("There"@ + " is"@, "There"@ + "'s"@));
    assert("there"@ + " is"@ =~= "there is"@ && "there"@ + "'s"@ =~= "there's"@);
    assert(rule(29) == ("there"@ + " is"@, "there"@ + "'s"@));
    assert("What"@ + " is"@ =~= "What is"@ && "What"@ + "'s"@ =~= "What's"@);
    assert(rule(30) == ("What"@ + " is"@, "What"@ + "'s"@));
    assert("what"@ + " is"@ =~= "what is"@ && "what"@ + "'s"@ =~= "what's"@);
    assert(rule(31) == ("what"@ + " is"@, "what"@ + "'s"@));
    assert("I"@ + " will"@ =~= "I will"@ && "I"@ + "'ll"@ =~= "I'll"@);
    assert(rule(32) == ("I"@ + " will"@, "I"@ + "'ll"@));
    assert("We"@ + " will"@ =~= "We will"@ && "We"@ + "'ll"@ =~= "We'll"@);
    assert(rule(33) == ("We"@ + " will"@, "We"@ + "'ll"@));
    assert("we"@ + " will"@ =~= "we will"@ && "we"@ + "'ll"@ =~= "we'll"@);
    assert(rule(34) == ("we"@ + " will"@, "we"@ + "'ll"@));
    assert("You"@ + " will"@ =~= "You will"@ && "You"@ + "'ll"@ =~= "You'll"@);
    assert(rule(35) == ("You"@ + " will"@, "You"@ + "'ll"@));
    assert("you"@ + " will"@ =~= "you will"@ && "you"@ + "'ll"@ =~= "you'll"@);
    assert(rule(36) == ("you"@ + " will"@, "you"@ + "'ll"@));
    assert("They"@ + " will"@ =~= "They will"@ && "They"@ + "'ll"@ =~= "They'll"@);
    assert(rule(37) == ("They"@ + " will"@, "They"@ + "'ll"@));
    assert("they"@ + " will"@ =~= "they will"@ && "they"@ + "'ll"@ =~= "they'll"@);
    assert(rule(38) == ("they"@ + " will"@, "they"@ + "'ll"@));
    assert("He"@ + " will"@ =~= "He will"@ && "He"@ + "'ll"@ =~= "He'll"@);
    assert(rule(39) == ("He"@ + " will"@, "He"@ + "'ll"@));
    assert("he"@ + " will"@ =~= "he will"@ && "he"@ + "'ll"@ =~= "he'll"@);
    assert(rule(40) == ("he"@ + " will"@, "he"@ + "'ll"@));
    assert("She"@ + " will"@ =~= "She will"@ && "She"@ + "'ll"@ =~= "She'll"@);
    assert(rule(41) == ("She"@ + " will"@, "She"@ + "'ll"@));
    assert("she"@ + " will"@ =~= "she will"@ && "she"@ + "'ll"@ =~= "she'll"@);
    assert(rule(42) == ("she"@ + " will"@, "she"@ + "'ll"@));
    assert("It"@ + " will"@ =~= "It will"@ && "It"@ + "'ll"@ =~= "It'll"@);
    assert(rule(43) == ("It"@ + " will"@, "It"@ + "'ll"@));
    assert("it"@ + " will"@ =~= "it will"@ && "it"@ + "'ll"@ =~= "it'll"@);
    assert(rule(44) == ("it"@ + " will"@, "it"@ + "'ll"@));
    assert("I"@ + " would"@ =~= "I would"@ && "I"@ + "'d"@ =~= "I'd"@);
    assert(rule(45) == ("I"@ + " would"@, "I"@ + "'d"@));
    assert("We"@ + " would"@ =~= "We would"@ && "We"@ + "'d"@ =~= "We'd"@);
    assert(rule(46) == ("We"@ + " would"@, "We"@ + "'d"@));
    assert("we"@ + " would"@ =~= "we would"@ && "we"@ + "'d"@ =~= "we'd"@);
    assert(rule(47) == ("we"@ + " would"@, "we"@ + "'d"@));
}

/// Verbs contract with a "not" behind them.
pub proof fn law_negations_contract()
    ensures
        contracts("Do"@, " not"@, "n't"@),
        contracts("do"@, " not"@, "n't"@),
        contracts("Does"@, " not"@, "n't"@),
        contracts("does"@, " not"@, "n't"@),
        contracts("Did"@, " not"@, "n't"@),
        contracts("did"@, " not"@, "n't"@),
        contracts("Can"@, "not"@, "'t"@),
        contracts("can"@, "not"@, "'t"@),
        contracts("Can"@, " not"@, "'t"@),
        contracts("can"@, " not"@, "'t"@),
        has_rule("Will not"@, "Won't"@),
        has_rule("will not"@, "won't"@),
        contracts("Is"@, " not"@, "n't"@),
        contracts("is"@, " not"@, "n't"@),
        contracts("Are"@, " not"@, "n't"@),
        contracts("are"@, " not"@, "n't"@),
        contracts("Was"@, " not"@, "n't"@),
        contracts("was"@, " not"@, "n't"@),
        contracts("Were"@, " not"@, "n't"@),
        contracts("were"@, " not"@, "n't"@),
        contracts("Would"@, " not"@, "n't"@),
        contracts("would"@, " not"@, "n't"@),
        contracts("Should"@, " not"@, "n't"@),
        contracts("should"@, " not"@, "n't"@),
        contracts("Could"@, " not"@, "n't"@),
        contracts("could"@, " not"@, "n't"@),
        contracts("Have"@, " not"@, "n't"@),
        contracts("have"@, " not"@, "n't"@),
        contracts("Has"@, " not"@, "n't"@),
        contracts("has"@, " not"@, "n't"@),
{
    reveal_strlit(" not");
    reveal_strlit("'t");
    reveal_strlit("Are");
    reveal_strlit("Are not");
    reveal_strlit("Aren't");
    reveal_strlit("Can");
    reveal_strlit("Can not");
    reveal_strlit("Can't");
    reveal_strlit("Cannot");
    reveal_strlit("Could");
    reveal_strlit("Could not");
    reveal_strlit("Couldn't");
    reveal_strlit("Did");
    reveal_strlit("Did not");
    reveal_strlit("Didn't");
    reveal_strlit("Do");
    reveal_strlit("Do not");
    reveal_strlit("Does");
    reveal_strlit("Does not");
    reveal_strlit("Doesn't");
    reveal_strlit("Don't");
    reveal_strlit("Has");
    reveal_strlit("Has not");
    reveal_strlit("Hasn't");
    reveal_strlit("Have");
    reveal_strlit("Have not");
    reveal_strlit("Haven't");
    reveal_strlit("Is");
    reveal_strlit("Is not");
    reveal_strlit("Isn't");
    reveal_strlit("Should");
    reveal_strlit("Should not");
    reveal_strlit("Shouldn't");
    reveal_strlit("Was");
    reveal_strlit("Was not");
    reveal_strlit("Wasn't");
    reveal_strlit("Were");
    reveal_strlit("Were not");
    reveal_strlit("Weren't");
    reveal_strlit("Will not");
    reveal_strlit("Won't");
    reveal_strlit("Would");
    reveal_strlit("Would not");
    reveal_strlit("Wouldn't");
    reveal_strlit("are");
    reveal_strlit("are not");
    reveal_strlit("aren't");
    reveal_strlit("can");
    reveal_strlit("can not");
    reveal_strlit("can't");
    reveal_strlit("cannot");
    reveal_strlit("could");
    reveal_strlit("could not");
    reveal_strlit("couldn't");
    reveal_strlit("did");
    reveal_strlit("did not");
    reveal_strlit("didn't");
    reveal_strlit("do");
    reveal_strlit("do not");
    reveal_strlit("does");
    reveal_strlit("does not");
    reveal_strlit("doesn't");
    reveal_strlit("don't");
    reveal_strlit("has");
    reveal_strlit("has not");
    reveal_strlit("hasn't");
    reveal_strlit("have");
    reveal_strlit("have not");
    reveal_strlit("haven't");
    reveal_strlit("is");
    reveal_strlit("is not");
    reveal_strlit("isn't");
    reveal_strlit("n't");
    reveal_strlit("not");
    reveal_strlit("should");
    reveal_strlit("should not");
    reveal_strlit("shouldn't");
    reveal_strlit("was");
    reveal_strlit("was not");
    reveal_strlit("wasn't");
    reveal_strlit("were");
    reveal_strlit("were not");
    reveal_strlit("weren't");
    reveal_strlit("will not");
    reveal_strlit("won't");
    reveal_strlit("would");
    reveal_strlit("would not");
    reveal_strlit("wouldn't");
    assert("Do"@ + " not"@ =~= "Do not"@ && "Do"@ + "n't"@ =~= "Don't"@);
    assert(rule(48) == ("Do"@ + " not"@, "Do"@ + "n't"@));
    assert("do"@ + " not"@ =~= "do not"@ && "do"@ + "n't"@ =~= "don't"@);
    assert(rule(49) == ("do"@ + " not"@, "do"@ + "n't"@));
    assert("Does"@ + " not"@ =~= "Does not"@ && "Does"@ + "n't"@ =~= "Doesn't"@);
    assert(rule(50) == ("Does"@ + " not"@, "Does"@ + "n't"@));
    assert("does"@ + " not"@ =~= "does not"@ && "does"@ + "n't"@ =~= "doesn't"@);
    assert(rule(51) == ("does"@ + " not"@, "does"@ + "n't"@));
    assert("Did"@ + " not"@ =~= "Did not"@ && "Did"@ + "n't"@ =~= "Didn't"@);
    assert(rule(52) == ("Did"@ + " not"@, "Did"@ + "n't"@));
    assert("did"@ + " not"@ =~= "did not"@ && "did"@ + "n't"@ =~= "didn't"@);
    assert(rule(53) == ("did"@ + " not"@, "did"@ + "n't"@));
    assert("Can"@ + "not"@ =~= "Cannot"@ && "Can"@ + "'t"@ =~= "Can't"@);
    assert(rule(54) == ("Can"@ + "not"@, "Can"@ + "'t"@));
    assert("can"@ + "not"@ =~= "cannot"@ && "can"@ + "'t"@ =~= "can't"@);
    assert(rule(55) == ("can"@ + "not"@, "can"@ + "'t"@));
    assert("Can"@ + " not"@ =~= "Can not"@ && "Can"@ + "'t"@ =~= "Can't"@);
    assert(rule(56) == ("Can"@ + " not"@, "Can"@ + "'t"@));
    assert("can"@ + " not"@ =~= "can not"@ && "can"@ + "'t"@ =~= "can't"@);
    assert(rule(57) == ("can"@ + " not"@, "can"@ + "'t"@));
    assert(rule(58) == ("Will not"@, "Won't"@));
    assert(rule(59) == ("will not"@, "won't"@));
    assert("Is"@ + " not"@ =~= "Is not"@ && "Is"@ + "n't"@ =~= "Isn't"@);
    assert(rule(60) == ("Is"@ + " not"@, "Is"@ + "n't"@));
    assert("is"@ + " not"@ =~= "is not"@ && "is"@ + "n't"@ =~= "isn't"@);
    assert(rule(61) == ("is"@ + " not"@, "is"@ + "n't"@));
    assert("Are"@ + " not"@ =~= "Are not"@ && "Are"@ + "n't"@ =~= "Aren't"@);
    assert(rule(62) == ("Are"@ + " not"@, "Are"@ + "n't"@));
    assert("are"@ + " not"@ =~= "are not"@ && "are"@ + "n't"@ =~= "aren't"@);
    assert(rule(63) == ("are"@ + " not"@, "are"@ + "n't"@));
    assert("Was"@ + " not"@ =~= "Was not"@ && "Was"@ + "n't"@ =~= "Wasn't"@);
    assert(rule(64) == ("Was"@ + " not"@, "Was"@ + "n't"@));
    assert("was"@ + " not"@ =~= "was not"@ && "was"@ + "n't"@ =~= "wasn't"@);
    assert(rule(65) == ("was"@ + " not"@, "was"@ + "n't"@));
    assert("Were"@ + " not"@ =~= "Were not"@ && "Were"@ + "n't"@ =~= "Weren't"@);
    assert(rule(66) == ("Were"@ + " not"@, "Were"@ + "n't"@));
    assert("were"@ + " not"@ =~= "were not"@ && "were"@ + "n't"@ =~= "weren't"@);
    assert(rule(67) == ("were"@ + " not"@, "were"@ + "n't"@));
    assert("Would"@ + " not"@ =~= "Would not"@ && "Would"@ + "n't"@ =~= "Wouldn't"@);
    assert(rule(68) == ("Would"@ + " not"@, "Would"@ + "n't"@));
    assert("would"@ + " not"@ =~= "would not"@ && "would"@ + "n't"@ =~= "wouldn't"@);
    assert(rule(69) == ("would"@ + " not"@, "would"@ + "n't"@));
    assert("Should"@ + " not"@ =~= "Should not"@ && "Should"@ + "n't"@ =~= "Shouldn't"@);
    assert(rule(70) == ("Should"@ + " not"@, "Should"@ + "n't"@));
    assert("should"@ + " not"@ =~= "should not"@ && "should"@ + "n't"@ =~= "shouldn't"@);
    assert(rule(71) == ("should"@ + " not"@, "should"@ + "n't"@));
    assert("Could"@ + " not"@ =~= "Could not"@ && "Could"@ + "n't"@ =~= "Couldn't"@);
    assert(rule(72) == ("Could"@ + " not"@, "Could"@ + "n't"@));
    assert("could"@ + " not"@ =~= "could not"@ && "could"@ + "n't"@ =~= "couldn't"@);
    assert(rule(73) == ("could"@ + " not"@, "could"@ + "n't"@));
    assert("Have"@ + " not"@ =~= "Have not"@ && "Have"@ + "n't"@ =~= "Haven't"@);
    assert(rule(74) == ("Have"@ + " not"@, "Have"@ + "n't"@));
    assert("have"@ + " not"@ =~= "have not"@ && "have"@ + "n't"@ =~= "haven't"@);
    assert(rule(75) == ("have"@ + " not"@, "have"@ + "n't"@));
    assert("Has"@ + " not"@ =~= "Has not"@ && "Has"@ + "n't"@ =~= "Hasn't"@);
    assert(rule(76) == ("Has"@ + " not"@, "Has"@ + "n't"@));
    assert("has"@ + " not"@ =~= "has not"@ && "has"@ + "n't"@ =~= "hasn't"@);
    assert(rule(77) == ("has"@ + " not"@, "has"@ + "n't"@));
}

/// Whether a phrase ends with "not".
pub open spec fn ends_with_not(p: Seq<char>) -> bool {
    p.len() >= 3 && p.skip(p.len() - 3) == seq!['n', 'o', 't']
}

proof fn lemma_ends_with_not(p: Seq<char>)
    requires
        p.len() >= 3,
    ensures
        ends_with_not(p) <==> p[p.len() - 3] == 'n' && p[p.len() - 2] == 'o' && p[p.len() - 1] == 't',
{
    let t = p.skip(p.len() - 3);
    assert(t[0] == p[p.len() - 3] && t[1] == p[p.len() - 2] && t[2] == p[p.len() - 1]);
    if t[0] == 'n' && t[1] == 'o' && t[2] == 't' {
        assert(t =~= seq!['n', 'o', 't']);
    }
    let q = seq!['n', 'o', 't'];
    assert(q[0] == 'n' && q[1] == 'o' && q[2] == 't');
}

proof fn lemma_phrase_shapes(i: usize)
    requires
        i < 13,
    ensures
        rule(i).0.len() >= 11,
        rule(i).0[rule(i).0.len() - 2] != 'o' || rule(i).0[rule(i).0.len() - 1] != 't',
{
    reveal_strlit("As soon as possible");
    reveal_strlit("as soon as possible");
    reveal_strlit("In order to");
    reveal_strlit("in order to");
    reveal_strlit("a great deal of");
    reveal_strlit("It is a pity that");
    reveal_strlit("I have been");
    reveal_strlit("We have been");
    reveal_strlit("You have been");
    reveal_strlit("They have been");
    reveal_strlit("we have been");
    reveal_strlit("you have been");
    reveal_strlit("they have been");
}

proof fn lemma_subject_shapes(i: usize)
    requires
        13 <= i < 48,
    ensures
        3 <= rule(i).0.len() < 11,
        rule(i).0[rule(i).0.len() - 2] != 'o',
{
    reveal_strlit("I am");
    reveal_strlit("You are");
    reveal_strlit("you are");
    reveal_strlit("We are");
    reveal_strlit("we are");
    reveal_strlit("They are");
    reveal_strlit("they are");
    reveal_strlit("He is");
    reveal_strlit("he is");
    reveal_strlit("She is");
    reveal_strlit("she is");
    reveal_strlit("It is");
    reveal_strlit("it is");
    reveal_strlit("That is");
    reveal_strlit("that is");
    reveal_strlit("There is");
    reveal_strlit("there is");
    reveal_strlit("What is");
    reveal_strlit("what is");
    reveal_strlit("I will");
    reveal_strlit("We will");
    reveal_strlit("we will");
    reveal_strlit("You will");
    reveal_strlit("you will");
    reveal_strlit("They will");
    reveal_strlit("they will");
    reveal_strlit("He will");
    reveal_strlit("he will");
    reveal_strlit("She will");
    reveal_strlit("she will");
    reveal_strlit("It will");
    reveal_strlit("it will");
    reveal_strlit("I would");
    reveal_strlit("We would");
    reveal_strlit("we would");
}

proof fn lemma_negation_shapes(i: usize)
    requires
        48 <= i < 78,
    ensures
        3 <= rule(i).0.len() < 11,
        rule(i).0[rule(i).0.len() - 3] == 'n',
        rule(i).0[rule(i).0.len() - 2] == 'o',
        rule(i).0[rule(i).0.len() - 1] == 't',
{
    reveal_strlit("Do not");
    reveal_strlit("do not");
    reveal_strlit("Does not");
    reveal_strlit("does not");
    reveal_strlit("Did not");
    reveal_strlit("did not");
    reveal_strlit("Cannot");
    reveal_strlit("cannot");
    reveal_strlit("Can not");
    reveal_strlit("can not");
    reveal_strlit("Will not");
    reveal_strlit("will not");
    reveal_strlit("Is not");
    reveal_strlit("is not");
    reveal_strlit("Are not");
    reveal_strlit("are not");
    reveal_strlit("Was not");
    reveal_strlit("was not");
    reveal_strlit("Were not");
    reveal_strlit("were not");
    reveal_strlit("Would not");
    reveal_strlit("would not");
    reveal_strlit("Should not");
    reveal_strlit("should not");
    reveal_strlit("Could not");
    reveal_strlit("could not");
    reveal_strlit("Have not");
    reveal_strlit("have not");
    reveal_strlit("Has not");
    reveal_strlit("has not");
}

/// There are seventy-eight rules. Phrases come before contractions, so that the
/// longest match wins; and a pronoun contracts with its verb before the verb
/// does with a "not" behind it.
pub proof fn law_rules_are_in_order(i: usize, j: usize)
    requires
        i < j < RULES,
    ensures
        RULES == 78,
        rule(j).0.len() >= 11 ==> rule(i).0.len() >= 11,
        ends_with_not(rule(i).0) ==> ends_with_not(rule(j).0),
{
    if i < 13 {
        lemma_phrase_shapes(i);
    } else if i < 48 {
        lemma_subject_shapes(i);
    } else {
        lemma_negation_shapes(i);
    }
    if j < 13 {
        lemma_phrase_shapes(j);
    } else if j < 48 {
        lemma_subject_shapes(j);
    } else {
        lemma_negation_shapes(j);
    }
    lemma_ends_with_not(rule(i).0);
    lemma_ends_with_not(rule(j).0);
}

/// A text in which none of the first rules' phrases stands is left as it is by
/// these rules.
proof fn lemma_first_rules_keep(s: Seq<char>, n: int)
    requires
        0 <= n <= RULES,
        forall|i: usize| 0 <= i < n ==> text::find(s, (#[trigger] rule(i)).0) is None,
    ensures
        styled(s, n) == s,
    decreases n,
{
    if n > 0 {
        lemma_first_rules_keep(s, n - 1);
        let i = (n - 1) as usize;
        lemma_phrases_not_empty(i);
        law_replaces_nothing_else(s, rule(i).0, rule(i).1);
    }
}

proof fn lemma_last_rules_keep(s: Seq<char>, t: Seq<char>, k: int, n: int)
    requires
        0 <= k <= n <= RULES,
        styled(s, k) == t,
        forall|i: usize| k <= i < n ==> text::find(t, (#[trigger] rule(i)).0) is None,
    ensures
        styled(s, n) == t,
    decreases n - k,
{
    if n > k {
        lemma_last_rules_keep(s, t, k, n - 1);
        let i = (n - 1) as usize;
        lemma_phrases_not_empty(i);
        law_replaces_nothing_else(t, rule(i).0, rule(i).1);
    }
}

/// Polishing applies the rules: a text that holds the phrase of one rule, once
/// and as a word, and no phrase of another rule before or after, is polished to
/// the text with the phrase replaced, cleaned up.
pub proof fn law_polishing_applies_the_rules(a: Seq<char>, b: Seq<char>, k: usize)
    requires
        k < RULES,
        a.len() == 0 || !unicode_alphanumeric(a.last()),
        b.len() == 0 || (!unicode_alphanumeric(b[0]) && b[0] != '\''),
        ({
            let from = rule(k).0;
            let to = rule(k).1;
            &&& forall|i: int|
                0 <= i <= (a + from + b).len() - from.len() && i != a.len() ==> #[trigger] (a + from + b).subrange(
                    i,
                    i + from.len(),
                ) != from
            &&& forall|i: usize| 0 <= i < k ==> text::find(a + from + b, (#[trigger] rule(i)).0) is None
            &&& forall|i: usize| k < i < RULES ==> text::find(a + to + b, (#[trigger] rule(i)).0) is None
        }),
    ensures
        polished(a + rule(k).0 + b) == cleaned(a + rule(k).1 + b),
{
    let from = rule(k).0;
    let to = rule(k).1;
    let s = a + from + b;
    let t = a + to + b;
    lemma_phrases_not_empty(k);
    lemma_first_rules_keep(s, k as int);
    law_phrase_is_replaced_as_a_word(a, b, from, to);
    assert(styled(s, k + 1) == t);
    lemma_last_rules_keep(s, t, k + 1, RULES as int);
}

/// Places count from the start.
proof fn lemma_find_shift(s: Seq<char>, pat: Seq<char>, k: int, i: int)
    requires
        0 <= k <= s.len(),
        0 <= i,
    ensures
        text::find_from(s, pat, k + i) == match text::find_from(s.skip(k), pat, i) {
            Some(x) => Some(k + x),
            None => None,
        },
    decreases s.len() + 1 - i,
{
    let t = s.skip(k);
    if i + pat.len() <= t.len() {
        assert(t.subrange(i, i + pat.len()) =~= s.subrange(k + i, k + i + pat.len()));
        assert(text::stands_at(t, pat, i) == text::stands_at(s, pat, k + i));
        lemma_find_shift(s, pat, k, i + 1);
    }
}

proof fn lemma_replaced_shift(s: Seq<char>, k: int, pos: int, prev: Option<char>, from: Seq<char>, to: Seq<char>)
    requires
        0 <= k,
        0 <= pos,
        k + pos <= s.len(),
        from.len() > 0,
    ensures
        replaced_from(s.skip(k), pos, prev, from, to) == replaced_from(s, k + pos, prev, from, to),
    decreases s.len() - pos,
{
    let t = s.skip(k);
    lemma_find_shift(s, from, k, pos);
    text::lemma_find_from(t, from, pos);
    match text::find_from(t, from, pos) {
        Some(i) => {
            let end = i + from.len();
            assert(t.subrange(pos, i) =~= s.subrange(k + pos, k + i));
            assert(char_at(t, end) == char_at(s, k + end));
            let is_word = opens_word(last_or(t.subrange(pos, i), prev)) && closes_word(char_at(t, end));
            let chunk = t.subrange(pos, i) + if is_word {
                to
            } else {
                from
            };
            lemma_replaced_shift(s, k, end, last_or(chunk, prev), from, to);
        },
        None => {
            assert(t.skip(pos) =~= s.skip(k + pos));
        },
    }
}

/// What stands before a text does not matter if the text does not start with
/// the phrase.
proof fn lemma_prev_does_not_matter(s: Seq<char>, p: Option<char>, q: Option<char>, from: Seq<char>, to: Seq<char>)
    requires
        from.len() > 0,
        text::find(s, from) != Some(0int),
    ensures
        replaced_from(s, 0, p, from, to) == replaced_from(s, 0, q, from, to),
{
    text::lemma_find_from(s, from, 0);
    match text::find_from(s, from, 0) {
        Some(i) => {
            assert(s.subrange(0, i).len() > 0);
        },
        None => {},
    }
}

/// Phrases are replaced one by one: what stands before the first place of a
/// phrase stays, the phrase is replaced there if it is a word, and what stands
/// behind it is treated as a text of its own, if it does not start with the
/// phrase again.
pub proof fn law_phrases_are_replaced_one_by_one(a: Seq<char>, b: Seq<char>, from: Seq<char>, to: Seq<char>)
    requires
        from.len() > 0,
        b.len() < from.len() || b.take(from.len() as int) != from,
        forall|i: int|
            0 <= i < a.len() ==> #[trigger] (a + from + b).subrange(i, i + from.len()) != from,
    ensures
        ({
            let free = a.len() == 0 || !unicode_alphanumeric(a.last());
            let ends = b.len() == 0 || (!unicode_alphanumeric(b[0]) && b[0] != '\'');
            replaced(a + from + b, from, to) == a + (if free && ends {
                to
            } else {
                from
            }) + replaced(b, from, to)
        }),
{
    let s = a + from + b;
    let n = a.len() as int;
    let end = n + from.len();
    text::lemma_find_from(s, from, 0);
    assert(s.subrange(n, end) =~= from);
    assert(text::stands_at(s, from, n));
    let f = text::find_from(s, from, 0)->0;
    assert(f == n) by {
        if f < n {
            assert(s.subrange(f, f + from.len()) != from);
        }
    }
    assert(s.subrange(0, n) =~= a);
    assert(s.skip(end) =~= b);
    let free = a.len() == 0 || !unicode_alphanumeric(a.last());
    let ends = b.len() == 0 || (!unicode_alphanumeric(b[0]) && b[0] != '\'');
    assert(free == opens_word(last_or(s.subrange(0, n), None)));
    if b.len() > 0 {
        assert(s[end] == b[0]);
    }
    let chunk = a + if free && ends {
        to
    } else {
        from
    };
    lemma_replaced_shift(s, end, 0, last_or(chunk, None), from, to);
    text::lemma_find_from(b, from, 0);
    if text::find(b, from) == Some(0int) {
        assert(b.subrange(0, from.len() as int) =~= b.take(from.len() as int));
    }
    lemma_prev_does_not_matter(b, last_or(chunk, None), None, from, to);
}

} // verus!
