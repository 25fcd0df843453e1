//! Tiny persisted settings, one `key=value` per line.

use vstd::prelude::*;

use crate::text;

verus! {

/// The settings. The last position of the bar is kept beside them: see `load`
/// and `save`.
pub struct Settings {
    /// Built-in pinyin fallback on/off (Ctrl+P).
    pub pinyin: bool,
    /// Silent self-update check at launch.
    pub autoupdate: bool,
    /// North-American business-casual polish of the English output.
    pub style: bool,
    /// User-chosen hotkey spec.
    pub hotkey: Option<String>,
}

/// The model of the settings.
#[verifier::ext_equal]
pub struct SettingsV {
    pub pinyin: bool,
    pub autoupdate: bool,
    pub style: bool,
    pub hotkey: Option<Seq<char>>,
}

impl View for Settings {
    type V = SettingsV;

    open spec fn view(&self) -> SettingsV {
        SettingsV {
            pinyin: self.pinyin,
            autoupdate: self.autoupdate,
            style: self.style,
            hotkey: match self.hotkey {
                Some(h) => Some(h@),
                None => None,
            },
        }
    }
}

impl SettingsV {
    /// The settings of a first launch.
    pub open spec fn initial() -> SettingsV {
        SettingsV { pinyin: true, autoupdate: true, style: true, hotkey: None }
    }
}

impl Default for Settings {
    fn default() -> (r: Settings)
        ensures
            r@ == SettingsV::initial(),
    {
        Settings { pinyin: true, autoupdate: true, style: true, hotkey: None }
    }
}

impl Clone for Settings {
    fn clone(&self) -> (r: Settings)
        ensures
            r@ == self@,
    {
        Settings {
            pinyin: self.pinyin,
            autoupdate: self.autoupdate,
            style: self.style,
            hotkey: match &self.hotkey {
                Some(h) => Some(h.clone()),
                None => None,
            },
        }
    }
}

/// A position of the bar as it is written: its two coordinates.
pub type PositionV = (Seq<char>, Seq<char>);

/// The models of positions.
pub open spec fn positions(v: Seq<(String, String)>) -> Seq<PositionV> {
    v.map_values(|p: (String, String)| (p.0@, p.1@))
}

/// Whether a value means "on".
pub open spec fn is_on(v: Seq<char>) -> bool {
    text::trimmed(v) != "0"@
}

/// The settings and the positions read so far, after one more line.
pub open spec fn with_line(s: SettingsV, ps: Seq<PositionV>, line: Seq<char>) -> (SettingsV, Seq<PositionV>) {
    match text::split_once(text::trimmed(line), '=') {
        Some((k, v)) => if k == "pinyin"@ {
            (SettingsV { pinyin: is_on(v), ..s }, ps)
        } else if k == "autoupdate"@ {
            (SettingsV { autoupdate: is_on(v), ..s }, ps)
        } else if k == "style"@ {
            (SettingsV { style: is_on(v), ..s }, ps)
        } else if k == "hotkey"@ {
            if text::trimmed(v).len() > 0 {
                (SettingsV { hotkey: Some(text::trimmed(v)), ..s }, ps)
            } else {
                (s, ps)
            }
        } else if k == "pos"@ {
            match text::split_once(v, ',') {
                Some((x, y)) => (s, ps.push((text::trimmed(x), text::trimmed(y)))),
                None => (s, ps),
            }
        } else {
            (s, ps)
        },
        None => (s, ps),
    }
}

/// The settings and the positions that lines hold.
pub open spec fn read(ls: Seq<Seq<char>>) -> (SettingsV, Seq<PositionV>)
    decreases ls.len(),
{
    if ls.len() == 0 {
        (SettingsV::initial(), Seq::empty())
    } else {
        let (s, ps) = read(ls.drop_last());
        with_line(s, ps, ls.last())
    }
}

/// The settings that a text holds, and its positions as they are written, in
/// order: the last one whose coordinates are numbers counts.
pub fn load(text: &str) -> (r: (Settings, Vec<(String, String)>))
    ensures
        (r.0@, positions(r.1@)) == read(text::lines_of(text@)),
{
    let ls = text::lines(text);
    let ghost lv = text::lines_of(text@);
    let mut s = Settings::default();
    let mut ps: Vec<(String, String)> = Vec::new();
    let mut i: usize = 0;
    proof {
        assert(lv.take(0) =~= Seq::<Seq<char>>::empty());
        assert(positions(ps@) =~= Seq::<PositionV>::empty());
    }
    while i < ls.len()
        invariant
            0 <= i <= ls@.len(),
            lv == text::views(ls@),
            (s@, positions(ps@)) == read(lv.take(i as int)),
        decreases ls@.len() - i,
    {
        let ghost s0 = s@;
        let ghost p0 = positions(ps@);
        proof {
            assert(lv.take(i + 1).drop_last() =~= lv.take(i as int));
            assert(lv.take(i + 1).last() == ls@[i as int]@);
        }
        let line = text::trim(ls[i].as_str());
        match text::cut_once(line.as_str(), '=') {
            Some((k, v)) => {
                let value = text::trim(v.as_str());
                if text::same(k.as_str(), "pinyin") {
                    s.pinyin = !text::same(value.as_str(), "0");
                } else if text::same(k.as_str(), "autoupdate") {
                    s.autoupdate = !text::same(value.as_str(), "0");
                } else if text::same(k.as_str(), "style") {
                    s.style = !text::same(value.as_str(), "0");
                } else if text::same(k.as_str(), "hotkey") {
                    if !value.as_str().is_empty() {
                        s.hotkey = Some(value);
                    }
                } else if text::same(k.as_str(), "pos") {
                    match text::cut_once(v.as_str(), ',') {
                        Some((x, y)) => {
                            let x = text::trim(x.as_str());
                            let y = text::trim(y.as_str());
                            ps.push((x, y));
                            assert(positions(ps@) =~= p0.push((x@, y@)));
                        },
                        None => {},
                    }
                }
            },
            None => {},
        }
        assert((s@, positions(ps@)) == with_line(s0, p0, ls@[i as int]@));
        i = i + 1;
    }
    assert(lv.take(lv.len() as int) =~= lv);
    (s, ps)
}

/// The place of the last `true`.
pub open spec fn last_true(ok: Seq<bool>) -> Option<int>
    decreases ok.len(),
{
    if ok.len() == 0 {
        None
    } else if ok.last() {
        Some(ok.len() - 1)
    } else {
        last_true(ok.drop_last())
    }
}

/// Which of the positions counts, given which of them are numbers.
pub fn last_position(ok: &Vec<bool>) -> (r: Option<usize>)
    ensures
        match r {
            Some(i) => i < ok@.len() && last_true(ok@) == Some(i as int),
            None => last_true(ok@) is None,
        },
{
    let mut i: usize = ok.len();
    assert(ok@.take(ok@.len() as int) =~= ok@);
    while i > 0
        invariant
            0 <= i <= ok@.len(),
            last_true(ok@) == last_true(ok@.take(i as int)),
        decreases i,
    {
        proof {
            assert(ok@.take(i as int).last() == ok@[i - 1]);
            assert(ok@.take(i as int).drop_last() =~= ok@.take(i - 1));
        }
        if ok[i - 1] {
            return Some(i - 1);
        }
        i = i - 1;
    }
    None
}

/// How a switch is written.
pub open spec fn switch(on: bool) -> Seq<char> {
    if on {
        "1"@
    } else {
        "0"@
    }
}

/// The line of a position.
pub open spec fn pos_line(p: PositionV) -> Seq<char> {
    ("pos="@ + p.0).push(',') + p.1
}

/// The lines that keep the settings and a position.
pub open spec fn saved_lines(s: SettingsV, pos: Option<PositionV>) -> Seq<Seq<char>> {
    let a = seq!["pinyin="@ + switch(s.pinyin), "autoupdate="@ + switch(s.autoupdate), "style="@ + switch(s.style)];
    let b = match s.hotkey {
        Some(h) => a.push("hotkey="@ + h),
        None => a,
    };
    match pos {
        Some(p) => b.push(pos_line(p)),
        None => b,
    }
}

/// The model of an optional position.
pub open spec fn pos_view(p: Option<(&str, &str)>) -> Option<PositionV> {
    match p {
        Some((x, y)) => Some((x@, y@)),
        None => None,
    }
}

/// Appends a line to a text that holds the lines `done`.
fn push_line(out: &mut String, line: &str, Ghost(done): Ghost<Seq<Seq<char>>>)
    requires
        old(out)@ == text::joined(done),
    ensures
        final(out)@ == text::joined(done.push(line@)),
{
    let ghost before = out@;
    out.append(line);
    out.push('\n');
    proof {
        assert(done.push(line@).drop_last() =~= done);
        assert(out@ =~= (before + line@).push('\n'));
    }
}

/// A line `key=value`.
fn setting(key: &str, value: &str) -> (r: String)
    ensures
        r@ == key@ + value@,
{
    let mut out = text::copy_of(key);
    out.append(value);
    out
}

fn switch_text(on: bool) -> (r: &'static str)
    ensures
        r@ == switch(on),
{
    if on {
        "1"
    } else {
        "0"
    }
}

/// The text that keeps the settings and a position, whose coordinates are given
/// as they are written.
pub fn save(s: &Settings, pos: Option<(&str, &str)>) -> (r: String)
    ensures
        r@ == text::joined(saved_lines(s@, pos_view(pos))),
{
    let mut out = String::new();
    let ghost done: Seq<Seq<char>> = Seq::empty();
    assert(out@ =~= text::joined(done));
    let a = setting("pinyin=", switch_text(s.pinyin));
    let b = setting("autoupdate=", switch_text(s.autoupdate));
    let c = setting("style=", switch_text(s.style));
    push_line(&mut out, a.as_str(), Ghost(done));
    push_line(&mut out, b.as_str(), Ghost(done.push(a@)));
    push_line(&mut out, c.as_str(), Ghost(done.push(a@).push(b@)));
    let ghost mut ls = done.push(a@).push(b@).push(c@);
    assert(ls =~= seq![a@, b@, c@]);
    match &s.hotkey {
        Some(h) => {
            let line = setting("hotkey=", h.as_str());
            push_line(&mut out, line.as_str(), Ghost(ls));
            proof {
                ls = ls.push(line@);
            }
        },
        None => {},
    }
    match pos {
        Some((x, y)) => {
            let mut line = setting("pos=", x);
            line.push(',');
            line.append(y);
            push_line(&mut out, line.as_str(), Ghost(ls));
            proof {
                assert(line@ =~= pos_line((x@, y@)));
                ls = ls.push(line@);
            }
        },
        None => {},
    }
    assert(ls == saved_lines(s@, pos_view(pos)));
    out
}

/// Whether a value comes back from a line as it was written: no white space at
/// its ends, no line break.
pub open spec fn is_value(v: Seq<char>) -> bool {
    &&& !v.contains('\n')
    &&& v.len() > 0 ==> !text::is_space(v[0]) && !text::is_space(v.last())
}

/// Whether the coordinates of a position come back as they were written.
pub open spec fn is_position(p: PositionV) -> bool {
    is_value(p.0) && is_value(p.1) && !p.0.contains(',')
}

/// A setting that stands in a line of its own is read back.
proof fn lemma_setting(key: Seq<char>, v: Seq<char>)
    requires
        key.len() > 0,
        !key.contains('='),
        !key.contains('\n'),
        !text::is_space(key[0]),
        is_value(v),
    ensures
        text::plain_line(key.push('=') + v),
        text::split_once(text::trimmed(key.push('=') + v), '=') == Some((key, v)),
        text::trimmed(v) == v,
{
    let line = key.push('=') + v;
    text::lemma_trimmed(v);
    text::lemma_trimmed(line);
    assert(line[0] == key[0]);
    assert(v.len() > 0 ==> line.last() == v.last());
    assert(v.len() == 0 ==> line.last() == '=');
    text::lemma_split_once(key, '=', v);
    if line.contains('\n') {
        let i = choose|i: int| 0 <= i < line.len() && line[i] == '\n';
        if i < key.len() {
            assert(key[i] == '\n');
        } else if i > key.len() {
            assert(v[i - key.len() - 1] == '\n');
        }
    }
}

/// Settings written are settings read: what a save writes, the next load reads
/// back, the position last.
pub proof fn law_saved_is_loaded(s: SettingsV, pos: Option<PositionV>)
    requires
        s.hotkey is Some ==> s.hotkey->0.len() > 0 && is_value(s.hotkey->0),
        pos is Some ==> is_position(pos->0),
    ensures
        read(text::lines_of(text::joined(saved_lines(s, pos)))) == (s, match pos {
            Some(p) => seq![p],
            None => Seq::empty(),
        }),
{
    reveal_strlit("pinyin=");
    reveal_strlit("autoupdate=");
    reveal_strlit("style=");
    reveal_strlit("hotkey=");
    reveal_strlit("pos=");
    reveal_strlit("pinyin");
    reveal_strlit("autoupdate");
    reveal_strlit("style");
    reveal_strlit("hotkey");
    reveal_strlit("pos");
    reveal_strlit("0");
    reveal_strlit("1");
    let ls = saved_lines(s, pos);
    let l1 = "pinyin="@ + switch(s.pinyin);
    let l2 = "autoupdate="@ + switch(s.autoupdate);
    let l3 = "style="@ + switch(s.style);
    assert(l1 =~= "pinyin"@.push('=') + switch(s.pinyin));
    assert(l2 =~= "autoupdate"@.push('=') + switch(s.autoupdate));
    assert(l3 =~= "style"@.push('=') + switch(s.style));
    lemma_setting("pinyin"@, switch(s.pinyin));
    lemma_setting("autoupdate"@, switch(s.autoupdate));
    lemma_setting("style"@, switch(s.style));
    assert(switch(true)[0] == '1' && switch(false)[0] == '0');
    assert("pinyin"@ != "autoupdate"@) by {
        assert("pinyin"@.len() != "autoupdate"@.len());
    }
    assert("pinyin"@ != "style"@) by {
        assert("pinyin"@.len() != "style"@.len());
    }
    assert("autoupdate"@ != "style"@) by {
        assert("autoupdate"@.len() != "style"@.len());
    }
    let i0 = SettingsV::initial();
    let none = Seq::<PositionV>::empty();
    let s1 = SettingsV { pinyin: s.pinyin, ..i0 };
    let s2 = SettingsV { autoupdate: s.autoupdate, ..s1 };
    let s3 = SettingsV { style: s.style, ..s2 };
    assert(with_line(i0, none, l1) == (s1, none));
    assert(with_line(s1, none, l2) == (s2, none));
    assert(with_line(s2, none, l3) == (s3, none));
    let a = seq![l1, l2, l3];
    assert(a.drop_last() =~= seq![l1, l2]);
    assert(a.drop_last().drop_last() =~= seq![l1]);
    assert(a.drop_last().drop_last().drop_last() =~= Seq::<Seq<char>>::empty());
    let empty = Seq::<Seq<char>>::empty();
    assert(read(empty) == (i0, none));
    assert(seq![l1].drop_last() =~= empty);
    assert(seq![l1].last() == l1);
    assert(read(seq![l1]) == (s1, none));
    assert(read(seq![l1, l2]) == (s2, none));
    assert(read(a) == (s3, none));
    let b = match s.hotkey {
        Some(h) => a.push("hotkey="@ + h),
        None => a,
    };
    if s.hotkey is Some {
        let h = s.hotkey->0;
        assert("hotkey="@ + h =~= "hotkey"@.push('=') + h);
        lemma_setting("hotkey"@, h);
        assert(b.drop_last() =~= a);
        assert("hotkey"@ != "pinyin"@) by {
            assert("hotkey"@[0] != "pinyin"@[0]);
        }
        assert("hotkey"@ != "autoupdate"@) by {
            assert("hotkey"@.len() != "autoupdate"@.len());
        }
        assert("hotkey"@ != "style"@) by {
            assert("hotkey"@.len() != "style"@.len());
        }
        assert(read(b) == with_line(s3, none, b.last()));
    }
    assert(read(b) == (s, none));
    if pos is Some {
        let p = pos->0;
        let v = p.0.push(',') + p.1;
        lemma_pos_value(p);
        assert(pos_line(p) =~= "pos"@.push('=') + v);
        lemma_setting("pos"@, v);
        assert(ls.drop_last() =~= b);
        assert("pos"@ != "pinyin"@) by {
            assert("pos"@.len() != "pinyin"@.len());
        }
        assert("pos"@ != "autoupdate"@) by {
            assert("pos"@.len() != "autoupdate"@.len());
        }
        assert("pos"@ != "style"@) by {
            assert("pos"@.len() != "style"@.len());
        }
        assert("pos"@ != "hotkey"@) by {
            assert("pos"@.len() != "hotkey"@.len());
        }
        text::lemma_split_once(p.0, ',', p.1);
        text::lemma_trimmed(p.0);
        text::lemma_trimmed(p.1);
        assert(with_line(s, none, pos_line(p)) == (s, none.push(p)));
        assert(none.push(p) =~= seq![p]);
    }
    assert forall|i: int| 0 <= i < ls.len() implies text::plain_line(#[trigger] ls[i]) by {
        if i < b.len() {
            assert(ls[i] == b[i]);
            if i < 3 {
                assert(b[i] == a[i]);
            }
        }
    }
    text::lemma_lines_of_joined(ls);
}

/// How a whole number is written: its digits, behind a minus sign if it is
/// negative. Numbers just below zero are written as minus zero.
pub open spec fn whole(negative: bool, n: nat) -> Seq<char> {
    if negative {
        seq!['-'] + text::decimal(n)
    } else {
        text::decimal(n)
    }
}

/// A whole number can be a coordinate.
proof fn lemma_whole(negative: bool, n: nat)
    ensures
        is_value(whole(negative, n)),
        !whole(negative, n).contains(','),
{
    let d = text::decimal(n);
    let w = whole(negative, n);
    text::lemma_decimal_value(n);
    assert forall|i: int| 0 <= i < w.len() implies #[trigger] w[i] == '-' || text::is_digit(w[i]) by {
        if negative && i > 0 {
            assert(w[i] == d[i - 1]);
        } else if !negative {
            assert(w[i] == d[i]);
        }
    }
    assert(w[w.len() - 1] == w.last());
}

/// The last position is remembered: settings saved with a position in whole
/// numbers, which is how positions are written, are read back with that
/// position and no other, and the digits of its coordinates still write the
/// same numbers.
pub proof fn law_whole_position_is_loaded(s: SettingsV, xneg: bool, x: nat, yneg: bool, y: nat)
    requires
        s.hotkey is Some ==> s.hotkey->0.len() > 0 && is_value(s.hotkey->0),
    ensures
        ({
            let p = (whole(xneg, x), whole(yneg, y));
            read(text::lines_of(text::joined(saved_lines(s, Some(p))))) == (s, seq![p])
        }),
        text::all_digits(text::decimal(x)) && text::value_of(text::decimal(x)) == x,
        text::all_digits(text::decimal(y)) && text::value_of(text::decimal(y)) == y,
{
    lemma_whole(xneg, x);
    lemma_whole(yneg, y);
    text::lemma_decimal_value(x);
    text::lemma_decimal_value(y);
    law_saved_is_loaded(s, Some((whole(xneg, x), whole(yneg, y))));
}

/// The coordinates of a position, joined, are a value.
proof fn lemma_pos_value(p: PositionV)
    requires
        is_value(p.0),
        is_value(p.1),
    ensures
        is_value(p.0.push(',') + p.1),
{
    let v = p.0.push(',') + p.1;
    if v.contains('\n') {
        let i = choose|i: int| 0 <= i < v.len() && v[i] == '\n';
        if i < p.0.len() {
            assert(p.0[i] == '\n');
        } else if i > p.0.len() {
            assert(p.1[i - p.0.len() - 1] == '\n');
        }
    }
    if p.0.len() > 0 {
        assert(v[0] == p.0[0]);
    } else {
        assert(v[0] == ',');
    }
    if p.1.len() > 0 {
        assert(v.last() == p.1.last());
    } else {
        assert(v.last() == ',');
    }
}

/// A line is cut at its first equals sign, whatever stands around it.
proof fn lemma_any_setting(key: Seq<char>, v: Seq<char>) -> (w: Seq<char>)
    requires
        key.len() > 0,
        !key.contains('='),
        !text::is_space(key[0]),
    ensures
        text::split_once(text::trimmed(key.push('=') + v), '=') == Some((key, w)),
        text::trimmed(w) == text::trimmed(v),
        w.len() <= v.len(),
        w == v.take(w.len() as int),
        forall|i: int| w.len() <= i < v.len() ==> text::is_space(#[trigger] v[i]),
{
    let line = key.push('=') + v;
    let n = key.len() as int;
    let (a, b) = text::law_trimming_takes_white_space_only(line);
    assert(line[0] == key[0]);
    assert(line[n] == '=');
    assert(a == 0) by {
        if a > 0 {
            assert(text::is_space(line[0]));
        }
    }
    assert(b > n) by {
        if b <= n {
            assert(text::is_space(line[n]));
        }
    }
    let w = v.take(b - n - 1);
    let rest = v.skip(b - n - 1);
    assert(text::trimmed(line) =~= key.push('=') + w);
    text::lemma_split_once(key, '=', w);
    assert forall|i: int| 0 <= i < rest.len() implies text::is_space(#[trigger] rest[i]) by {
        assert(rest[i] == line[b + i]);
    }
    assert forall|i: int| w.len() <= i < v.len() implies text::is_space(#[trigger] v[i]) by {
        assert(v[i] == line[n + 1 + i]);
    }
    let none = Seq::<char>::empty();
    text::law_white_space_around_does_not_matter(none, w, rest);
    assert(none + w + rest =~= v);
    w
}

/// Before anything is read, everything is switched on, and no hotkey and no
/// position is known. A line that sets a switch switches it off if its value
/// is a zero, on otherwise; one that names a hotkey sets it, unless it is
/// empty; and either changes nothing else and counts over what was read before.
pub proof fn law_later_lines_win(ls: Seq<Seq<char>>, v: Seq<char>)
    ensures
        read(Seq::<Seq<char>>::empty()).0 == (SettingsV { pinyin: true, autoupdate: true, style: true, hotkey: None }),
        read(Seq::<Seq<char>>::empty()).1.len() == 0,
        ({
            let (s, ps) = read(ls);
            let on = text::trimmed(v) != seq!['0'];
            &&& read(ls.push(seq!['p', 'i', 'n', 'y', 'i', 'n', '='] + v)) == (SettingsV { pinyin: on, ..s }, ps)
            &&& read(ls.push(seq!['a', 'u', 't', 'o', 'u', 'p', 'd', 'a', 't', 'e', '='] + v)) == (
                SettingsV { autoupdate: on, ..s },
                ps,
            )
            &&& read(ls.push(seq!['s', 't', 'y', 'l', 'e', '='] + v)) == (SettingsV { style: on, ..s }, ps)
            &&& read(ls.push(seq!['h', 'o', 't', 'k', 'e', 'y', '='] + v)) == if text::trimmed(v).len() > 0 {
                (SettingsV { hotkey: Some(text::trimmed(v)), ..s }, ps)
            } else {
                (s, ps)
            }
        }),
{
    lemma_key_texts();
    let (s, ps) = read(ls);
    reveal_strlit("0");
    assert("0"@ =~= seq!['0']);
    let k1 = seq!['p', 'i', 'n', 'y', 'i', 'n'];
    let k2 = seq!['a', 'u', 't', 'o', 'u', 'p', 'd', 'a', 't', 'e'];
    let k3 = seq!['s', 't', 'y', 'l', 'e'];
    let k4 = seq!['h', 'o', 't', 'k', 'e', 'y'];
    let l1 = seq!['p', 'i', 'n', 'y', 'i', 'n', '='] + v;
    let l2 = seq!['a', 'u', 't', 'o', 'u', 'p', 'd', 'a', 't', 'e', '='] + v;
    let l3 = seq!['s', 't', 'y', 'l', 'e', '='] + v;
    let l4 = seq!['h', 'o', 't', 'k', 'e', 'y', '='] + v;
    assert(l1 =~= k1.push('=') + v);
    assert(l2 =~= k2.push('=') + v);
    assert(l3 =~= k3.push('=') + v);
    assert(l4 =~= k4.push('=') + v);
    let w1 = lemma_any_setting(k1, v);
    let w2 = lemma_any_setting(k2, v);
    let w3 = lemma_any_setting(k3, v);
    let w4 = lemma_any_setting(k4, v);
    assert(ls.push(l1).drop_last() =~= ls);
    assert(ls.push(l2).drop_last() =~= ls);
    assert(ls.push(l3).drop_last() =~= ls);
    assert(ls.push(l4).drop_last() =~= ls);
    assert(k1 != k2) by {
        assert(k1.len() != k2.len());
    }
    assert(k1 != k3) by {
        assert(k1.len() != k3.len());
    }
    assert(k1 != k4) by {
        assert(k1[0] != k4[0]);
    }
    assert(k2 != k3) by {
        assert(k2.len() != k3.len());
    }
    assert(k2 != k4) by {
        assert(k2.len() != k4.len());
    }
    assert(k3 != k4) by {
        assert(k3.len() != k4.len());
    }
}

/// The names of the settings.
proof fn lemma_key_texts()
    ensures
        "pinyin"@ == seq!['p', 'i', 'n', 'y', 'i', 'n'],
        "autoupdate"@ == seq!['a', 'u', 't', 'o', 'u', 'p', 'd', 'a', 't', 'e'],
        "style"@ == seq!['s', 't', 'y', 'l', 'e'],
        "hotkey"@ == seq!['h', 'o', 't', 'k', 'e', 'y'],
        "pos"@ == seq!['p', 'o', 's'],
{
    reveal_strlit("pinyin");
    reveal_strlit("autoupdate");
    reveal_strlit("style");
    reveal_strlit("hotkey");
    reveal_strlit("pos");
    assert("pinyin"@ =~= seq!['p', 'i', 'n', 'y', 'i', 'n']);
    assert("autoupdate"@ =~= seq!['a', 'u', 't', 'o', 'u', 'p', 'd', 'a', 't', 'e']);
    assert("style"@ =~= seq!['s', 't', 'y', 'l', 'e']);
    assert("hotkey"@ =~= seq!['h', 'o', 't', 'k', 'e', 'y']);
    assert("pos"@ =~= seq!['p', 'o', 's']);
}

/// A line with a position adds its two coordinates, cut at the first comma and
/// without white space around them; without a comma it adds nothing.
pub proof fn law_positions_are_read(ls: Seq<Seq<char>>, x: Seq<char>, y: Seq<char>)
    requires
        !x.contains(','),
    ensures
        ({
            let (s, ps) = read(ls);
            &&& read(ls.push(seq!['p', 'o', 's', '='] + x.push(',') + y)) == (
                s,
                ps.push((text::trimmed(x), text::trimmed(y))),
            )
            &&& read(ls.push(seq!['p', 'o', 's', '='] + x)) == (s, ps)
        }),
{
    lemma_key_texts();
    let k = seq!['p', 'o', 's'];
    let v = x.push(',') + y;
    let w = lemma_any_setting(k, v);
    let a = seq!['p', 'o', 's', '='] + x.push(',') + y;
    assert(a =~= k.push('=') + v);
    assert(w.len() > x.len()) by {
        if w.len() <= x.len() {
            assert(v[x.len() as int] == ',');
            assert(text::is_space(v[x.len() as int]));
        }
    }
    let z = w.skip(x.len() as int + 1);
    assert(w =~= x.push(',') + z);
    text::lemma_split_once(x, ',', z);
    let none = Seq::<char>::empty();
    let rest = y.skip(z.len() as int);
    assert forall|i: int| 0 <= i < rest.len() implies text::is_space(#[trigger] rest[i]) by {
        assert(rest[i] == v[w.len() + i]);
    }
    assert(none + z + rest =~= y);
    text::law_white_space_around_does_not_matter(none, z, rest);
    assert(ls.push(a).drop_last() =~= ls);
    lemma_pos_is_its_own(k);
    let b = seq!['p', 'o', 's', '='] + x;
    assert(b =~= k.push('=') + x);
    let u = lemma_any_setting(k, x);
    assert(ls.push(b).drop_last() =~= ls);
    text::law_cut_at_the_first_place(u, ',');
    assert(text::split_once(u, ',') is None) by {
        if text::split_once(u, ',') is Some {
            let (p, q) = text::split_once(u, ',')->0;
            assert(u[p.len() as int] == ',');
            assert(x[p.len() as int] == ',');
        }
    }
}

proof fn lemma_pos_is_its_own(k: Seq<char>)
    requires
        k == seq!['p', 'o', 's'],
    ensures
        k == "pos"@,
        k != "pinyin"@,
        k != "autoupdate"@,
        k != "style"@,
        k != "hotkey"@,
{
    lemma_key_texts();
    assert(k.len() == 3);
}

/// Lines that set nothing known change nothing: those without an equals sign,
/// and those whose name is another one.
pub proof fn law_other_lines_are_ignored(ls: Seq<Seq<char>>, line: Seq<char>, key: Seq<char>, v: Seq<char>)
    requires
        !line.contains('='),
        key.len() > 0,
        !key.contains('='),
        !text::is_space(key[0]),
        key != seq!['p', 'i', 'n', 'y', 'i', 'n'],
        key != seq!['a', 'u', 't', 'o', 'u', 'p', 'd', 'a', 't', 'e'],
        key != seq!['s', 't', 'y', 'l', 'e'],
        key != seq!['h', 'o', 't', 'k', 'e', 'y'],
        key != seq!['p', 'o', 's'],
    ensures
        read(ls.push(line)) == read(ls),
        read(ls.push(key.push('=') + v)) == read(ls),
{
    lemma_key_texts();
    let w = lemma_any_setting(key, v);
    assert(ls.push(line).drop_last() =~= ls);
    assert(ls.push(key.push('=') + v).drop_last() =~= ls);
    let t = text::trimmed(line);
    let (a, b) = text::law_trimming_takes_white_space_only(line);
    text::law_cut_at_the_first_place(t, '=');
    assert(text::split_once(t, '=') is None) by {
        if text::split_once(t, '=') is Some {
            let (p, q) = text::split_once(t, '=')->0;
            assert(t[p.len() as int] == '=');
            assert(line[a + p.len()] == '=');
        }
    }
}

/// The last of the positions that are numbers counts.
pub proof fn law_the_last_position_counts(ok: Seq<bool>)
    ensures
        match last_true(ok) {
            Some(i) => 0 <= i < ok.len() && ok[i] && forall|k: int| i < k < ok.len() ==> !#[trigger] ok[k],
            None => forall|k: int| 0 <= k < ok.len() ==> !#[trigger] ok[k],
        },
    decreases ok.len(),
{
    if ok.len() > 0 && !ok.last() {
        let t = ok.drop_last();
        law_the_last_position_counts(t);
        assert(ok[ok.len() - 1] == ok.last());
        assert forall|k: int| 0 <= k < t.len() implies #[trigger] ok[k] == t[k] by {}
    }
}

} // verus!
