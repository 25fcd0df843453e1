//! Hotkey specs ("ctrl+alt+space") and the order in which they are tried.
//!
//! The preferred hotkey may already be taken by another program, so
//! registration walks a list of candidates.

use std::str::FromStr;

use vstd::prelude::*;

use crate::text;

verus! {

// ---------------------------------------------------------------------------
// Specs
// ---------------------------------------------------------------------------

/// A hotkey: modifiers and one key, by the name of its code ("KeyA", "Space"),
/// with the number under which its presses are reported.
pub struct HotKey {
    pub ctrl: bool,
    pub alt: bool,
    pub shift: bool,
    pub meta: bool,
    pub code: String,
    pub id: u32,
}

/// Why a text is no hotkey.
pub enum HotKeyError {
    /// A part is neither a modifier nor a key.
    UnknownKey(String),
    /// There is more than one key.
    ManyKeys,
    /// There is no key.
    NoKey,
}

/// The model of an error.
pub enum HotKeyErrorV {
    UnknownKey(Seq<char>),
    ManyKeys,
    NoKey,
}

impl View for HotKeyError {
    type V = HotKeyErrorV;

    open spec fn view(&self) -> HotKeyErrorV {
        match *self {
            HotKeyError::UnknownKey(s) => HotKeyErrorV::UnknownKey(s@),
            HotKeyError::ManyKeys => HotKeyErrorV::ManyKeys,
            HotKeyError::NoKey => HotKeyErrorV::NoKey,
        }
    }
}

/// Modifiers and at most one key.
#[verifier::ext_equal]
pub struct ChordV {
    pub ctrl: bool,
    pub alt: bool,
    pub shift: bool,
    pub meta: bool,
    pub code: Option<Seq<char>>,
}

/// The code of a letter, a digit or a backquote.
pub open spec fn char_code(c: char) -> Option<Seq<char>> {
    if text::is_lower(c) {
        Some("Key"@.push(((c as u32) - 32) as char))
    } else if text::is_digit(c) {
        Some("Digit"@.push(c))
    } else if c == '`' {
        Some("Backquote"@)
    } else {
        None
    }
}

/// The code of a named key.
pub open spec fn named_code(name: Seq<char>) -> Option<Seq<char>> {
    if name == "space"@ {
        Some("Space"@)
    } else if name == "enter"@ || name == "return"@ {
        Some("Enter"@)
    } else if name == "tab"@ {
        Some("Tab"@)
    } else if name == "backquote"@ || name == "grave"@ {
        Some("Backquote"@)
    } else if name == "f1"@ {
        Some("F1"@)
    } else if name == "f2"@ {
        Some("F2"@)
    } else if name == "f3"@ {
        Some("F3"@)
    } else if name == "f4"@ {
        Some("F4"@)
    } else if name == "f5"@ {
        Some("F5"@)
    } else if name == "f6"@ {
        Some("F6"@)
    } else if name == "f7"@ {
        Some("F7"@)
    } else if name == "f8"@ {
        Some("F8"@)
    } else if name == "f9"@ {
        Some("F9"@)
    } else if name == "f10"@ {
        Some("F10"@)
    } else if name == "f11"@ {
        Some("F11"@)
    } else if name == "f12"@ {
        Some("F12"@)
    } else {
        None
    }
}

/// The code of a key: a single character, or a name.
pub open spec fn code_of(name: Seq<char>) -> Option<Seq<char>> {
    if name.len() == 1 && char_code(name[0]) is Some {
        char_code(name[0])
    } else {
        named_code(name)
    }
}

/// The code of a key named by a single character.
pub fn single_char_code(name: &str) -> (r: Option<String>)
    ensures
        match r {
            Some(c) => name@.len() == 1 && char_code(name@[0]) == Some(c@),
            None => name@.len() != 1 || char_code(name@[0]) is None,
        },
{
    let v = text::chars_of(name);
    if v.len() != 1 {
        return None;
    }
    let c = v[0];
    if 'a' <= c && c <= 'z' {
        let b: u8 = c as u8;
        let mut out = text::copy_of("Key");
        out.push((b - 32) as char);
        Some(out)
    } else if '0' <= c && c <= '9' {
        let mut out = text::copy_of("Digit");
        out.push(c);
        Some(out)
    } else if c == '`' {
        Some(text::copy_of("Backquote"))
    } else {
        None
    }
}

/// The code of a key.
pub fn key_code(name: &str) -> (r: Result<String, HotKeyError>)
    ensures
        match r {
            Ok(c) => code_of(name@) == Some(c@),
            Err(e) => code_of(name@) is None && e@ == HotKeyErrorV::UnknownKey(name@),
        },
{
    match single_char_code(name) {
        Some(c) => {
            return Ok(c);
        },
        None => {},
    }
    let code = if text::same(name, "space") {
        "Space"
    } else if text::same(name, "enter") || text::same(name, "return") {
        "Enter"
    } else if text::same(name, "tab") {
        "Tab"
    } else if text::same(name, "backquote") || text::same(name, "grave") {
        "Backquote"
    } else if text::same(name, "f1") {
        "F1"
    } else if text::same(name, "f2") {
        "F2"
    } else if text::same(name, "f3") {
        "F3"
    } else if text::same(name, "f4") {
        "F4"
    } else if text::same(name, "f5") {
        "F5"
    } else if text::same(name, "f6") {
        "F6"
    } else if text::same(name, "f7") {
        "F7"
    } else if text::same(name, "f8") {
        "F8"
    } else if text::same(name, "f9") {
        "F9"
    } else if text::same(name, "f10") {
        "F10"
    } else if text::same(name, "f11") {
        "F11"
    } else if text::same(name, "f12") {
        "F12"
    } else {
        return Err(HotKeyError::UnknownKey(text::copy_of(name)));
    };
    Ok(text::copy_of(code))
}

/// The modifiers: 1 for ctrl, 2 for alt, 3 for shift, 4 for the Windows key, 0
/// for anything else.
pub open spec fn modifier(t: Seq<char>) -> int {
    if t == "ctrl"@ || t == "control"@ {
        1
    } else if t == "alt"@ {
        2
    } else if t == "shift"@ {
        3
    } else if t == "win"@ || t == "super"@ || t == "meta"@ || t == "cmd"@ {
        4
    } else {
        0
    }
}

fn modifier_of(t: &str) -> (r: u8)
    ensures
        r == modifier(t@),
{
    if text::same(t, "ctrl") || text::same(t, "control") {
        1
    } else if text::same(t, "alt") {
        2
    } else if text::same(t, "shift") {
        3
    } else if text::same(t, "win") || text::same(t, "super") || text::same(t, "meta") || text::same(t, "cmd") {
        4
    } else {
        0
    }
}

/// A part of a spec, without spaces around it and in lower case.
pub open spec fn token(part: Seq<char>) -> Seq<char> {
    text::lowered(text::trimmed(part))
}

/// A chord with one more token.
pub open spec fn with_token(c: ChordV, t: Seq<char>) -> Result<ChordV, HotKeyErrorV> {
    if modifier(t) == 1 {
        Ok(ChordV { ctrl: true, ..c })
    } else if modifier(t) == 2 {
        Ok(ChordV { alt: true, ..c })
    } else if modifier(t) == 3 {
        Ok(ChordV { shift: true, ..c })
    } else if modifier(t) == 4 {
        Ok(ChordV { meta: true, ..c })
    } else {
        match code_of(t) {
            None => Err(HotKeyErrorV::UnknownKey(t)),
            Some(code) => if c.code is Some {
                Err(HotKeyErrorV::ManyKeys)
            } else {
                Ok(ChordV { code: Some(code), ..c })
            },
        }
    }
}

/// The chord of parts, read from the left up to the first error.
pub open spec fn chord_of(parts: Seq<Seq<char>>) -> Result<ChordV, HotKeyErrorV>
    decreases parts.len(),
{
    if parts.len() == 0 {
        Ok(ChordV { ctrl: false, alt: false, shift: false, meta: false, code: None })
    } else {
        match chord_of(parts.drop_last()) {
            Ok(c) => with_token(c, token(parts.last())),
            Err(e) => Err(e),
        }
    }
}

/// The chord that a spec names; it has a key.
pub open spec fn spec_of(s: Seq<char>) -> Result<ChordV, HotKeyErrorV> {
    match chord_of(text::split(s, '+')) {
        Ok(c) => if c.code is Some {
            Ok(c)
        } else {
            Err(HotKeyErrorV::NoKey)
        },
        Err(e) => Err(e),
    }
}

/// The number under which presses of a hotkey are reported.
pub uninterp spec fn hotkey_id(ctrl: bool, alt: bool, shift: bool, meta: bool, code: Seq<char>) -> u32;

/// `global_hotkey::hotkey::HotKey::new` and `HotKey::id`: the number of the
/// hotkey with the given modifiers and the key whose code has the given name
/// (the unidentified key, if no code has it). The number depends on these
/// alone; which one it is, is left to the name `hotkey_id`.
#[verifier::external_body]
fn id_of(ctrl: bool, alt: bool, shift: bool, meta: bool, code: &str) -> (r: u32)
    ensures
        r == hotkey_id(ctrl, alt, shift, meta, code@),
{
    let mut mods = global_hotkey::hotkey::Modifiers::empty();
    mods.set(global_hotkey::hotkey::Modifiers::CONTROL, ctrl);
    mods.set(global_hotkey::hotkey::Modifiers::ALT, alt);
    mods.set(global_hotkey::hotkey::Modifiers::SHIFT, shift);
    mods.set(global_hotkey::hotkey::Modifiers::META, meta);
    let code = global_hotkey::hotkey::Code::from_str(code);
    let key = code.unwrap_or(global_hotkey::hotkey::Code::Unidentified);
    global_hotkey::hotkey::HotKey::new(Some(mods), key).id()
}

/// Whether a hotkey has the modifiers and the key of a chord.
pub open spec fn is_chord(h: HotKey, c: ChordV) -> bool {
    h.ctrl == c.ctrl && h.alt == c.alt && h.shift == c.shift && h.meta == c.meta && c.code == Some(h.code@)
}

/// Parses specs such as "ctrl+alt+space". Modifiers: ctrl/alt/shift/win. Keys:
/// a-z, 0-9, f1-f12, space/enter/tab/backquote.
pub fn parse(spec: &str) -> (r: Result<HotKey, HotKeyError>)
    ensures
        match r {
            Ok(h) => spec_of(spec@) is Ok && is_chord(h, spec_of(spec@)->Ok_0) && h.id == hotkey_id(
                h.ctrl,
                h.alt,
                h.shift,
                h.meta,
                h.code@,
            ),
            Err(e) => spec_of(spec@) == Err::<ChordV, HotKeyErrorV>(e@),
        },
{
    let parts = text::split_on(spec, '+');
    let ghost pv = text::split(spec@, '+');
    let mut ctrl = false;
    let mut alt = false;
    let mut shift = false;
    let mut meta = false;
    let mut key: Option<String> = None;
    let mut i: usize = 0;
    assert(pv.take(0) =~= Seq::<Seq<char>>::empty());
    while i < parts.len()
        invariant
            0 <= i <= parts@.len(),
            pv == text::views(parts@),
            pv == text::split(spec@, '+'),
            chord_of(pv.take(i as int)) == Ok::<ChordV, HotKeyErrorV>(
                ChordV {
                    ctrl,
                    alt,
                    shift,
                    meta,
                    code: match key {
                        Some(k) => Some(k@),
                        None => None,
                    },
                },
            ),
        decreases parts@.len() - i,
    {
        proof {
            assert(pv.take(i + 1).drop_last() =~= pv.take(i as int));
            assert(pv.take(i + 1).last() == parts@[i as int]@);
        }
        let part = text::trim(parts[i].as_str());
        let t = text::to_lower(part.as_str());
        let m: u8 = modifier_of(t.as_str());
        if m == 1 {
            ctrl = true;
        } else if m == 2 {
            alt = true;
        } else if m == 3 {
            shift = true;
        } else if m == 4 {
            meta = true;
        } else {
            match key_code(t.as_str()) {
                Ok(code) => {
                    if key.is_some() {
                        proof {
                            lemma_error_stays(pv, i + 1);
                        }
                        return Err(HotKeyError::ManyKeys);
                    }
                    key = Some(code);
                },
                Err(e) => {
                    proof {
                        lemma_error_stays(pv, i + 1);
                    }
                    return Err(e);
                },
            }
        }
        i = i + 1;
    }
    assert(pv.take(pv.len() as int) =~= pv);
    match key {
        Some(code) => {
            let id: u32 = id_of(ctrl, alt, shift, meta, code.as_str());
            Ok(HotKey { ctrl, alt, shift, meta, code, id })
        },
        None => Err(HotKeyError::NoKey),
    }
}

/// Parts behind an error do not change it.
proof fn lemma_error_stays(parts: Seq<Seq<char>>, n: int)
    requires
        0 <= n <= parts.len(),
        chord_of(parts.take(n)) is Err,
    ensures
        chord_of(parts) == chord_of(parts.take(n)),
    decreases parts.len(),
{
    if n == parts.len() {
        assert(parts.take(n) =~= parts);
    } else {
        assert(parts.drop_last().take(n) =~= parts.take(n));
        lemma_error_stays(parts.drop_last(), n);
    }
}

/// How many of the parts are keys.
pub open spec fn keys_in(parts: Seq<Seq<char>>) -> int
    decreases parts.len(),
{
    if parts.len() == 0 {
        0
    } else {
        keys_in(parts.drop_last()) + if modifier(token(parts.last())) == 0 {
            1int
        } else {
            0
        }
    }
}

/// Whether every part is a modifier or a key.
pub open spec fn all_known(parts: Seq<Seq<char>>) -> bool {
    forall|i: int|
        0 <= i < parts.len() ==> modifier(token(#[trigger] parts[i])) != 0 || code_of(token(parts[i])) is Some
}

/// A spec names a hotkey if and only if every part is known and exactly one of
/// them is a key.
pub proof fn law_one_key(s: Seq<char>)
    ensures
        spec_of(s) is Ok <==> all_known(text::split(s, '+')) && keys_in(text::split(s, '+')) == 1,
{
    lemma_keys(text::split(s, '+'));
}

proof fn lemma_keys(parts: Seq<Seq<char>>)
    ensures
        keys_in(parts) >= 0,
        chord_of(parts) is Ok <==> all_known(parts) && keys_in(parts) <= 1,
        chord_of(parts) is Ok ==> (chord_of(parts)->Ok_0.code is Some <==> keys_in(parts) == 1),
    decreases parts.len(),
{
    if parts.len() > 0 {
        let t = parts.drop_last();
        lemma_keys(t);
        assert(parts[parts.len() - 1] == parts.last());
        if all_known(parts) {
            assert forall|i: int| 0 <= i < t.len() implies modifier(token(#[trigger] t[i])) != 0 || code_of(
                token(t[i]),
            ) is Some by {
                assert(t[i] == parts[i]);
            }
        }
        if all_known(t) && (modifier(token(parts.last())) != 0 || code_of(token(parts.last())) is Some) {
            assert forall|i: int| 0 <= i < parts.len() implies modifier(token(#[trigger] parts[i])) != 0 || code_of(
                token(parts[i]),
            ) is Some by {
                if i < t.len() {
                    assert(t[i] == parts[i]);
                }
            }
        }
    }
}

// ---------------------------------------------------------------------------
// Registration
// ---------------------------------------------------------------------------

/// The specs that are tried when nothing else is asked for, in order.
pub open spec fn fallbacks() -> Seq<Seq<char>> {
    seq!["ctrl+alt+space"@, "ctrl+shift+space"@, "ctrl+alt+e"@]
}

/// The specs that are tried when nothing else is asked for, in order.
pub fn fallback_specs() -> (r: Vec<&'static str>)
    ensures
        r@.map_values(|s: &str| s@) == fallbacks(),
{
    let mut r: Vec<&'static str> = Vec::new();
    r.push("ctrl+alt+space");
    r.push("ctrl+shift+space");
    r.push("ctrl+alt+e");
    assert(r@.map_values(|s: &str| s@) =~= fallbacks());
    r
}

/// The specs to try: the preferred one first, in lower case.
pub open spec fn specs_for(prefer: Option<Seq<char>>) -> Seq<Seq<char>> {
    let all = match prefer {
        Some(p) => seq![p] + fallbacks(),
        None => fallbacks(),
    };
    all.map_values(|s: Seq<char>| text::lowered(s))
}

/// Why a spec was not registered.
pub enum Refusal {
    /// It is no hotkey.
    Spec(HotKeyError),
    /// The system refused it.
    System(String),
}

/// The model of a refusal.
pub enum RefusalV {
    Spec(HotKeyErrorV),
    System(Seq<char>),
}

impl View for Refusal {
    type V = RefusalV;

    open spec fn view(&self) -> RefusalV {
        match *self {
            Refusal::Spec(e) => RefusalV::Spec(e@),
            Refusal::System(s) => RefusalV::System(s@),
        }
    }
}

/// The models of failures.
pub open spec fn failures_view(v: Seq<(String, Refusal)>) -> Seq<(Seq<char>, RefusalV)> {
    v.map_values(|f: (String, Refusal)| (f.0@, f.1@))
}

/// A walk over the specs to register.
pub struct Registration {
    specs: Vec<String>,
    at: usize,
    failures: Vec<(String, Refusal)>,
}

/// The model of a walk.
#[verifier::ext_equal]
pub struct RegistrationV {
    /// The specs, in the order in which they are tried.
    pub specs: Seq<Seq<char>>,
    /// The next one.
    pub at: int,
    /// Those that were tried, with why they were not registered.
    pub failures: Seq<(Seq<char>, RefusalV)>,
}

impl View for Registration {
    type V = RegistrationV;

    closed spec fn view(&self) -> RegistrationV {
        RegistrationV {
            specs: text::views(self.specs@),
            at: self.at as int,
            failures: failures_view(self.failures@),
        }
    }
}

impl RegistrationV {
    /// The next spec is one of the specs or behind them.
    pub open spec fn wf(self) -> bool {
        0 <= self.at <= self.specs.len()
    }

    /// The walk with the specs from the next one on noted as failures that are
    /// no hotkeys, up to one that is.
    pub open spec fn skipped(self) -> RegistrationV
        decreases self.specs.len() - self.at,
    {
        if self.at < 0 || self.at >= self.specs.len() {
            self
        } else {
            match spec_of(self.specs[self.at]) {
                Ok(_) => self,
                Err(e) => RegistrationV {
                    at: self.at + 1,
                    failures: self.failures.push((self.specs[self.at], RefusalV::Spec(e))),
                    ..self
                }.skipped(),
            }
        }
    }
}

impl Registration {
    /// A walk that tries `prefer` first, then the fallbacks.
    pub fn new(prefer: Option<&str>) -> (r: Registration)
        ensures
            r@.wf(),
            r@ == (RegistrationV {
                specs: specs_for(
                    match prefer {
                        Some(p) => Some(p@),
                        None => None,
                    },
                ),
                at: 0,
                failures: Seq::empty(),
            }),
    {
        let mut specs: Vec<String> = Vec::new();
        match prefer {
            Some(p) => {
                specs.push(text::to_lower(p));
            },
            None => {},
        }
        let rest = fallback_specs();
        let ghost rv = rest@.map_values(|s: &str| s@);
        assert(rv.len() == 3);
        assert(rest@[0]@ == rv[0] && rest@[1]@ == rv[1] && rest@[2]@ == rv[2]);
        specs.push(text::to_lower(rest[0]));
        specs.push(text::to_lower(rest[1]));
        specs.push(text::to_lower(rest[2]));
        let r = Registration { specs, at: 0, failures: Vec::new() };
        proof {
            let p = match prefer {
                Some(p) => Some(p@),
                None => None,
            };
            assert(text::views(specs@) =~= specs_for(p));
            assert(failures_view(r.failures@) =~= Seq::<(Seq<char>, RefusalV)>::empty());
        }
        r
    }

    /// The next hotkey to ask the system for, with its spec; `None` if none is
    /// left. Specs that are no hotkeys are noted and passed over.
    pub fn next(&mut self) -> (r: Option<(HotKey, String)>)
        requires
            old(self)@.wf(),
        ensures
            final(self)@ == old(self)@.skipped(),
            final(self)@.wf(),
            match r {
                Some((h, s)) => {
                    let n = final(self)@;
                    &&& n.at < n.specs.len()
                    &&& s@ == n.specs[n.at]
                    &&& spec_of(s@) is Ok
                    &&& is_chord(h, spec_of(s@)->Ok_0)
                    &&& h.id == hotkey_id(h.ctrl, h.alt, h.shift, h.meta, h.code@)
                },
                None => final(self)@.at == final(self)@.specs.len(),
            },
    {
        let ghost start = self@;
        while self.at < self.specs.len()
            invariant
                self@.wf(),
                start == old(self)@,
                start.skipped() == self@.skipped(),
            decreases self.specs@.len() - self.at,
        {
            let ghost before = self@;
            let i: usize = self.at;
            assert(self@.specs[i as int] == self.specs@[i as int]@);
            match parse(self.specs[i].as_str()) {
                Ok(h) => {
                    let s = self.specs[i].clone();
                    return Some((h, s));
                },
                Err(e) => {
                    let s = self.specs[i].clone();
                    let ghost f0 = failures_view(self.failures@);
                    self.failures.push((s, Refusal::Spec(e)));
                    self.at = i + 1;
                    proof {
                        assert(failures_view(self.failures@) =~= f0.push((s@, RefusalV::Spec(e@))));
                    }
                },
            }
        }
        None
    }

    /// Notes that the system refused the hotkey that `next` gave.
    pub fn refused(&mut self, why: &str)
        requires
            old(self)@.wf(),
            old(self)@.at < old(self)@.specs.len(),
        ensures
            final(self)@.wf(),
            final(self)@ == (RegistrationV {
                at: old(self)@.at + 1,
                failures: old(self)@.failures.push((old(self)@.specs[old(self)@.at], RefusalV::System(why@))),
                ..old(self)@
            }),
    {
        let ghost f0 = failures_view(self.failures@);
        let i: usize = self.at;
        assert(i < self.specs.len());
        let s = self.specs[i].clone();
        self.failures.push((s, Refusal::System(text::copy_of(why))));
        self.at = i + 1;
        assert(failures_view(self.failures@) =~= f0.push((s@, RefusalV::System(why@))));
    }

    /// What was tried, with why it was not registered.
    pub fn into_failures(self) -> (r: Vec<(String, Refusal)>)
        ensures
            failures_view(r@) == self@.failures,
    {
        self.failures
    }
}

/// Nothing is tried twice, and nothing is passed over in silence: what `next`
/// passes over is noted, in order, and every spec before the next one has its
/// failure.
pub proof fn law_failures_account_for_specs(w: RegistrationV)
    requires
        w.wf(),
        w.failures.len() == w.at,
        forall|i: int| 0 <= i < w.at ==> (#[trigger] w.failures[i]).0 == w.specs[i],
    ensures
        ({
            let n = w.skipped();
            &&& n.wf()
            &&& n.specs == w.specs
            &&& w.at <= n.at
            &&& n.failures.len() == n.at
            &&& forall|i: int| 0 <= i < n.at ==> (#[trigger] n.failures[i]).0 == n.specs[i]
            &&& n.at < n.specs.len() ==> spec_of(n.specs[n.at]) is Ok
        }),
    decreases w.specs.len() - w.at,
{
    if w.at < w.specs.len() && spec_of(w.specs[w.at]) is Err {
        let e = spec_of(w.specs[w.at])->Err_0;
        let m = RegistrationV {
            at: w.at + 1,
            failures: w.failures.push((w.specs[w.at], RefusalV::Spec(e))),
            ..w
        };
        assert forall|i: int| 0 <= i < m.at implies (#[trigger] m.failures[i]).0 == m.specs[i] by {
            if i < w.at {
                assert(m.failures[i] == w.failures[i]);
            }
        }
        law_failures_account_for_specs(m);
    }
}

// ---------------------------------------------------------------------------
// What specs mean
// ---------------------------------------------------------------------------

/// The key of a letter is named by its capital, that of a digit by the digit,
/// and no other single character but the backquote names one.
pub proof fn law_letters_and_digits_are_keys(c: char)
    ensures
        'a' <= c <= 'z' ==> code_of(seq![c]) is Some && ({
            let k = code_of(seq![c])->0;
            k.len() == 4 && k.take(3) == seq!['K', 'e', 'y'] && k[3] as u32 + 32 == c as u32
        }),
        '0' <= c <= '9' ==> code_of(seq![c]) == Some(seq!['D', 'i', 'g', 'i', 't', c]),
        c == '`' ==> code_of(seq![c]) == Some("Backquote"@),
        !('a' <= c <= 'z') && !('0' <= c <= '9') && c != '`' ==> code_of(seq![c]) is None,
{
    lemma_name_lengths();
    reveal_strlit("Key");
    reveal_strlit("Digit");
    let n = seq![c];
    assert(n.len() == 1 && n[0] == c);
    if 'a' <= c <= 'z' {
        let k = code_of(n)->0;
        let m: u32 = (c as u32 - 32) as u32;
        vstd::utf8::char_u32_cast((m as char), m);
        assert(k.take(3) =~= seq!['K', 'e', 'y']);
    } else if '0' <= c <= '9' {
        assert("Digit"@.push(c) =~= seq!['D', 'i', 'g', 'i', 't', c]);
    }
}

/// Names of keys have more than one character.
proof fn lemma_name_lengths()
    ensures
        "space"@.len() == 5,
        "enter"@.len() == 5,
        "return"@.len() == 6,
        "tab"@.len() == 3,
        "backquote"@.len() == 9,
        "grave"@.len() == 5,
        "f1"@ == seq!['f', '1'],
        "f2"@ == seq!['f', '2'],
        "f3"@ == seq!['f', '3'],
        "f4"@ == seq!['f', '4'],
        "f5"@ == seq!['f', '5'],
        "f6"@ == seq!['f', '6'],
        "f7"@ == seq!['f', '7'],
        "f8"@ == seq!['f', '8'],
        "f9"@ == seq!['f', '9'],
        "f10"@ == seq!['f', '1', '0'],
        "f11"@ == seq!['f', '1', '1'],
        "f12"@ == seq!['f', '1', '2'],
{
    reveal_strlit("space");
    reveal_strlit("enter");
    reveal_strlit("return");
    reveal_strlit("tab");
    reveal_strlit("backquote");
    reveal_strlit("grave");
    reveal_strlit("f1");
    reveal_strlit("f2");
    reveal_strlit("f3");
    reveal_strlit("f4");
    reveal_strlit("f5");
    reveal_strlit("f6");
    reveal_strlit("f7");
    reveal_strlit("f8");
    reveal_strlit("f9");
    reveal_strlit("f10");
    reveal_strlit("f11");
    reveal_strlit("f12");
    assert("f1"@ =~= seq!['f', '1']);
    assert("f2"@ =~= seq!['f', '2']);
    assert("f3"@ =~= seq!['f', '3']);
    assert("f4"@ =~= seq!['f', '4']);
    assert("f5"@ =~= seq!['f', '5']);
    assert("f6"@ =~= seq!['f', '6']);
    assert("f7"@ =~= seq!['f', '7']);
    assert("f8"@ =~= seq!['f', '8']);
    assert("f9"@ =~= seq!['f', '9']);
    assert("f10"@ =~= seq!['f', '1', '0']);
    assert("f11"@ =~= seq!['f', '1', '1']);
    assert("f12"@ =~= seq!['f', '1', '2']);
}

/// The function keys with one digit have the code of the same number.
proof fn lemma_short_function_keys(c: char)
    requires
        '1' <= c <= '9',
    ensures
        named_code(seq!['f', c]) == Some(seq!['F', c]),
{
    lemma_name_lengths();
    reveal_strlit("F1");
    reveal_strlit("F2");
    reveal_strlit("F3");
    reveal_strlit("F4");
    reveal_strlit("F5");
    reveal_strlit("F6");
    reveal_strlit("F7");
    reveal_strlit("F8");
    reveal_strlit("F9");
    let n = seq!['f', c];
    assert(n.len() == 2 && n[1] == c);
    assert(seq!['f', '1'][1] == '1' && seq!['f', '2'][1] == '2' && seq!['f', '3'][1] == '3' && seq!['f', '4'][1] == '4'
        && seq!['f', '5'][1] == '5' && seq!['f', '6'][1] == '6' && seq!['f', '7'][1] == '7' && seq!['f', '8'][1] == '8'
        && seq!['f', '9'][1] == '9');
    assert(c == '1' || c == '2' || c == '3' || c == '4' || c == '5' || c == '6' || c == '7' || c == '8' || c == '9');
    assert("F1"@ =~= seq!['F', '1'] && "F2"@ =~= seq!['F', '2'] && "F3"@ =~= seq!['F', '3']);
    assert("F4"@ =~= seq!['F', '4'] && "F5"@ =~= seq!['F', '5'] && "F6"@ =~= seq!['F', '6']);
    assert("F7"@ =~= seq!['F', '7'] && "F8"@ =~= seq!['F', '8'] && "F9"@ =~= seq!['F', '9']);
}

/// The function keys from 10 to 12 have the code of the same number.
proof fn lemma_long_function_keys(c: char)
    requires
        '0' <= c <= '2',
    ensures
        named_code(seq!['f', '1', c]) == Some(seq!['F', '1', c]),
{
    lemma_name_lengths();
    reveal_strlit("tab");
    reveal_strlit("F10");
    reveal_strlit("F11");
    reveal_strlit("F12");
    let n = seq!['f', '1', c];
    assert(n.len() == 3 && n[0] == 'f' && n[2] == c);
    assert("tab"@[0] == 't');
    assert(seq!['f', '1', '0'][2] == '0' && seq!['f', '1', '1'][2] == '1' && seq!['f', '1', '2'][2] == '2');
    assert(c == '0' || c == '1' || c == '2');
    assert("F10"@ =~= seq!['F', '1', '0'] && "F11"@ =~= seq!['F', '1', '1'] && "F12"@ =~= seq!['F', '1', '2']);
}

/// There are twelve function keys: "f" with a number from 1 to 12 is the key
/// with that number, and with any other number none.
pub proof fn law_there_are_twelve_function_keys(n: nat)
    ensures
        1 <= n <= 12 ==> code_of(seq!['f'] + text::decimal(n)) == Some(seq!['F'] + text::decimal(n)),
        n == 0 || n > 12 ==> code_of(seq!['f'] + text::decimal(n)) is None,
{
    let d = text::decimal(n);
    let name = seq!['f'] + d;
    lemma_name_lengths();
    text::lemma_decimal_value(n);
    assert(name.len() > 1);
    if n < 10 {
        let c = text::digit_char(n as int);
        assert(d =~= seq![c]);
        assert(name =~= seq!['f', c]);
        if n >= 1 {
            lemma_short_function_keys(c);
            assert(seq!['F'] + d =~= seq!['F', c]);
        } else {
            assert(name[1] == '0' && name.len() == 2);
            assert(seq!['f', '1'][1] == '1' && seq!['f', '2'][1] == '2' && seq!['f', '3'][1] == '3' && seq!['f', '4'][1]
                == '4' && seq!['f', '5'][1] == '5' && seq!['f', '6'][1] == '6' && seq!['f', '7'][1] == '7' && seq![
                'f',
                '8',
            ][1] == '8' && seq!['f', '9'][1] == '9');
        }
    } else if n <= 12 {
        assert(n / 10 == 1);
        let c = text::digit_char((n % 10) as int);
        assert(text::decimal(1) =~= seq!['1']);
        assert(d =~= seq!['1', c]);
        assert(name =~= seq!['f', '1', c]);
        lemma_long_function_keys(c);
        assert(seq!['F'] + d =~= seq!['F', '1', c]);
    } else {
        if code_of(name) is Some {
            lemma_only_known_names(name);
            assert(name[0] == 'f' && name.drop_first() =~= d);
            lemma_first_letters();
            reveal_with_fuel(text::decimal, 3);
            if name == "f10"@ {
                assert(d =~= text::decimal(10));
            } else if name == "f11"@ {
                assert(d =~= text::decimal(11));
            } else if name == "f12"@ {
                assert(d =~= text::decimal(12));
            } else {
                assert(d.len() == 1);
                lemma_one_digit(n);
            }
            text::lemma_decimal_value(10);
            text::lemma_decimal_value(11);
            text::lemma_decimal_value(12);
        }
    }
}

proof fn lemma_one_digit(n: nat)
    requires
        text::decimal(n).len() == 1,
    ensures
        n < 10,
{
    if n >= 10 {
        text::lemma_decimal_value(n / 10);
    }
}

/// The first letters of the names of keys.
proof fn lemma_first_letters()
    ensures
        "space"@[0] == 's',
        "enter"@[0] == 'e',
        "return"@[0] == 'r',
        "tab"@[0] == 't',
        "backquote"@[0] == 'b',
        "grave"@[0] == 'g',
{
    reveal_strlit("space");
    reveal_strlit("enter");
    reveal_strlit("return");
    reveal_strlit("tab");
    reveal_strlit("backquote");
    reveal_strlit("grave");
}

proof fn lemma_only_known_names(name: Seq<char>)
    requires
        name.len() > 1,
        code_of(name) is Some,
    ensures
        name == "space"@ || name == "enter"@ || name == "return"@ || name == "tab"@ || name == "backquote"@ || name
            == "grave"@ || name == "f10"@ || name == "f11"@ || name == "f12"@ || (name.len() == 2 && name[0] == 'f'),
{
    lemma_name_lengths();
}

/// The other keys with names: space, enter (or return), tab and backquote (or
/// grave), each with its own code; no other name is a key but those of the
/// function keys.
pub proof fn law_named_keys(name: Seq<char>)
    ensures
        code_of("space"@) == Some("Space"@),
        code_of("enter"@) == Some("Enter"@),
        code_of("return"@) == Some("Enter"@),
        code_of("tab"@) == Some("Tab"@),
        code_of("backquote"@) == Some("Backquote"@),
        code_of("grave"@) == Some("Backquote"@),
        code_of(name) is Some && name.len() > 1 && name[0] != 'f' ==> name == "space"@ || name == "enter"@ || name
            == "return"@ || name == "tab"@ || name == "backquote"@ || name == "grave"@,
{
    lemma_name_lengths();
    lemma_first_letters();
    if code_of(name) is Some && name.len() > 1 && name[0] != 'f' {
        lemma_only_known_names(name);
    }
}

/// What a part of a spec says: its text without white space around it, in lower
/// case.
pub open spec fn says(part: Seq<char>, word: Seq<char>) -> bool {
    text::lowered(text::trimmed(part)) == word
}

/// Whether some part of a spec says a word.
pub open spec fn some_says(parts: Seq<Seq<char>>, word: Seq<char>) -> bool {
    exists|i: int| 0 <= i < parts.len() && says(#[trigger] parts[i], word)
}

/// Whether a part names a modifier.
pub open spec fn is_modifier(part: Seq<char>) -> bool {
    says(part, "ctrl"@) || says(part, "control"@) || says(part, "alt"@) || says(part, "shift"@) || says(part, "win"@)
        || says(part, "super"@) || says(part, "meta"@) || says(part, "cmd"@)
}

/// A hotkey has a modifier if and only if some part of its spec names it,
/// wherever that part stands, and its key is the part that names no modifier.
pub proof fn law_parts_make_the_hotkey(s: Seq<char>, i: int)
    requires
        spec_of(s) is Ok,
    ensures
        ({
            let c = spec_of(s)->Ok_0;
            let parts = text::split(s, '+');
            &&& c.ctrl <==> some_says(parts, "ctrl"@) || some_says(parts, "control"@)
            &&& c.alt <==> some_says(parts, "alt"@)
            &&& c.shift <==> some_says(parts, "shift"@)
            &&& c.meta <==> some_says(parts, "win"@) || some_says(parts, "super"@) || some_says(parts, "meta"@)
                || some_says(parts, "cmd"@)
            &&& 0 <= i < parts.len() && !is_modifier(parts[i]) ==> c.code == code_of(
                text::lowered(text::trimmed(parts[i])),
            ) && c.code is Some
        }),
{
    lemma_parts_make_the_chord(text::split(s, '+'));
}

/// One more part says a word if it does or one before it does.
proof fn lemma_some_says(parts: Seq<Seq<char>>, word: Seq<char>)
    requires
        parts.len() > 0,
    ensures
        some_says(parts, word) <==> some_says(parts.drop_last(), word) || says(parts.last(), word),
{
    let t = parts.drop_last();
    if some_says(t, word) {
        let i = choose|i: int| 0 <= i < t.len() && says(#[trigger] t[i], word);
        assert(says(parts[i], word));
    }
    if says(parts.last(), word) {
        assert(says(parts[parts.len() - 1], word));
    }
    if some_says(parts, word) {
        let i = choose|i: int| 0 <= i < parts.len() && says(#[trigger] parts[i], word);
        if i < t.len() {
            assert(says(t[i], word));
        }
    }
}

/// Modifiers are different words.
proof fn lemma_modifier_words()
    ensures
        "ctrl"@[0] == 'c' && "ctrl"@.len() == 4,
        "control"@[0] == 'c' && "control"@.len() == 7,
        "alt"@[0] == 'a',
        "shift"@[0] == 's' && "shift"@.len() == 5 && "shift"@[1] == 'h',
        "win"@[0] == 'w',
        "super"@[0] == 's' && "super"@[1] == 'u',
        "meta"@[0] == 'm',
        "cmd"@[0] == 'c' && "cmd"@.len() == 3,
{
    reveal_strlit("ctrl");
    reveal_strlit("control");
    reveal_strlit("alt");
    reveal_strlit("shift");
    reveal_strlit("win");
    reveal_strlit("super");
    reveal_strlit("meta");
    reveal_strlit("cmd");
}

proof fn lemma_parts_make_the_chord(parts: Seq<Seq<char>>)
    requires
        chord_of(parts) is Ok,
    ensures
        ({
            let c = chord_of(parts)->Ok_0;
            &&& c.ctrl <==> some_says(parts, "ctrl"@) || some_says(parts, "control"@)
            &&& c.alt <==> some_says(parts, "alt"@)
            &&& c.shift <==> some_says(parts, "shift"@)
            &&& c.meta <==> some_says(parts, "win"@) || some_says(parts, "super"@) || some_says(parts, "meta"@)
                || some_says(parts, "cmd"@)
            &&& forall|i: int|
                0 <= i < parts.len() && !is_modifier(#[trigger] parts[i]) ==> c.code == code_of(
                    text::lowered(text::trimmed(parts[i])),
                ) && c.code is Some
        }),
    decreases parts.len(),
{
    lemma_modifier_words();
    if parts.len() > 0 {
        let t = parts.drop_last();
        lemma_parts_make_the_chord(t);
        lemma_some_says(parts, "ctrl"@);
        lemma_some_says(parts, "control"@);
        lemma_some_says(parts, "alt"@);
        lemma_some_says(parts, "shift"@);
        lemma_some_says(parts, "win"@);
        lemma_some_says(parts, "super"@);
        lemma_some_says(parts, "meta"@);
        lemma_some_says(parts, "cmd"@);
        let c = chord_of(parts)->Ok_0;
        let b = chord_of(t)->Ok_0;
        assert(is_modifier(parts.last()) <==> modifier(token(parts.last())) != 0);
        assert forall|i: int| 0 <= i < parts.len() && !is_modifier(#[trigger] parts[i]) implies c.code == code_of(
            text::lowered(text::trimmed(parts[i])),
        ) && c.code is Some by {
            if i < t.len() {
                assert(t[i] == parts[i]);
                assert(b.code is Some);
                if !is_modifier(parts.last()) {
                    assert(false);
                }
            }
        }
    }
}

/// Why a spec is refused: the first part that is neither a modifier nor a key
/// is named, unless two keys stand before it.
pub proof fn law_the_first_unknown_part_is_named(parts: Seq<Seq<char>>, i: int)
    requires
        0 <= i < parts.len(),
        chord_of(parts.take(i)) is Ok,
    ensures
        !is_modifier(parts[i]) && code_of(text::lowered(text::trimmed(parts[i]))) is None ==> chord_of(parts) == Err::<
            ChordV,
            HotKeyErrorV,
        >(HotKeyErrorV::UnknownKey(text::lowered(text::trimmed(parts[i])))),
        !is_modifier(parts[i]) && code_of(text::lowered(text::trimmed(parts[i]))) is Some && (exists|k: int|
            0 <= k < i && !is_modifier(#[trigger] parts[k])) ==> chord_of(parts) == Err::<ChordV, HotKeyErrorV>(
            HotKeyErrorV::ManyKeys,
        ),
{
    let h = parts.take(i);
    let n = parts.take(i + 1);
    lemma_parts_make_the_chord(h);
    lemma_modifier_words();
    assert(n.drop_last() =~= h);
    assert(n.last() == parts[i]);
    assert(is_modifier(parts[i]) <==> modifier(token(parts[i])) != 0);
    if exists|k: int| 0 <= k < i && !is_modifier(#[trigger] parts[k]) {
        let k = choose|k: int| 0 <= k < i && !is_modifier(#[trigger] parts[k]);
        assert(!is_modifier(h[k]));
    }
    if chord_of(n) is Err {
        lemma_error_stays(parts, i + 1);
    }
}

/// A spec of modifiers alone is refused for want of a key.
pub proof fn law_modifiers_alone_are_no_hotkey(s: Seq<char>)
    requires
        forall|i: int| 0 <= i < text::split(s, '+').len() ==> is_modifier(#[trigger] text::split(s, '+')[i]),
    ensures
        spec_of(s) == Err::<ChordV, HotKeyErrorV>(HotKeyErrorV::NoKey),
{
    lemma_modifiers_have_no_key(text::split(s, '+'));
}

proof fn lemma_modifiers_have_no_key(parts: Seq<Seq<char>>)
    requires
        forall|i: int| 0 <= i < parts.len() ==> is_modifier(#[trigger] parts[i]),
    ensures
        chord_of(parts) is Ok,
        chord_of(parts)->Ok_0.code is None,
    decreases parts.len(),
{
    lemma_modifier_words();
    if parts.len() > 0 {
        let t = parts.drop_last();
        assert forall|i: int| 0 <= i < t.len() implies is_modifier(#[trigger] t[i]) by {
            assert(t[i] == parts[i]);
        }
        lemma_modifiers_have_no_key(t);
        assert(is_modifier(parts[parts.len() - 1]));
    }
}

/// The preferred hotkey is tried first; behind it come Ctrl+Alt+Space,
/// Ctrl+Shift+Space and Ctrl+Alt+E, in this order, and nothing else.
pub proof fn law_the_preferred_hotkey_is_tried_first(p: Seq<char>)
    ensures
        specs_for(None) == seq!["ctrl+alt+space"@, "ctrl+shift+space"@, "ctrl+alt+e"@],
        specs_for(Some(p)) == seq![text::lowered(p)] + specs_for(None),
{
    reveal_strlit("ctrl+alt+space");
    reveal_strlit("ctrl+shift+space");
    reveal_strlit("ctrl+alt+e");
    assert(text::lowered("ctrl+alt+space"@) =~= "ctrl+alt+space"@);
    assert(text::lowered("ctrl+shift+space"@) =~= "ctrl+shift+space"@);
    assert(text::lowered("ctrl+alt+e"@) =~= "ctrl+alt+e"@);
    assert(specs_for(None) =~= seq!["ctrl+alt+space"@, "ctrl+shift+space"@, "ctrl+alt+e"@]);
    assert(specs_for(Some(p)) =~= seq![text::lowered(p)] + specs_for(None));
}

/// Only specs that are no hotkeys are passed over, each with why it is none.
pub proof fn law_only_bad_specs_are_passed_over(w: RegistrationV, i: int)
    requires
        w.wf(),
        w.failures.len() == w.at,
        w.at <= i < w.skipped().at,
    ensures
        spec_of(w.specs[i]) is Err,
        i < w.skipped().failures.len(),
        w.skipped().failures[i] == (w.specs[i], RefusalV::Spec(spec_of(w.specs[i])->Err_0)),
        w.skipped().failures.take(w.at) == w.failures,
    decreases w.specs.len() - w.at,
{
    if w.at < w.specs.len() && spec_of(w.specs[w.at]) is Err {
        let e = spec_of(w.specs[w.at])->Err_0;
        let m = RegistrationV {
            at: w.at + 1,
            failures: w.failures.push((w.specs[w.at], RefusalV::Spec(e))),
            ..w
        };
        lemma_skipped_keeps(m);
        let g = m.skipped();
        assert(g.failures.take(m.at) == m.failures);
        assert(g.failures[w.at] == g.failures.take(m.at)[w.at]);
        assert(g.failures.take(w.at) =~= m.failures.take(w.at));
        assert(m.failures.take(w.at) =~= w.failures);
        if i > w.at {
            law_only_bad_specs_are_passed_over(m, i);
        }
    }
}

proof fn lemma_skipped_keeps(w: RegistrationV)
    requires
        w.wf(),
        w.failures.len() == w.at,
    ensures
        w.skipped().failures.len() >= w.failures.len(),
        w.skipped().failures.take(w.at) == w.failures,
    decreases w.specs.len() - w.at,
{
    if w.at < w.specs.len() && spec_of(w.specs[w.at]) is Err {
        let e = spec_of(w.specs[w.at])->Err_0;
        let m = RegistrationV {
            at: w.at + 1,
            failures: w.failures.push((w.specs[w.at], RefusalV::Spec(e))),
            ..w
        };
        lemma_skipped_keeps(m);
        assert(m.skipped().failures.take(w.at) =~= m.skipped().failures.take(m.at).take(w.at));
        assert(m.failures.take(w.at) =~= w.failures);
    } else {
        assert(w.failures.take(w.at) =~= w.failures);
    }
}

} // verus!
