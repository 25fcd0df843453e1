//! Launch at login through the per-user registry Run key: what is stored there,
//! and what is read from it.

use vstd::prelude::*;

use crate::text;

verus! {

/// The registry type of texts.
pub const REG_SZ: u32 = 1;

/// The status of deleting a value that is not there.
pub const NOT_FOUND: u32 = 2;

/// The key under which programs to launch are stored.
pub fn run_key() -> (r: String)
    ensures
        r@ == "Software\\Microsoft\\Windows\\CurrentVersion\\Run"@,
{
    text::copy_of("Software\\Microsoft\\Windows\\CurrentVersion\\Run")
}

/// The name of this program's value.
pub fn value_name() -> (r: String)
    ensures
        r@ == "fastrans"@,
{
    text::copy_of("fastrans")
}

/// The command that launches a program: its path in quotes.
pub fn exe_command(path: &str) -> (r: String)
    ensures
        r@ == seq!['"'] + path@ + seq!['"'],
{
    let mut out = String::new();
    out.push('"');
    out.append(path);
    out.push('"');
    assert(out@ =~= seq!['"'] + path@ + seq!['"']);
    out
}

// ---------------------------------------------------------------------------
// UTF-16
// ---------------------------------------------------------------------------

/// The UTF-16 units of a character.
pub open spec fn units_of(c: char) -> Seq<u16> {
    let n = c as u32;
    if n < 0x10000 {
        seq![n as u16]
    } else {
        seq![(0xd800 + (n - 0x10000) / 0x400) as u16, (0xdc00 + (n - 0x10000) % 0x400) as u16]
    }
}

/// The UTF-16 units of a text.
pub open spec fn encoded(s: Seq<char>) -> Seq<u16>
    decreases s.len(),
{
    if s.len() == 0 {
        Seq::empty()
    } else {
        encoded(s.drop_last()) + units_of(s.last())
    }
}

/// A text as UTF-16, with a zero at its end.
pub fn wide(s: &str) -> (r: Vec<u16>)
    ensures
        r@ == encoded(s@).push(0),
{
    let v = text::chars_of(s);
    let mut out: Vec<u16> = Vec::new();
    let mut i: usize = 0;
    assert(s@.take(0) =~= Seq::<char>::empty());
    while i < v.len()
        invariant
            0 <= i <= v@.len(),
            v@ == s@,
            out@ == encoded(s@.take(i as int)),
        decreases v@.len() - i,
    {
        let n: u32 = v[i] as u32;
        proof {
            assert(s@.take(i + 1).drop_last() =~= s@.take(i as int));
            assert(s@.take(i + 1).last() == v@[i as int]);
        }
        let ghost before = out@;
        if n < 0x10000 {
            out.push(n as u16);
            assert(out@ =~= before + units_of(v@[i as int]));
        } else {
            let m: u32 = n - 0x10000;
            out.push((0xd800 + m / 0x400) as u16);
            out.push((0xdc00 + m % 0x400) as u16);
            assert(out@ =~= before + units_of(v@[i as int]));
        }
        i = i + 1;
    }
    assert(s@.take(s@.len() as int) =~= s@);
    out.push(0);
    out
}

/// Whether a unit starts a pair.
pub open spec fn is_high(u: u16) -> bool {
    0xd800 <= u < 0xdc00
}

/// Whether a unit ends a pair.
pub open spec fn is_low(u: u16) -> bool {
    0xdc00 <= u < 0xe000
}

/// The character of a pair.
pub open spec fn pair_char(a: u16, b: u16) -> char {
    (0x10000 + (a - 0xd800) * 0x400 + (b - 0xdc00)) as char
}

/// The characters of UTF-16 units from place `i` on; a unit without its partner
/// is read as the replacement character.
pub open spec fn decoded(u: Seq<u16>, i: int) -> Seq<char>
    decreases u.len() - i,
{
    if i < 0 || i >= u.len() {
        Seq::empty()
    } else if is_high(u[i]) && i + 1 < u.len() && is_low(u[i + 1]) {
        seq![pair_char(u[i], u[i + 1])] + decoded(u, i + 2)
    } else if is_high(u[i]) || is_low(u[i]) {
        seq!['\u{fffd}'] + decoded(u, i + 1)
    } else {
        seq![u[i] as char] + decoded(u, i + 1)
    }
}

/// `char::from_u32` gives the character with a number; there is none for the
/// numbers of surrogates and beyond the last code point.
pub assume_specification[ char::from_u32 ](i: u32) -> (r: Option<char>)
    ensures
        r is Some <==> i < 0xd800 || 0xe000 <= i <= 0x10ffff,
        r is Some ==> r->0 as u32 == i,
;

/// The characters of UTF-16 units.
pub fn from_wide(u: &Vec<u16>) -> (r: String)
    ensures
        r@ == decoded(u@, 0),
{
    let mut out = String::new();
    let mut i: usize = 0;
    assert(out@ + decoded(u@, 0) =~= decoded(u@, 0));
    while i < u.len()
        invariant
            0 <= i <= u@.len(),
            out@ + decoded(u@, i as int) == decoded(u@, 0),
        decreases u@.len() - i,
    {
        let a: u16 = u[i];
        let ghost before = out@;
        let pair = 0xd800 <= a && a < 0xdc00 && i < u.len() - 1 && 0xdc00 <= u[i + 1] && u[i + 1] < 0xe000;
        if pair {
            let b: u16 = u[i + 1];
            let n: u32 = 0x10000 + (a as u32 - 0xd800) * 0x400 + (b as u32 - 0xdc00);
            match char::from_u32(n) {
                Some(c) => {
                    out.push(c);
                    proof {
                        vstd::utf8::char_u32_cast(c, n);
                        assert(c == pair_char(a, b));
                        assert(before + (seq![c] + decoded(u@, i + 2)) =~= before.push(c) + decoded(u@, i + 2));
                    }
                },
                None => {},
            }
            i = i + 2;
        } else {
            let c = match char::from_u32(a as u32) {
                Some(c) => c,
                None => '\u{fffd}',
            };
            out.push(c);
            proof {
                vstd::utf8::char_u32_cast(c, c as u32);
            }
            assert(before + (seq![c] + decoded(u@, i + 1)) =~= before.push(c) + decoded(u@, i + 1));
            i = i + 1;
        }
    }
    assert(out@ + decoded(u@, u@.len() as int) =~= out@);
    out
}

/// A character is read back from its units.
proof fn lemma_units(u: Seq<u16>, c: char)
    requires
        u.len() >= units_of(c).len(),
        u.take(units_of(c).len() as int) == units_of(c),
    ensures
        decoded(u, 0) == seq![c] + decoded(u, units_of(c).len() as int),
{
    let n = c as u32;
    assert(n < 0xd800 || 0xe000 <= n <= 0x10ffff);
    assert(u[0] == u.take(units_of(c).len() as int)[0]);
    if n < 0x10000 {
        assert(u[0] == n as u16);
        assert((n as u16) as char == c);
    } else {
        assert(u[1] == u.take(units_of(c).len() as int)[1]);
        let m = n - 0x10000;
        assert(0 <= m < 0x100000);
        let a = (0xd800 + m / 0x400) as u16;
        let b = (0xdc00 + m % 0x400) as u16;
        assert(u[0] == a && u[1] == b);
        assert(0xd800 <= a < 0xdc00);
        assert(0xdc00 <= b < 0xe000);
        assert((a - 0xd800) * 0x400 + (b - 0xdc00) == m);
        assert(pair_char(a, b) == c);
    }
}

/// Places of units count from the start.
proof fn lemma_decoded_shift(u: Seq<u16>, k: int, i: int)
    requires
        0 <= k,
        0 <= i,
        k + i <= u.len(),
    ensures
        decoded(u.skip(k), i) == decoded(u, k + i),
    decreases u.len() - i,
{
    let w = u.skip(k);
    if i < w.len() {
        assert(w[i] == u[k + i]);
        if i + 1 < w.len() {
            assert(w[i + 1] == u[k + i + 1]);
        }
        lemma_decoded_shift(u, k, i + 1);
        if i + 2 <= w.len() {
            lemma_decoded_shift(u, k, i + 2);
        }
    }
}

/// The units of a text, character by character from the left.
proof fn lemma_encoded_first(s: Seq<char>)
    requires
        s.len() > 0,
    ensures
        encoded(s) == units_of(s[0]) + encoded(s.drop_first()),
    decreases s.len(),
{
    if s.len() == 1 {
        assert(s.drop_last() =~= Seq::<char>::empty());
        assert(s.drop_first() =~= Seq::<char>::empty());
        assert(encoded(s.drop_last()) == Seq::<u16>::empty());
        assert(encoded(s) =~= units_of(s[0]) + encoded(s.drop_first()));
    } else {
        lemma_encoded_first(s.drop_last());
        let t = s.drop_last().drop_first();
        assert(s.drop_first().drop_last() =~= t);
        assert(s.drop_last()[0] == s[0]);
        assert(s.drop_first().last() == s.last());
        assert((units_of(s[0]) + encoded(t)) + units_of(s.last()) =~= units_of(s[0]) + (encoded(t) + units_of(s.last())));
    }
}

/// A text comes back from its UTF-16 units.
pub proof fn law_wide_text_is_read_back(s: Seq<char>)
    ensures
        decoded(encoded(s), 0) == s,
    decreases s.len(),
{
    if s.len() > 0 {
        let u = encoded(s);
        let k = units_of(s[0]).len() as int;
        lemma_encoded_first(s);
        assert(u.take(k) =~= units_of(s[0]));
        lemma_units(u, s[0]);
        assert(u.skip(k) =~= encoded(s.drop_first()));
        lemma_decoded_shift(u, k, 0);
        law_wide_text_is_read_back(s.drop_first());
        assert(seq![s[0]] + s.drop_first() =~= s);
    } else {
        assert(s =~= Seq::<char>::empty());
    }
}

// ---------------------------------------------------------------------------
// The stored value
// ---------------------------------------------------------------------------

/// The units of a stored value: bytes by twos, the lower one first, up to the
/// first zero unit.
pub open spec fn stored_units(b: Seq<u8>, i: int) -> Seq<u16>
    decreases b.len() - i,
{
    if i < 0 || i + 1 >= b.len() || (b[i] == 0 && b[i + 1] == 0) {
        Seq::empty()
    } else {
        seq![(b[i] + 256 * b[i + 1]) as u16] + stored_units(b, i + 2)
    }
}

fn read_units(b: &Vec<u8>) -> (r: Vec<u16>)
    ensures
        r@ == stored_units(b@, 0),
{
    let mut out: Vec<u16> = Vec::new();
    let mut i: usize = 0;
    let mut open = true;
    assert(out@ + stored_units(b@, 0) =~= stored_units(b@, 0));
    while open && b.len() >= 2 && i <= b.len() - 2
        invariant
            0 <= i <= b@.len(),
            open ==> out@ + stored_units(b@, i as int) == stored_units(b@, 0),
            !open ==> out@ == stored_units(b@, 0),
        decreases b@.len() - i + if open { 1int } else { 0 },
    {
        let u: u16 = b[i] as u16 + 256 * (b[i + 1] as u16);
        if u == 0 {
            assert(out@ + Seq::<u16>::empty() =~= out@);
            open = false;
        } else {
            let ghost before = out@;
            out.push(u);
            assert(before + (seq![u] + stored_units(b@, i + 2)) =~= before.push(u) + stored_units(b@, i + 2));
            i = i + 2;
        }
    }
    assert(open ==> out@ + Seq::<u16>::empty() =~= out@);
    out
}

/// The bytes of units, the lower one of each first.
pub open spec fn bytes_of(u: Seq<u16>) -> Seq<u8>
    decreases u.len(),
{
    if u.len() == 0 {
        Seq::empty()
    } else {
        bytes_of(u.drop_last()).push((u.last() % 256) as u8).push((u.last() / 256) as u8)
    }
}

/// The bytes to store for a command.
pub fn stored_bytes(cmd: &str) -> (r: Vec<u8>)
    ensures
        r@ == bytes_of(encoded(cmd@).push(0)),
{
    let w = wide(cmd);
    let mut out: Vec<u8> = Vec::new();
    let mut i: usize = 0;
    assert(w@.take(0) =~= Seq::<u16>::empty());
    while i < w.len()
        invariant
            0 <= i <= w@.len(),
            out@ == bytes_of(w@.take(i as int)),
        decreases w@.len() - i,
    {
        assert(w@.take(i + 1).drop_last() =~= w@.take(i as int));
        out.push((w[i] % 256) as u8);
        out.push((w[i] / 256) as u8);
        i = i + 1;
    }
    assert(w@.take(w@.len() as int) =~= w@);
    out
}

/// Whether a stored value launches this program: it is a text, and the command
/// but for the case of ASCII letters.
pub open spec fn launches(value: Option<(u32, Seq<u8>)>, cmd: Option<Seq<char>>) -> bool {
    match (value, cmd) {
        (Some((ty, b)), Some(c)) => ty == REG_SZ && text::lowered(decoded(stored_units(b, 0), 0)) == text::lowered(c),
        _ => false,
    }
}

/// Whether the program is launched at login, given the type and the bytes of
/// its value (`None` if it cannot be read) and its command (`None` if its path
/// is not known).
pub fn is_enabled(value: Option<(u32, &Vec<u8>)>, cmd: Option<&str>) -> (r: bool)
    ensures
        r == launches(
            match value {
                Some((ty, b)) => Some((ty, b@)),
                None => None,
            },
            match cmd {
                Some(c) => Some(c@),
                None => None,
            },
        ),
{
    match (value, cmd) {
        (Some((ty, b)), Some(c)) => {
            if ty != REG_SZ {
                return false;
            }
            let u = read_units(b);
            let stored = from_wide(&u);
            let x = text::to_lower(stored.as_str());
            let y = text::to_lower(c);
            text::same(x.as_str(), y.as_str())
        },
        _ => false,
    }
}

/// Whether launching at login was switched on or off.
pub open spec fn switched(enabled: bool, status: Option<u32>) -> bool {
    match status {
        Some(rc) => rc == 0 || (!enabled && rc == NOT_FOUND),
        None => false,
    }
}

/// Whether launching at login was switched on or off, given the status of
/// writing or deleting the value (`None` if the key could not be opened or the
/// path of the program is not known). Deleting a value that is not there is
/// success.
pub fn set(enabled: bool, status: Option<u32>) -> (r: bool)
    ensures
        r == switched(enabled, status),
{
    match status {
        Some(rc) => rc == 0 || (!enabled && rc == NOT_FOUND),
        None => false,
    }
}

/// Bytes of units are read back, from any unit on.
proof fn lemma_units_read_back(u: Seq<u16>, i: int)
    requires
        0 <= i < u.len(),
        u.last() == 0,
        forall|k: int| 0 <= k < u.len() - 1 ==> #[trigger] u[k] != 0,
    ensures
        bytes_of(u).len() == 2 * u.len(),
        stored_units(bytes_of(u), 2 * i) == u.subrange(i, u.len() - 1),
    decreases u.len() - i,
{
    lemma_bytes(u);
    let b = bytes_of(u);
    let x = u[i];
    assert(b[2 * i] == (x % 256) as u8 && b[2 * i + 1] == (x / 256) as u8);
    if i == u.len() - 1 {
        assert(x == 0);
        assert(u.subrange(i, u.len() - 1) =~= Seq::<u16>::empty());
    } else {
        assert(u[i] != 0);
        lemma_units_read_back(u, i + 1);
        assert(b[2 * i] + 256 * b[2 * i + 1] == x);
        assert(u.subrange(i, u.len() - 1) =~= seq![x] + u.subrange(i + 1, u.len() - 1));
    }
}

proof fn lemma_bytes(u: Seq<u16>)
    ensures
        bytes_of(u).len() == 2 * u.len(),
        forall|k: int|
            0 <= k < u.len() ==> bytes_of(u)[2 * k] == (#[trigger] u[k] % 256) as u8 && bytes_of(u)[2 * k + 1] == (u[k]
                / 256) as u8,
    decreases u.len(),
{
    if u.len() > 0 {
        let t = u.drop_last();
        lemma_bytes(t);
        assert forall|k: int| 0 <= k < u.len() implies bytes_of(u)[2 * k] == (#[trigger] u[k] % 256) as u8 && bytes_of(
            u,
        )[2 * k + 1] == (u[k] / 256) as u8 by {
            if k < t.len() {
                assert(t[k] == u[k]);
                assert(bytes_of(t)[2 * k] == bytes_of(u)[2 * k]);
                assert(bytes_of(t)[2 * k + 1] == bytes_of(u)[2 * k + 1]);
            }
        }
    }
}

/// Units of a text without a zero character are not zero.
proof fn lemma_no_zero(s: Seq<char>)
    requires
        !s.contains('\0'),
    ensures
        forall|k: int| 0 <= k < encoded(s).len() ==> #[trigger] encoded(s)[k] != 0,
    decreases s.len(),
{
    if s.len() > 0 {
        let t = s.drop_last();
        assert(!t.contains('\0')) by {
            if t.contains('\0') {
                let i = choose|i: int| 0 <= i < t.len() && t[i] == '\0';
                assert(s[i] == '\0');
            }
        }
        assert(s[s.len() - 1] != '\0') by {
            if s[s.len() - 1] == '\0' {
                assert(s.contains('\0'));
            }
        }
        lemma_no_zero(t);
        let c = s.last();
        let n = c as u32;
        vstd::utf8::char_is_scalar(c);
        vstd::utf8::char_u32_cast(c, n);
        assert(n <= 0x10ffff);
        assert(n != 0);
        assert forall|k: int| 0 <= k < encoded(s).len() implies #[trigger] encoded(s)[k] != 0 by {
            if k < encoded(t).len() {
                assert(encoded(s)[k] == encoded(t)[k]);
            } else {
                let j = k - encoded(t).len();
                assert(encoded(s)[k] == units_of(c)[j]);
                if n >= 0x10000 {
                    let m = n - 0x10000;
                    assert(0 <= m < 0x100000);
                    assert(0 <= m / 0x400 < 0x400);
                    assert(0 <= m % 0x400 < 0x400);
                }
            }
        }
    }
}

/// What switching on stores is what the next look finds: the value with the
/// command of a program is read as launching it.
pub proof fn law_stored_command_is_found(cmd: Seq<char>)
    requires
        !cmd.contains('\0'),
    ensures
        launches(Some((REG_SZ, bytes_of(encoded(cmd).push(0)))), Some(cmd)),
{
    let u = encoded(cmd).push(0);
    lemma_no_zero(cmd);
    assert forall|k: int| 0 <= k < u.len() - 1 implies #[trigger] u[k] != 0 by {
        assert(u[k] == encoded(cmd)[k]);
    }
    lemma_units_read_back(u, 0);
    assert(u.subrange(0, u.len() - 1) =~= encoded(cmd));
    law_wide_text_is_read_back(cmd);
}

/// A stored value ends at its first zero unit.
proof fn lemma_stored_units_nonzero(b: Seq<u8>, i: int)
    ensures
        forall|k: int| 0 <= k < stored_units(b, i).len() ==> #[trigger] stored_units(b, i)[k] != 0,
    decreases b.len() - i,
{
    if !(i < 0 || i + 1 >= b.len() || (b[i] == 0 && b[i + 1] == 0)) {
        lemma_stored_units_nonzero(b, i + 2);
        let r = stored_units(b, i);
        let t = stored_units(b, i + 2);
        assert forall|k: int| 0 <= k < r.len() implies #[trigger] r[k] != 0 by {
            if k > 0 {
                assert(r[k] == t[k - 1]);
            }
        }
    }
}

/// Units that are not zero hold no zero character.
proof fn lemma_decoded_nonzero(u: Seq<u16>, i: int)
    requires
        0 <= i,
        forall|k: int| 0 <= k < u.len() ==> #[trigger] u[k] != 0,
    ensures
        !decoded(u, i).contains('\0'),
    decreases u.len() - i,
{
    if i < u.len() {
        let r = decoded(u, i);
        let pair = is_high(u[i]) && i + 1 < u.len() && is_low(u[i + 1]);
        let t = decoded(
            u,
            if pair {
                i + 2
            } else {
                i + 1
            },
        );
        lemma_decoded_nonzero(
            u,
            if pair {
                i + 2
            } else {
                i + 1
            },
        );
        assert(r[0] != '\0');
        if r.contains('\0') {
            let k = choose|k: int| 0 <= k < r.len() && r[k] == '\0';
            assert(t[k - 1] == '\0');
        }
    }
}

/// A value never launches a command with a zero character, which ends the text
/// that is stored.
pub proof fn law_commands_hold_no_zero(value: Option<(u32, Seq<u8>)>, cmd: Seq<char>)
    requires
        launches(value, Some(cmd)),
    ensures
        !cmd.contains('\0'),
{
    let (_, b) = value->0;
    let u = stored_units(b, 0);
    let s = decoded(u, 0);
    assert(text::lowered(s) == text::lowered(cmd));
    lemma_stored_units_nonzero(b, 0);
    lemma_decoded_nonzero(u, 0);
    if cmd.contains('\0') {
        let k = choose|k: int| 0 <= k < cmd.len() && cmd[k] == '\0';
        assert(text::lowered(cmd)[k] == '\0');
        assert(text::lowered(s).len() == s.len() && text::lowered(cmd).len() == cmd.len());
        assert(text::lowered(s)[k] == text::lower_char(s[k]));
        assert(s[k] == '\0');
    }
}

/// The stored value after writing it or deleting it with the given status. A
/// step that fails leaves it as it is.
pub open spec fn value_after(
    before: Option<(u32, Seq<u8>)>,
    enabled: bool,
    status: Option<u32>,
    cmd: Seq<char>,
) -> Option<(u32, Seq<u8>)> {
    if !switched(enabled, status) {
        before
    } else if enabled {
        Some((REG_SZ, bytes_of(encoded(cmd).push(0))))
    } else {
        None
    }
}

/// The last switch is what the next look finds: after switching on or off went
/// well, the program is launched at login or not, whatever was stored before.
/// A command with a zero character is never found.
pub proof fn law_last_switch_is_found(
    before: Option<(u32, Seq<u8>)>,
    enabled: bool,
    status: Option<u32>,
    cmd: Seq<char>,
)
    requires
        switched(enabled, status),
    ensures
        launches(value_after(before, enabled, status, cmd), Some(cmd)) == (enabled && !cmd.contains('\0')),
{
    if enabled {
        if cmd.contains('\0') {
            if launches(value_after(before, enabled, status, cmd), Some(cmd)) {
                law_commands_hold_no_zero(value_after(before, enabled, status, cmd), cmd);
            }
        } else {
            law_stored_command_is_found(cmd);
        }
    }
}

/// Where there is no registry, nothing is ever switched on or off, and nothing
/// is launched at login.
pub proof fn law_nothing_without_a_registry(enabled: bool, cmd: Option<Seq<char>>)
    ensures
        !switched(enabled, None),
        !launches(None, cmd),
{
}

/// A character below 65536 is one unit, its number; and a stored unit is two
/// bytes, the lower one first.
pub proof fn law_units_are_stored_by_twos(c: char, u: Seq<u16>, k: int)
    requires
        0 <= k < u.len(),
        (c as u32) < 0x10000,
    ensures
        encoded(seq![c]).len() == 1,
        encoded(seq![c])[0] == c as u32,
        bytes_of(u).len() == 2 * u.len(),
        bytes_of(u)[2 * k] + 256 * bytes_of(u)[2 * k + 1] == u[k],
{
    let s = seq![c];
    assert(s.drop_last() =~= Seq::<char>::empty());
    assert(encoded(s.drop_last()) =~= Seq::<u16>::empty());
    assert(s.last() == c);
    assert(encoded(s) =~= units_of(c));
    let n = c as u32;
    assert((n as u16) as u32 == n) by (bit_vector)
        requires
            n < 0x10000,
    ;
    lemma_bytes(u);
    let x = u[k];
    assert(((x % 256) as u8) as u16 == x % 256) by (bit_vector);
    assert(((x / 256) as u8) as u16 == x / 256) by (bit_vector);
    assert(x % 256 + 256 * (x / 256) == x);
}

/// A stored command launches another one if and only if the two differ at most
/// in the case of ASCII letters; and only texts launch anything.
pub proof fn law_only_the_stored_command_is_launched(stored: Seq<char>, cmd: Seq<char>, ty: u32, b: Seq<u8>)
    requires
        !stored.contains('\0'),
    ensures
        launches(Some((1, bytes_of(encoded(stored).push(0)))), Some(cmd)) <==> text::lowered(stored) == text::lowered(cmd),
        ty != 1 ==> !launches(Some((ty, b)), Some(cmd)),
        !launches(Some((ty, b)), None),
{
    let u = encoded(stored).push(0);
    lemma_no_zero(stored);
    assert forall|k: int| 0 <= k < u.len() - 1 implies #[trigger] u[k] != 0 by {
        assert(u[k] == encoded(stored)[k]);
    }
    lemma_units_read_back(u, 0);
    assert(u.subrange(0, u.len() - 1) =~= encoded(stored));
    law_wide_text_is_read_back(stored);
}

/// A status of zero is success; a status of two, which says that there was
/// nothing to delete, is success only for switching off; any other is none.
pub proof fn law_status_tells_success(enabled: bool, rc: u32)
    ensures
        switched(enabled, Some(0)),
        switched(false, Some(2)),
        !switched(true, Some(2)),
        rc != 0 && rc != 2 ==> !switched(enabled, Some(rc)),
{
}

} // verus!
