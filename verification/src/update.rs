//! Silent self-update: which release to fetch, whether a download is the
//! program, and how it is swapped in.
//!
//! A release is named by its tag. The gzipped executable of a newer release is
//! downloaded, unpacked and checked, written beside the running one, and put in
//! its place; the next launch runs it.

use vstd::prelude::*;

use crate::text;

verus! {

/// Downloads larger than this are rejected.
pub const MAX_DOWNLOAD: u64 = 209715200;

/// The program is tens of megabytes; smaller payloads are something else.
pub const MIN_PROGRAM: usize = 10000000;

/// Why an update was not made.
pub enum UpdateError {
    /// The release response holds no tag.
    NoTag,
    /// The tag is no version.
    BadTag(String),
    /// The download is too large.
    TooLarge,
    /// The download is no gzip archive; with what was wrong with it.
    BadArchive(std::io::Error),
    /// The payload does not look like the program.
    WrongPayload,
}

// ---------------------------------------------------------------------------
// Which release
// ---------------------------------------------------------------------------

/// The tag that a release response names: the text in quotes behind the colon
/// that follows `"tag_name"`.
pub open spec fn tag_in(json: Seq<char>) -> Option<Seq<char>> {
    match text::find(json, "\"tag_name\""@) {
        Some(i) => match text::split_once(json.skip(i + "\"tag_name\""@.len()), ':') {
            Some((_, a)) => match text::split_once(a, '"') {
                Some((_, b)) => match text::split_once(b, '"') {
                    Some((tag, _)) => Some(tag),
                    None => None,
                },
                None => None,
            },
            None => None,
        },
        None => None,
    }
}

/// The tag that a release response names.
pub fn extract_tag(json: &str) -> (r: Option<String>)
    ensures
        match r {
            Some(t) => tag_in(json@) == Some(t@),
            None => tag_in(json@) is None,
        },
{
    let v = text::chars_of(json);
    let pat = text::chars_of("\"tag_name\"");
    let n: usize = v.len();
    match text::find_chars(&v, &pat, 0) {
        Some(i) => {
            let rest = text::string_of(&v, i + pat.len(), n);
            assert(rest@ =~= json@.skip(i + pat@.len()));
            match text::cut_once(rest.as_str(), ':') {
                Some((_, a)) => {
                    match text::cut_once(a.as_str(), '"') {
                        Some((_, b)) => {
                            match text::cut_once(b.as_str(), '"') {
                                Some((tag, _)) => Some(tag),
                                None => None,
                            }
                        },
                        None => None,
                    }
                },
                None => None,
            }
        },
        None => None,
    }
}

/// A version: three numbers.
pub type VersionV = (int, int, int);

/// The version that a text names: exactly three numbers with points between.
pub open spec fn version_in(s: Seq<char>) -> Option<VersionV> {
    let p = text::split(s, '.');
    if p.len() == 3 {
        match (
            text::number_in(p[0], u32::MAX as int),
            text::number_in(p[1], u32::MAX as int),
            text::number_in(p[2], u32::MAX as int),
        ) {
            (Some(a), Some(b), Some(c)) => Some((a, b, c)),
            _ => None,
        }
    } else {
        None
    }
}

/// The model of a version.
pub open spec fn version_view(v: (u32, u32, u32)) -> VersionV {
    (v.0 as int, v.1 as int, v.2 as int)
}

/// The version that a text names.
pub fn parse_ver(s: &str) -> (r: Option<(u32, u32, u32)>)
    ensures
        match r {
            Some(v) => version_in(s@) == Some(version_view(v)),
            None => version_in(s@) is None,
        },
{
    let p = text::split_on(s, '.');
    let ghost pv = text::split(s@, '.');
    if p.len() != 3 {
        return None;
    }
    assert(p@[0]@ == pv[0] && p@[1]@ == pv[1] && p@[2]@ == pv[2]);
    let a = text::parse_number(p[0].as_str(), 0xffff_ffff);
    let b = text::parse_number(p[1].as_str(), 0xffff_ffff);
    let c = text::parse_number(p[2].as_str(), 0xffff_ffff);
    match (a, b, c) {
        (Some(x), Some(y), Some(z)) => {
            assert(x <= u32::MAX && y <= u32::MAX && z <= u32::MAX);
            Some((x as u32, y as u32, z as u32))
        },
        _ => None,
    }
}

/// Whether version `a` is newer than `b`.
pub open spec fn newer(a: VersionV, b: VersionV) -> bool {
    a.0 > b.0 || (a.0 == b.0 && (a.1 > b.1 || (a.1 == b.1 && a.2 > b.2)))
}

/// Of two different versions exactly one is newer, and what is newer than a
/// newer one is newer.
pub proof fn law_versions_are_ordered(a: VersionV, b: VersionV, c: VersionV)
    ensures
        !newer(a, a),
        a != b ==> newer(a, b) != newer(b, a),
        newer(a, b) && newer(b, c) ==> newer(a, c),
{
}

/// A text without its leading letters "v".
pub open spec fn without_v(s: Seq<char>) -> Seq<char>
    decreases s.len(),
{
    if s.len() > 0 && s[0] == 'v' {
        without_v(s.drop_first())
    } else {
        s
    }
}

/// A text without its leading letters "v".
fn strip_v(s: &str) -> (r: String)
    ensures
        r@ == without_v(s@),
{
    let v = text::chars_of(s);
    let mut i: usize = 0;
    assert(s@.skip(0) =~= s@);
    while i < v.len() && v[i] == 'v'
        invariant
            0 <= i <= v@.len(),
            v@ == s@,
            without_v(s@) == without_v(s@.skip(i as int)),
        decreases v@.len() - i,
    {
        assert(s@.skip(i as int).drop_first() =~= s@.skip(i + 1));
        i = i + 1;
    }
    assert(s@.skip(i as int) =~= s@.subrange(i as int, s@.len() as int));
    text::string_of(&v, i, v.len())
}

/// Where the latest release is described.
pub fn latest_url() -> (r: String)
    ensures
        r@ == "https://api.github.com/repos/YSKM523/fastrans/releases/latest"@,
{
    text::copy_of("https://api.github.com/repos/YSKM523/fastrans/releases/latest")
}

/// Where the program of a release is found.
pub open spec fn download_url(tag: Seq<char>) -> Seq<char> {
    "https://github.com/YSKM523/fastrans/releases/download/"@ + tag + "/fastrans.exe.gz"@
}

/// A release to fetch.
pub struct Release {
    pub tag: String,
    pub url: String,
}

/// What to do about a release response: the tag to fetch if it is newer than
/// the current version, `None` if not, or why nothing can be said.
pub open spec fn verdict(body: Seq<char>, current: VersionV) -> Result<Option<Seq<char>>, Option<Seq<char>>> {
    match tag_in(body) {
        None => Err(None),
        Some(tag) => match version_in(without_v(tag)) {
            None => Err(Some(tag)),
            Some(latest) => if newer(latest, current) {
                Ok(Some(tag))
            } else {
                Ok(None)
            },
        },
    }
}

/// Decides about a release response, given the version that runs.
pub fn check(body: &str, current: &str) -> (r: Result<Option<Release>, UpdateError>)
    requires
        version_in(current@) is Some,
    ensures
        match r {
            Ok(Some(rel)) => verdict(body@, version_in(current@)->0) == Ok::<Option<Seq<char>>, Option<Seq<char>>>(Some(rel.tag@))
                && rel.url@ == download_url(rel.tag@),
            Ok(None) => verdict(body@, version_in(current@)->0) == Ok::<Option<Seq<char>>, Option<Seq<char>>>(None),
            Err(UpdateError::NoTag) => verdict(body@, version_in(current@)->0) == Err::<Option<Seq<char>>, Option<Seq<char>>>(None),
            Err(UpdateError::BadTag(t)) => verdict(body@, version_in(current@)->0) == Err::<Option<Seq<char>>, Option<Seq<char>>>(Some(t@)),
            Err(_) => false,
        },
{
    let tag = match extract_tag(body) {
        Some(t) => t,
        None => {
            return Err(UpdateError::NoTag);
        },
    };
    let bare = strip_v(tag.as_str());
    let latest = match parse_ver(bare.as_str()) {
        Some(v) => v,
        None => {
            return Err(UpdateError::BadTag(tag));
        },
    };
    match parse_ver(current) {
        Some(cur) => {
            let is_newer = latest.0 > cur.0 || (latest.0 == cur.0 && (latest.1 > cur.1 || (latest.1 == cur.1 && latest.2
                > cur.2)));
            if is_newer {
                let mut url = text::copy_of("https://github.com/YSKM523/fastrans/releases/download/");
                url.append(tag.as_str());
                url.append("/fastrans.exe.gz");
                assert(url@ =~= download_url(tag@));
                Ok(Some(Release { tag, url }))
            } else {
                Ok(None)
            }
        },
        None => Ok(None),
    }
}

/// The release that runs is never fetched again.
pub proof fn law_no_update_to_the_same_version(body: Seq<char>, tag: Seq<char>, current: VersionV)
    requires
        tag_in(body) == Some(tag),
        version_in(without_v(tag)) == Some(current),
    ensures
        verdict(body, current) == Ok::<Option<Seq<char>>, Option<Seq<char>>>(None),
{
}

// ---------------------------------------------------------------------------
// Whether a download is the program
// ---------------------------------------------------------------------------

/// The error of an operation of `std::io`.
#[verifier::external_type_specification]
#[verifier::external_body]
pub struct ExIoError(std::io::Error);

/// What the first member of a gzip archive holds; `None` if the bytes are no
/// such archive.
pub uninterp spec fn gunzipped(gz: Seq<u8>) -> Option<Seq<u8>>;

/// `flate2::read::GzDecoder` over a byte slice, read to its end: the unpacked
/// contents of the archive's first member, or an error where the header, the
/// compressed data or the checksum is not in order. What the contents are is
/// left to the name `gunzipped`. That there is memory for them is taken for
/// granted.
#[verifier::external_body]
fn gunzip(gz: &[u8]) -> (r: Result<Vec<u8>, std::io::Error>)
    ensures
        match r {
            Ok(v) => gunzipped(gz@) == Some(v@),
            Err(_) => gunzipped(gz@) is None,
        },
{
    let mut out: Vec<u8> = Vec::new();
    let mut decoder = flate2::read::GzDecoder::new(gz);
    std::io::Read::read_to_end(&mut decoder, &mut out)?;
    Ok(out)
}

/// Whether bytes look like the program: large enough, and with the magic number
/// of an executable ("MZ").
pub open spec fn is_program(b: Seq<u8>) -> bool {
    b.len() >= MIN_PROGRAM && b[0] == 77 && b[1] == 90
}

/// Lets only what looks like the program pass.
pub fn accept(payload: Vec<u8>) -> (r: Result<Vec<u8>, UpdateError>)
    ensures
        r is Ok <==> is_program(payload@),
        r is Ok ==> r->Ok_0@ == payload@,
        r is Err ==> r->Err_0 is WrongPayload,
{
    if payload.len() < MIN_PROGRAM || payload[0] != 77 || payload[1] != 90 {
        Err(UpdateError::WrongPayload)
    } else {
        Ok(payload)
    }
}

/// Unpacks a download and checks that it is the program.
pub fn unpack(gz: &[u8]) -> (r: Result<Vec<u8>, UpdateError>)
    ensures
        match r {
            Ok(v) => gz@.len() <= MAX_DOWNLOAD && gunzipped(gz@) == Some(v@) && is_program(v@),
            Err(UpdateError::TooLarge) => gz@.len() > MAX_DOWNLOAD,
            Err(UpdateError::BadArchive(_)) => gz@.len() <= MAX_DOWNLOAD && gunzipped(gz@) is None,
            Err(UpdateError::WrongPayload) => gz@.len() <= MAX_DOWNLOAD && gunzipped(gz@) is Some && !is_program(
                gunzipped(gz@)->0,
            ),
            Err(_) => false,
        },
{
    if gz.len() as u64 > MAX_DOWNLOAD {
        return Err(UpdateError::TooLarge);
    }
    match gunzip(gz) {
        Ok(v) => accept(v),
        Err(e) => Err(UpdateError::BadArchive(e)),
    }
}

// ---------------------------------------------------------------------------
// Swapping it in
// ---------------------------------------------------------------------------

/// What to do next with the files: the running executable, the new one staged
/// beside it, and the old one set aside.
#[derive(Clone, Copy, PartialEq, Eq, Structural)]
pub enum Swap {
    /// Write the new executable beside the running one.
    Stage,
    /// Remove what an earlier update set aside, if it is there.
    Clear,
    /// Rename the running executable aside.
    SetAside,
    /// Rename the new executable into place.
    MoveIn,
    /// Rename the running executable back.
    RollBack,
    /// The new executable is in place.
    Updated,
    /// The update failed.
    Failed,
}

/// What follows a step that went well or not.
pub open spec fn swap_after(step: Swap, ok: bool) -> Swap {
    match step {
        Swap::Stage => if ok {
            Swap::Clear
        } else {
            Swap::Failed
        },
        Swap::Clear => Swap::SetAside,
        Swap::SetAside => if ok {
            Swap::MoveIn
        } else {
            Swap::Failed
        },
        Swap::MoveIn => if ok {
            Swap::Updated
        } else {
            Swap::RollBack
        },
        Swap::RollBack => Swap::Failed,
        Swap::Updated => Swap::Updated,
        Swap::Failed => Swap::Failed,
    }
}

/// What follows a step that went well or not.
pub fn next_swap(step: Swap, ok: bool) -> (r: Swap)
    ensures
        r == swap_after(step, ok),
{
    match step {
        Swap::Stage => if ok {
            Swap::Clear
        } else {
            Swap::Failed
        },
        Swap::Clear => Swap::SetAside,
        Swap::SetAside => if ok {
            Swap::MoveIn
        } else {
            Swap::Failed
        },
        Swap::MoveIn => if ok {
            Swap::Updated
        } else {
            Swap::RollBack
        },
        Swap::RollBack => Swap::Failed,
        Swap::Updated => Swap::Updated,
        Swap::Failed => Swap::Failed,
    }
}

/// The three files by what they hold.
#[verifier::ext_equal]
pub struct FilesV {
    pub exe: Option<Seq<u8>>,
    pub staged: Option<Seq<u8>>,
    pub old: Option<Seq<u8>>,
}

/// The files after a step. A step that fails leaves them as they are.
pub open spec fn files_after(f: FilesV, step: Swap, ok: bool, payload: Seq<u8>) -> FilesV {
    if !ok {
        f
    } else {
        match step {
            Swap::Stage => FilesV { staged: Some(payload), ..f },
            Swap::Clear => FilesV { old: None, ..f },
            Swap::SetAside => FilesV { exe: None, old: f.exe, ..f },
            Swap::MoveIn => FilesV { exe: f.staged, staged: None, ..f },
            Swap::RollBack => FilesV { exe: f.old, old: None, ..f },
            _ => f,
        }
    }
}

/// The state and the files after steps that went well or not, as `oks` says.
pub open spec fn swapped(f: FilesV, step: Swap, payload: Seq<u8>, oks: Seq<bool>) -> (FilesV, Swap)
    decreases oks.len(),
{
    if oks.len() == 0 {
        (f, step)
    } else {
        swapped(files_after(f, step, oks[0], payload), swap_after(step, oks[0]), payload, oks.drop_first())
    }
}

/// The installation stays consistent: an update that goes through leaves the
/// new program in place and the old one aside; one that fails leaves the
/// running program in place, unless even the roll-back failed, and then the
/// running program still stands aside.
pub proof fn law_swap_keeps_a_program(f: FilesV, payload: Seq<u8>, oks: Seq<bool>)
    requires
        f.exe is Some,
    ensures
        ({
            let (g, step) = swapped(f, Swap::Stage, payload, oks);
            &&& step == Swap::Updated ==> g.exe == Some(payload) && g.old == f.exe
            &&& step == Swap::Failed ==> g.exe == f.exe || (g.exe is None && g.old == f.exe && oks.len() >= 5 && !oks[4])
        }),
{
    reveal_with_fuel(swapped, 6);
    let n = oks.len();
    if n >= 1 {
        lemma_swap_ends(files_after(f, Swap::Stage, oks[0], payload), Swap::Failed, payload, oks.drop_first());
    }
    if n >= 1 && oks[0] {
        let f1 = files_after(f, Swap::Stage, true, payload);
        let o1 = oks.drop_first();
        if n >= 2 {
            let f2 = files_after(f1, Swap::Clear, o1[0], payload);
            let o2 = o1.drop_first();
            if n >= 3 {
                let f3 = files_after(f2, Swap::SetAside, o2[0], payload);
                let o3 = o2.drop_first();
                lemma_swap_ends(f3, Swap::Failed, payload, o3);
                if o2[0] && n >= 4 {
                    let f4 = files_after(f3, Swap::MoveIn, o3[0], payload);
                    let o4 = o3.drop_first();
                    lemma_swap_ends(f4, Swap::Updated, payload, o4);
                    if !o3[0] && n >= 5 {
                        assert(o4[0] == oks[4]);
                        let f5 = files_after(f4, Swap::RollBack, o4[0], payload);
                        lemma_swap_ends(f5, Swap::Failed, payload, o4.drop_first());
                    }
                }
            }
        }
    }
}

/// Nothing happens behind the end.
proof fn lemma_swap_ends(f: FilesV, step: Swap, payload: Seq<u8>, oks: Seq<bool>)
    requires
        step == Swap::Updated || step == Swap::Failed,
    ensures
        swapped(f, step, payload, oks) == (f, step),
    decreases oks.len(),
{
    if oks.len() > 0 {
        lemma_swap_ends(f, step, payload, oks.drop_first());
    }
}

// ---------------------------------------------------------------------------
// What the decisions mean
// ---------------------------------------------------------------------------

/// The tag of a release response is the first text in quotes behind the colon
/// that follows the first `"tag_name"`.
pub proof fn law_the_tag_is_read(
    pre: Seq<char>,
    a: Seq<char>,
    b: Seq<char>,
    tag: Seq<char>,
    post: Seq<char>,
    name: Seq<char>,
)
    requires
        name == seq!['"', 't', 'a', 'g', '_', 'n', 'a', 'm', 'e', '"'],
        !a.contains(':'),
        !b.contains('"'),
        !tag.contains('"'),
        forall|j: int|
            0 <= j < pre.len() ==> #[trigger] (pre + name + a.push(':') + b.push('"') + tag.push('"') + post).subrange(
                j,
                j + name.len(),
            ) != name,
    ensures
        tag_in(pre + name + a.push(':') + b.push('"') + tag.push('"') + post) == Some(tag),
{
    reveal_strlit("\"tag_name\"");
    assert("\"tag_name\""@ =~= name);
    let j = pre + name + a.push(':') + b.push('"') + tag.push('"') + post;
    let n = pre.len() as int;
    text::lemma_find_from(j, name, 0);
    assert(j.subrange(n, n + name.len()) =~= name);
    assert(text::stands_at(j, name, n));
    let i = text::find(j, name)->0;
    assert(i == n) by {
        if i < n {
            assert(j.subrange(i, i + name.len()) != name);
        }
    }
    let c = tag.push('"') + post;
    let d = b.push('"') + c;
    assert(j.skip(n + name.len()) =~= a.push(':') + d);
    text::lemma_split_once(a, ':', d);
    text::lemma_split_once(b, '"', c);
    text::lemma_split_once(tag, '"', post);
}

/// A response without a name of the tag has none.
pub proof fn law_no_tag_without_its_name(body: Seq<char>, current: VersionV)
    requires
        forall|j: int|
            0 <= j && j + 10 <= body.len() ==> #[trigger] body.subrange(j, j + 10) != seq![
                '"',
                't',
                'a',
                'g',
                '_',
                'n',
                'a',
                'm',
                'e',
                '"',
            ],
    ensures
        tag_in(body) is None,
        verdict(body, current) == Err::<Option<Seq<char>>, Option<Seq<char>>>(None),
{
    let name = seq!['"', 't', 'a', 'g', '_', 'n', 'a', 'm', 'e', '"'];
    reveal_strlit("\"tag_name\"");
    assert("\"tag_name\""@ =~= name);
    text::lemma_find_from(body, name, 0);
    if text::find(body, name) is Some {
        let i = text::find(body, name)->0;
        assert(body.subrange(i, i + 10) == name);
    }
}

/// Three numbers with points between them.
pub open spec fn dotted(a: Seq<char>, b: Seq<char>, c: Seq<char>) -> Seq<char> {
    a.push('.') + b.push('.') + c
}

proof fn lemma_dotted(a: Seq<char>, b: Seq<char>, c: Seq<char>)
    requires
        !a.contains('.'),
        !b.contains('.'),
        !c.contains('.'),
    ensures
        text::split(dotted(a, b, c), '.') == seq![a, b, c],
{
    text::lemma_split_single(a, '.');
    text::lemma_split_single(b, '.');
    text::lemma_split_single(c, '.');
    text::lemma_split_join(b, c, '.');
    text::lemma_split_join(a, b.push('.') + c, '.');
    assert(dotted(a, b, c) =~= a.push('.') + (b.push('.') + c));
    assert(text::split(dotted(a, b, c), '.') =~= seq![a, b, c]);
}

proof fn lemma_digits_hold_no_point(s: Seq<char>)
    requires
        text::all_digits(s),
    ensures
        !s.contains('.'),
{
    if s.contains('.') {
        let i = choose|i: int| 0 <= i < s.len() && s[i] == '.';
        assert(text::is_digit(s[i]));
    }
}

/// A version is read as it is written, if its numbers have at most 32 bits.
pub proof fn law_versions_are_read(a: nat, b: nat, c: nat)
    ensures
        version_in(dotted(text::decimal(a), text::decimal(b), text::decimal(c))) == if a < 0x1_0000_0000 && b
            < 0x1_0000_0000 && c < 0x1_0000_0000 {
            Some((a as int, b as int, c as int))
        } else {
            None
        },
{
    let (x, y, z) = (text::decimal(a), text::decimal(b), text::decimal(c));
    text::lemma_decimal_value(a);
    text::lemma_decimal_value(b);
    text::lemma_decimal_value(c);
    lemma_digits_hold_no_point(x);
    lemma_digits_hold_no_point(y);
    lemma_digits_hold_no_point(z);
    lemma_dotted(x, y, z);
    text::law_numbers_are_digits(x, a, u32::MAX as int);
    text::law_numbers_are_digits(y, b, u32::MAX as int);
    text::law_numbers_are_digits(z, c, u32::MAX as int);
}

/// What is read as a version is three numbers with points between them, and
/// these numbers are the version.
pub proof fn law_a_version_is_three_numbers(s: Seq<char>) -> (r: (Seq<char>, Seq<char>, Seq<char>))
    requires
        version_in(s) is Some,
    ensures
        s == dotted(r.0, r.1, r.2),
        text::number_in(r.0, u32::MAX as int) == Some((version_in(s)->0).0),
        text::number_in(r.1, u32::MAX as int) == Some((version_in(s)->0).1),
        text::number_in(r.2, u32::MAX as int) == Some((version_in(s)->0).2),
{
    let p = text::split(s, '.');
    text::law_split_pieces_make_the_text(s, '.');
    assert(p.drop_last().drop_last() =~= seq![p[0]]);
    assert(p.drop_last() =~= seq![p[0], p[1]]);
    reveal_with_fuel(text::rejoined, 3);
    assert(s =~= dotted(p[0], p[1], p[2]));
    (p[0], p[1], p[2])
}

/// Leading letters "v" of a tag do not matter, and nothing else is left out.
pub proof fn law_leading_v_does_not_matter(s: Seq<char>)
    ensures
        without_v(seq!['v'] + s) == without_v(s),
        s.len() == 0 || s[0] != 'v' ==> without_v(s) == s,
{
    assert((seq!['v'] + s).drop_first() =~= s);
}

/// A release is fetched if and only if it is newer than what runs: by its first
/// number, among equal ones by its second, among equal ones by its third. It is
/// fetched by its tag.
pub proof fn law_newer_releases_are_fetched(
    body: Seq<char>,
    tag: Seq<char>,
    a: int,
    b: int,
    c: int,
    current: VersionV,
)
    requires
        tag_in(body) == Some(tag),
        version_in(without_v(tag)) == Some((a, b, c)),
    ensures
        a > current.0 ==> verdict(body, current) == Ok::<Option<Seq<char>>, Option<Seq<char>>>(Some(tag)),
        a < current.0 ==> verdict(body, current) == Ok::<Option<Seq<char>>, Option<Seq<char>>>(None),
        a == current.0 && b > current.1 ==> verdict(body, current) == Ok::<Option<Seq<char>>, Option<Seq<char>>>(
            Some(tag),
        ),
        a == current.0 && b < current.1 ==> verdict(body, current) == Ok::<Option<Seq<char>>, Option<Seq<char>>>(None),
        a == current.0 && b == current.1 && c > current.2 ==> verdict(body, current) == Ok::<
            Option<Seq<char>>,
            Option<Seq<char>>,
        >(Some(tag)),
        a == current.0 && b == current.1 && c <= current.2 ==> verdict(body, current) == Ok::<
            Option<Seq<char>>,
            Option<Seq<char>>,
        >(None),
        download_url(tag) == "https://github.com/YSKM523/fastrans/releases/download/"@ + tag + "/fastrans.exe.gz"@,
{
}

/// A tag that is no version is named in the refusal.
pub proof fn law_bad_tags_are_named(body: Seq<char>, tag: Seq<char>, current: VersionV)
    requires
        tag_in(body) == Some(tag),
        version_in(without_v(tag)) is None,
    ensures
        verdict(body, current) == Err::<Option<Seq<char>>, Option<Seq<char>>>(Some(tag)),
{
}

/// What passes for the program starts with the letters "MZ" and has ten million
/// bytes or more, and whatever has these passes.
pub proof fn law_programs_are_large_executables(b: Seq<u8>)
    ensures
        is_program(b) <==> b.len() >= 10_000_000 && b[0] as char == 'M' && b[1] as char == 'Z',
        MAX_DOWNLOAD == 200 * 1024 * 1024,
{
}

/// An update takes five steps at most. It goes through if and only if the new
/// program was written, the running one set aside and the new one moved in;
/// whether something old could be removed does not matter.
pub proof fn law_an_update_goes_through(f: FilesV, payload: Seq<u8>, oks: Seq<bool>)
    requires
        oks.len() >= 5,
    ensures
        ({
            let (g, step) = swapped(f, Swap::Stage, payload, oks);
            &&& step == Swap::Updated || step == Swap::Failed
            &&& step == Swap::Updated <==> oks[0] && oks[2] && oks[3]
            &&& !oks[0] ==> g == f
        }),
{
    reveal_with_fuel(swapped, 6);
    let o1 = oks.drop_first();
    let o2 = o1.drop_first();
    let o3 = o2.drop_first();
    let o4 = o3.drop_first();
    let o5 = o4.drop_first();
    assert(o1[0] == oks[1] && o2[0] == oks[2] && o3[0] == oks[3] && o4[0] == oks[4]);
    let f1 = files_after(f, Swap::Stage, oks[0], payload);
    lemma_swap_ends(f1, Swap::Failed, payload, o1);
    let f2 = files_after(f1, Swap::Clear, oks[1], payload);
    let f3 = files_after(f2, Swap::SetAside, oks[2], payload);
    lemma_swap_ends(f3, Swap::Failed, payload, o3);
    let f4 = files_after(f3, Swap::MoveIn, oks[3], payload);
    lemma_swap_ends(f4, Swap::Updated, payload, o4);
    let f5 = files_after(f4, Swap::RollBack, oks[4], payload);
    lemma_swap_ends(f5, Swap::Failed, payload, o5);
}

} // verus!
