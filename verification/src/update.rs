// flea --update: which source installs this Flea, what it offers, and the one line the check prints.
use crate::keyfile::{after_piece, first_of, first_piece, line_of, next_piece, piece_ok, Piece};
use crate::text::{
    all_digits, chars_of, digits_value, push_str, range_all_digits, range_eq, string_of_range, trim,
    trim_range,
};
use crate::words::{words, words_of};
use vstd::prelude::*;

verus! {

// The exit statuses of `flea --update check`; the printed line carries the detail.
pub const AVAILABLE: i32 = 0;

pub const FAILED: i32 = 2;

pub const NOTHING_TO_INSTALL: i32 = 3;

// The three names Flea is packaged under: OPR's, the AUR release binary, and the AUR rolling build.
pub const OPR_PACKAGE: &'static str = "flea";

pub const AUR_PACKAGE: &'static str = "flea-bin";

pub const GIT_PACKAGE: &'static str = "flea-git";

pub const MIRRORS_DOWN: &'static str = "the package mirrors could not be asked for a newer Flea";

pub const AUR_DOWN: &'static str = "the AUR could not be asked for a newer Flea";

pub const NOT_DESCRIBED: &'static str = "pacman could not describe the package that owns this Flea";

pub const INSTALLED_UNREADABLE: &'static str = "the installed Flea reports a version this check cannot compare";

pub const OFFER_UNREADABLE: &'static str = "the package source answered with a version this check cannot compare";

pub const NOT_COMPARED: &'static str = "vercmp could not compare the two versions";

/// Where the check found this Flea, which decides what may be asked and what `omarchy update` does to it.
#[derive(Clone, Copy, Debug, PartialEq, Eq, Structural)]
pub enum Kind {
    /// OPR's signed `flea`, which `omarchy update` upgrades through pacman.
    Opr,
    /// AUR `flea-bin`, which `omarchy update` upgrades through yay.
    Aur,
    /// AUR `flea-git`, which follows main and has no release to compare against.
    Git,
    /// A `flea` no signature validated, which is a local makepkg build.
    Local,
    /// A binary no package owns, which is a cargo build.
    Unowned,
}

pub open spec fn kind_word(kind: Kind) -> Seq<char> {
    match kind {
        Kind::Opr => "opr"@,
        Kind::Aur => "aur"@,
        Kind::Git => "git"@,
        Kind::Local => "local"@,
        Kind::Unowned => "unowned"@,
    }
}

impl Kind {
    pub fn word(self) -> (r: &'static str)
        ensures
            r@ == kind_word(self),
    {
        match self {
            Kind::Opr => "opr",
            Kind::Aur => "aur",
            Kind::Git => "git",
            Kind::Local => "local",
            Kind::Unowned => "unowned",
        }
    }
}

#[derive(Clone, Debug, PartialEq)]
pub enum State {
    Available,
    Current,
    /// The sentence stderr carries, while stdout still prints the machine line.
    Failed(&'static str),
    /// A rolling or local build, which no release source describes.
    Unchecked,
}

#[derive(Clone, Debug, PartialEq)]
pub struct Report {
    pub state: State,
    pub kind: Kind,
    pub installed: Option<String>,
    pub latest: Option<String>,
}

pub open spec fn state_word(state: State) -> Seq<char> {
    match state {
        State::Available => "available"@,
        State::Current => "current"@,
        State::Failed(_) => "failed"@,
        State::Unchecked => "unchecked"@,
    }
}

/// A field the check could not fill prints as one dash, so the line always has four words.
pub open spec fn shown_of(version: Option<String>) -> Seq<char> {
    match version {
        Some(v) => v@,
        None => "-"@,
    }
}

/// "available opr 0.3.2-1 0.3.3-1", "current aur 0.3.3-1 0.3.3-1", "unchecked git - -".
pub open spec fn report_line(r: Report) -> Seq<char> {
    state_word(r.state) + seq![' '] + kind_word(r.kind) + seq![' '] + shown_of(r.installed) + seq![' ']
        + shown_of(r.latest)
}

pub open spec fn report_status(r: Report) -> i32 {
    match r.state {
        State::Available => AVAILABLE,
        State::Failed(_) => FAILED,
        State::Current | State::Unchecked => NOTHING_TO_INSTALL,
    }
}

pub fn shown(version: &Option<String>) -> (r: &str)
    ensures
        r@ == shown_of(*version),
{
    match version {
        Some(v) => v.as_str(),
        None => "-",
    }
}

impl Report {
    /// Sample output: "available opr 0.3.2-1 0.3.3-1".
    pub fn line(&self) -> (r: String)
        ensures
            r@ == report_line(*self),
    {
        let state = match self.state {
            State::Available => "available",
            State::Current => "current",
            State::Failed(_) => "failed",
            State::Unchecked => "unchecked",
        };
        let mut out = String::new();
        push_str(&mut out, state);
        crate::text::push_char(&mut out, ' ');
        push_str(&mut out, self.kind.word());
        crate::text::push_char(&mut out, ' ');
        push_str(&mut out, shown(&self.installed));
        crate::text::push_char(&mut out, ' ');
        push_str(&mut out, shown(&self.latest));
        assert(out@ =~= report_line(*self));
        out
    }

    pub fn status(&self) -> (r: i32)
        ensures
            r == report_status(*self),
    {
        match self.state {
            State::Available => AVAILABLE,
            State::Failed(_) => FAILED,
            State::Current | State::Unchecked => NOTHING_TO_INSTALL,
        }
    }
}

pub fn unchecked(kind: Kind, installed: Option<String>) -> (r: Report)
    ensures
        r == (Report { state: State::Unchecked, kind, installed, latest: None }),
{
    Report { state: State::Unchecked, kind, installed, latest: None }
}

pub fn failed(kind: Kind, installed: Option<String>, why: &'static str) -> (r: Report)
    ensures
        r == (Report { state: State::Failed(why), kind, installed, latest: None }),
{
    Report { state: State::Failed(why), kind, installed, latest: None }
}

/// A character a pacman package name may hold.
pub open spec fn name_char(c: char) -> bool {
    ||| 'a' <= c <= 'z'
    ||| '0' <= c <= '9'
    ||| c == '@' || c == '.' || c == '_' || c == '+' || c == '-'
}

/// The one package name pacman printed, or None.
pub open spec fn owner_of(text: Seq<char>) -> Option<Seq<char>> {
    let name = trim(text);
    if name.len() == 0 || exists|i: int| 0 <= i < name.len() && !name_char(#[trigger] name[i]) {
        None
    } else {
        Some(name)
    }
}

/// Sample input: "flea\n".
pub fn owner_from(text: &str) -> (r: Option<String>)
    ensures
        crate::chooser::opt_view(r) == owner_of(text@),
{
    let v = chars_of(text);
    let (a, b) = trim_range(&v, 0, v.len());
    assert(v@.subrange(0, v@.len() as int) =~= v@);
    let ghost name = trim(text@);
    assert(name == v@.subrange(a as int, b as int));
    if a == b {
        assert(owner_of(text@) is None);
        return None;
    }
    let mut i: usize = a;
    while i < b
        invariant
            a <= i <= b <= v.len(),
            name == v@.subrange(a as int, b as int),
            name == trim(text@),
            forall|j: int| a <= j < i ==> name_char(v@[j]),
        decreases b - i,
    {
        let c = v[i];
        if !(('a' <= c && c <= 'z') || ('0' <= c && c <= '9') || c == '@' || c == '.' || c == '_' || c
            == '+' || c == '-') {
            assert(!name_char(name[i - a]));
            assert(0 <= i - a < name.len());
            assert(owner_of(text@) is None);
            return None;
        }
        i = i + 1;
    }
    assert forall|j: int| 0 <= j < b - a implies name_char(#[trigger] v@.subrange(a as int, b as int)[j]) by {
        assert(v@.subrange(a as int, b as int)[j] == v@[a + j]);
    }
    Some(string_of_range(&v, a, b))
}

/// What `pacman -Qi` said so far: the version, and whether a signature validated it.
pub open spec fn info_walk(t: Seq<char>, version: Option<Seq<char>>, signed: bool) -> (Option<Seq<char>>, bool)
    decreases t.len(),
{
    if t.len() == 0 {
        (version, signed)
    } else {
        let line = line_of(first_piece(t));
        let colon = first_of(line, ':');
        if colon < line.len() {
            let key = trim(line.take(colon as int));
            let value = line.skip(colon + 1int);
            if key == "Version"@ {
                info_walk(after_piece(t), Some(trim(value)), signed)
            } else if key == "Validated By"@ {
                info_walk(after_piece(t), version, words(value).contains("Signature"@))
            } else {
                info_walk(after_piece(t), version, signed)
            }
        } else {
            info_walk(after_piece(t), version, signed)
        }
    }
}

fn has_word(v: &Vec<char>, lo: usize, hi: usize, w: &Vec<char>) -> (r: bool)
    requires
        lo <= hi <= v.len(),
    ensures
        r == words(v@.subrange(lo as int, hi as int)).contains(w@),
{
    let ws = words_of(v, lo, hi);
    let ghost all = words(v@.subrange(lo as int, hi as int));
    let mut i: usize = 0;
    while i < ws.len()
        invariant
            0 <= i <= ws.len(),
            lo <= hi <= v.len(),
            all == words(v@.subrange(lo as int, hi as int)),
            ws@.len() == all.len(),
            forall|q: int|
                0 <= q < ws@.len() ==> {
                    &&& lo <= (#[trigger] ws@[q]).0 <= ws@[q].1 <= hi
                    &&& v@.subrange(ws@[q].0 as int, ws@[q].1 as int) == all[q]
                },
            forall|q: int| 0 <= q < i ==> all[q] != w@,
        decreases ws.len() - i,
    {
        let pr = ws[i];
        assert(ws@[i as int] == pr);
        let (a, b) = pr;
        if range_eq(v, a, b, w) {
            assert(all[i as int] == w@);
            return true;
        }
        i = i + 1;
    }
    false
}

/// Sample input: "Name            : flea\nVersion         : 0.3.2-1\nValidated By    : Signature\n".
pub fn package_info(text: &str) -> (r: (Option<String>, bool))
    ensures
        (crate::chooser::opt_view(r.0), r.1) == info_walk(text@, None, false),
{
    let t = chars_of(text);
    let version_key = chars_of("Version");
    let validated_key = chars_of("Validated By");
    let signature = chars_of("Signature");
    let mut version: Option<String> = None;
    let mut signed = false;
    let mut i: usize = 0;
    assert(t@.skip(0) =~= t@);
    while i < t.len()
        invariant
            i <= t.len(),
            version_key@ == "Version"@,
            t@ == text@,
            validated_key@ == "Validated By"@,
            signature@ == "Signature"@,
            info_walk(t@, None, false) == info_walk(t@.skip(i as int), crate::chooser::opt_view(version), signed),
        decreases t.len() - i,
    {
        let p = next_piece(&t, i);
        let ghost line = t@.subrange(p.start as int, p.line_end as int);
        let colon = crate::text::find_char(&t, p.start, p.line_end, ':');
        proof {
            assert forall|q: int| 0 <= q < colon - p.start implies line[q] != ':' by {
                assert(line[q] == t@[p.start + q]);
            }
            crate::keyfile::lemma_first_of(line, ':', colon - p.start);
        }
        if colon < p.line_end {
            let (ka, kb) = trim_range(&t, p.start, colon);
            assert(line.take(colon - p.start) =~= t@.subrange(p.start as int, colon as int));
            assert(line.skip(colon - p.start + 1) =~= t@.subrange(colon + 1, p.line_end as int));
            if range_eq(&t, ka, kb, &version_key) {
                let (va, vb) = trim_range(&t, colon + 1, p.line_end);
                version = Some(string_of_range(&t, va, vb));
            } else if range_eq(&t, ka, kb, &validated_key) {
                signed = has_word(&t, colon + 1, p.line_end, &signature);
            }
        }
        i = p.end;
    }
    assert(t@.skip(t.len() as int) =~= Seq::<char>::empty());
    (version, signed)
}

pub open spec fn kind_of(owner: Seq<char>, signed: bool) -> Kind {
    if owner == OPR_PACKAGE@ && signed {
        Kind::Opr
    } else if owner == AUR_PACKAGE@ {
        Kind::Aur
    } else if owner == GIT_PACKAGE@ {
        Kind::Git
    } else {
        Kind::Local
    }
}

/// Only the three names Flea ships under have a known updater; anything else is somebody's own build.
pub fn kind_for(owner: &str, signed: bool) -> (r: Kind)
    ensures
        r == kind_of(owner@, signed),
{
    let o = chars_of(owner);
    let n = o.len();
    assert(o@.subrange(0, n as int) =~= o@);
    if signed && range_eq(&o, 0, n, &chars_of(OPR_PACKAGE)) {
        Kind::Opr
    } else if range_eq(&o, 0, n, &chars_of(AUR_PACKAGE)) {
        Kind::Aur
    } else if range_eq(&o, 0, n, &chars_of(GIT_PACKAGE)) {
        Kind::Git
    } else {
        Kind::Local
    }
}

/// The newer version checkupdates names for `package`, from the first line of exactly `name old -> new`.
pub open spec fn offer_walk(t: Seq<char>, package: Seq<char>) -> Option<Seq<char>>
    decreases t.len(),
{
    if t.len() == 0 {
        None
    } else {
        let w = words(line_of(first_piece(t)));
        if w.len() == 4 && w[2] == "->"@ && w[0] == package {
            Some(w[3])
        } else {
            offer_walk(after_piece(t), package)
        }
    }
}

/// Sample input: "linux 6.16.8-1 -> 6.16.9-1\nflea 0.3.2-1 -> 0.3.3-1\n".
pub fn checkupdates_version(text: &str, package: &str) -> (r: Option<String>)
    ensures
        crate::chooser::opt_view(r) == offer_walk(text@, package@),
{
    let t = chars_of(text);
    let pk = chars_of(package);
    let arrow = chars_of("->");
    let mut i: usize = 0;
    assert(t@.skip(0) =~= t@);
    while i < t.len()
        invariant
            i <= t.len(),
            arrow@ == "->"@,
            t@ == text@,
            pk@ == package@,
            offer_walk(t@, pk@) == offer_walk(t@.skip(i as int), pk@),
        decreases t.len() - i,
    {
        let p = next_piece(&t, i);
        let ws = words_of(&t, p.start, p.line_end);
        let ghost w = words(t@.subrange(p.start as int, p.line_end as int));
        if ws.len() == 4 {
            let p0 = ws[0];
            let p2 = ws[2];
            let p3 = ws[3];
            assert(ws@[0] == p0 && ws@[2] == p2 && ws@[3] == p3);
            let (a0, b0) = p0;
            let (a2, b2) = p2;
            let (a3, b3) = p3;
            if range_eq(&t, a2, b2, &arrow) && range_eq(&t, a0, b0, &pk) {
                return Some(string_of_range(&t, a3, b3));
            }
        }
        i = p.end;
    }
    None
}

/// Digits, a non-empty run of them.
pub open spec fn digit_run(s: Seq<char>) -> bool {
    s.len() > 0 && all_digits(s)
}

/// pkgver-pkgrel as ^[0-9]+(\.[0-9]+){2}-[0-9]+$.
pub open spec fn is_version(v: Seq<char>) -> bool {
    let dash = first_of(v, '-');
    let pkgver = v.take(dash as int);
    let pkgrel = v.skip(dash + 1int);
    let a = first_of(pkgver, '.');
    let rest = pkgver.skip(a + 1int);
    let b = first_of(rest, '.');
    &&& dash < v.len()
    &&& digit_run(pkgrel)
    &&& a < pkgver.len()
    &&& b < rest.len()
    &&& digit_run(pkgver.take(a as int))
    &&& digit_run(rest.take(b as int))
    &&& digit_run(rest.skip(b + 1int))
}

fn first_index(v: &Vec<char>, lo: usize, hi: usize, c: char) -> (k: usize)
    requires
        lo <= hi <= v.len(),
    ensures
        lo <= k <= hi,
        k - lo == first_of(v@.subrange(lo as int, hi as int), c),
{
    let k = crate::text::find_char(v, lo, hi, c);
    proof {
        let s = v@.subrange(lo as int, hi as int);
        assert forall|q: int| 0 <= q < k - lo implies s[q] != c by {
            assert(s[q] == v@[lo + q]);
        }
        crate::keyfile::lemma_first_of(s, c, k - lo);
    }
    k
}

fn digit_run_at(v: &Vec<char>, lo: usize, hi: usize) -> (r: bool)
    requires
        lo <= hi <= v.len(),
    ensures
        r == digit_run(v@.subrange(lo as int, hi as int)),
{
    lo < hi && range_all_digits(v, lo, hi)
}

/// Checked before a version reaches vercmp or a screen.
pub fn valid_version(version: &str) -> (r: bool)
    ensures
        r == is_version(version@),
{
    let v = chars_of(version);
    let n = v.len();
    assert(v@.subrange(0, n as int) =~= v@);
    let dash = first_index(&v, 0, n, '-');
    if dash == n {
        return false;
    }
    assert(v@.skip(dash + 1) =~= v@.subrange(dash + 1, n as int));
    assert(v@.take(dash as int) =~= v@.subrange(0, dash as int));
    let a = first_index(&v, 0, dash, '.');
    if a == dash {
        return false;
    }
    let ghost pkgver = v@.take(dash as int);
    assert(pkgver.skip(a + 1) =~= v@.subrange(a + 1, dash as int));
    assert(pkgver.take(a as int) =~= v@.subrange(0, a as int));
    let b = first_index(&v, a + 1, dash, '.');
    if b == dash {
        return false;
    }
    let ghost rest = pkgver.skip(a + 1int);
    assert(rest.take(b - (a + 1)) =~= v@.subrange(a + 1, b as int));
    assert(rest.skip(b - (a + 1) + 1) =~= v@.subrange(b + 1, dash as int));
    digit_run_at(&v, dash + 1, n) && digit_run_at(&v, 0, a) && digit_run_at(&v, a + 1, b)
        && digit_run_at(&v, b + 1, dash)
}

/// The integer `str::parse::<i64>` reads: an optional sign, then digits.
pub open spec fn int_text(s: Seq<char>) -> Option<int> {
    if s.len() > 0 && (s[0] == '+' || s[0] == '-') {
        if digit_run(s.skip(1)) {
            Some(
                if s[0] == '-' {
                    -digits_value(s.skip(1))
                } else {
                    digits_value(s.skip(1)) as int
                },
            )
        } else {
            None
        }
    } else if digit_run(s) {
        Some(digits_value(s) as int)
    } else {
        None
    }
}

pub open spec fn i64_text(s: Seq<char>) -> Option<int> {
    match int_text(s) {
        Some(n) => if i64::MIN <= n <= i64::MAX {
            Some(n)
        } else {
            None
        },
        None => None,
    }
}

/// What `str::parse::<i64>` makes of `v[lo..hi]`.
pub fn parse_i64(v: &Vec<char>, lo: usize, hi: usize) -> (r: Option<i64>)
    requires
        lo <= hi <= v.len(),
    ensures
        match r {
            Some(n) => i64_text(v@.subrange(lo as int, hi as int)) == Some(n as int),
            None => i64_text(v@.subrange(lo as int, hi as int)) is None,
        },
{
    let ghost s = v@.subrange(lo as int, hi as int);
    if lo < hi && (v[lo] == '+' || v[lo] == '-') {
        assert(s.skip(1) =~= v@.subrange(lo + 1, hi as int));
        if !digit_run_at(v, lo + 1, hi) {
            return None;
        }
        match crate::text::parse_digits(v, lo + 1, hi) {
            Some(n) => {
                if v[lo] == '-' {
                    if n <= 9223372036854775807 {
                        Some(-(n as i64))
                    } else if n == 9223372036854775808 {
                        Some(i64::MIN)
                    } else {
                        None
                    }
                } else if n <= 9223372036854775807 {
                    Some(n as i64)
                } else {
                    None
                }
            },
            None => None,
        }
    } else {
        if !digit_run_at(v, lo, hi) {
            return None;
        }
        match crate::text::parse_digits(v, lo, hi) {
            Some(n) => if n <= 9223372036854775807 {
                Some(n as i64)
            } else {
                None
            },
            None => None,
        }
    }
}

/// What the owner's source said about a newer Flea: the report it settles, or the two versions vercmp must order.
#[derive(Clone, Debug, PartialEq)]
pub enum Source {
    Decided(Report),
    Compare { kind: Kind, installed: Option<String>, have: String, offer: String },
}

/// Ok(None) is a source that answered with nothing newer; Err is a source that could not be asked.
pub fn from_source(kind: Kind, installed: Option<String>, latest: Result<Option<String>, &'static str>) -> (r: Source)
    ensures
        match latest {
            Err(why) => r == Source::Decided(Report { state: State::Failed(why), kind, installed, latest: None }),
            Ok(latest) => match installed {
                None => r == Source::Decided(
                    Report { state: State::Failed(INSTALLED_UNREADABLE), kind, installed: None, latest: None },
                ),
                Some(have) => match latest {
                    None => r == Source::Decided(Report { state: State::Current, kind, installed, latest: None }),
                    Some(offer) => if !is_version(offer@) {
                        r == Source::Decided(
                            Report { state: State::Failed(OFFER_UNREADABLE), kind, installed, latest: None },
                        )
                    } else {
                        r == (Source::Compare { kind, installed, have, offer })
                    },
                },
            },
        },
{
    let latest = match latest {
        Ok(latest) => latest,
        Err(why) => return Source::Decided(failed(kind, installed, why)),
    };
    let have = match &installed {
        Some(have) => have.clone(),
        None => return Source::Decided(failed(kind, None, INSTALLED_UNREADABLE)),
    };
    let offer = match latest {
        Some(offer) => offer,
        None => return Source::Decided(Report { state: State::Current, kind, installed, latest: None }),
    };
    if !valid_version(offer.as_str()) {
        return Source::Decided(failed(kind, installed, OFFER_UNREADABLE));
    }
    Source::Compare { kind, installed, have, offer }
}

/// What `str::parse::<i64>` makes of the text once trimmed.
pub fn trimmed_i64(text: &str) -> (r: Option<i64>)
    ensures
        match r {
            Some(n) => i64_text(trim(text@)) == Some(n as int),
            None => i64_text(trim(text@)) is None,
        },
{
    let v = chars_of(text);
    let (a, b) = trim_range(&v, 0, v.len());
    assert(v@.subrange(0, v@.len() as int) =~= v@);
    parse_i64(&v, a, b)
}


/// Whether the element at `e` is an object whose "Name" is `package`.
pub open spec fn names_package(body: Seq<char>, e: int, package: Seq<char>) -> bool {
    match crate::jsondoc::member(body, e, "Name"@) {
        Some(n) => crate::jsondoc::string_at(body, n) == Some(package),
        None => false,
    }
}

/// The first element naming `package`.
pub open spec fn first_naming(body: Seq<char>, es: Seq<int>, package: Seq<char>) -> Option<int>
    decreases es.len(),
{
    if es.len() == 0 {
        None
    } else if names_package(body, es[0], package) {
        Some(es[0])
    } else {
        first_naming(body, es.drop_first(), package)
    }
}

/// The AUR's answer: in its "results" array, the first result named `package`, and that result's
/// "Version" when it is a string.
pub open spec fn aur_answer(body: Seq<char>, package: Seq<char>) -> Option<Seq<char>> {
    match crate::jsondoc::document(body) {
        Some(root) => match crate::jsondoc::member(body, root, "results"@) {
            Some(r) => match crate::jsondoc::elements(body, r) {
                Some(es) => match first_naming(body, es, package) {
                    Some(e) => match crate::jsondoc::member(body, e, "Version"@) {
                        Some(v) => crate::jsondoc::string_at(body, v),
                        None => None,
                    },
                    None => None,
                },
                None => None,
            },
            None => None,
        },
        None => None,
    }
}

pub open spec fn ints(es: Seq<usize>) -> Seq<int> {
    es.map_values(|u: usize| u as int)
}

fn names_at(d: &crate::jsondoc::Doc, e: usize, package: &str) -> (r: bool)
    ensures
        r == names_package(d.text@, e as int, package@),
{
    match crate::jsondoc::get(d, e, "Name") {
        Some(n) => match crate::jsondoc::str_value(d, n) {
            Some(t) => {
                let a = chars_of(t.as_str());
                let b = chars_of(package);
                assert(a@.subrange(0, a.len() as int) =~= a@);
                range_eq(&a, 0, a.len(), &b)
            },
            None => false,
        },
        None => false,
    }
}

fn first_named(d: &crate::jsondoc::Doc, es: &Vec<usize>, package: &str) -> (r: Option<usize>)
    ensures
        crate::jsondoc::opt_int(r) == first_naming(d.text@, ints(es@), package@),
{
    let ghost all = ints(es@);
    let mut k: usize = 0;
    assert(all.skip(0) =~= all);
    while k < es.len()
        invariant
            k <= es.len(),
            all == ints(es@),
            first_naming(d.text@, all, package@) == first_naming(d.text@, all.skip(k as int), package@),
        decreases es.len() - k,
    {
        let e = es[k];
        assert(all.skip(k as int)[0] == e as int);
        if names_at(d, e, package) {
            return Some(e);
        }
        assert(all.skip(k as int).drop_first() =~= all.skip(k + 1));
        k = k + 1;
    }
    None
}

/// Sample input: {"resultcount":1,"results":[{"Name":"flea-bin","Version":"0.3.3-1"}],"type":"multiinfo","version":5}
pub fn aur_version(body: &str, package: &str) -> (r: Option<String>)
    ensures
        crate::chooser::opt_view(r) == aur_answer(body@, package@),
{
    let d = match crate::jsondoc::parse(body) {
        Some(d) => d,
        None => return None,
    };
    let r = match crate::jsondoc::get(&d, d.root, "results") {
        Some(r) => r,
        None => return None,
    };
    let es = match crate::jsondoc::items(&d, r) {
        Some(es) => es,
        None => return None,
    };
    assert(ints(es@) =~= crate::jsondoc::elements(d.text@, r as int)->0);
    match first_named(&d, &es, package) {
        Some(e) => match crate::jsondoc::get(&d, e, "Version") {
            Some(v) => crate::jsondoc::str_value(&d, v),
            None => None,
        },
        None => None,
    }
}


/// The largest AUR answer read, so a runaway reply is no answer rather than a stall.
pub const AUR_MAX_BYTES: usize = 1048576;

/// Where the check goes once it knows who owns this Flea and what pacman said of the package: the
/// report is decided, or the mirrors or the AUR are asked for the version they offer.
#[derive(Debug, PartialEq)]
pub enum Asking {
    Done(Report),
    Mirrors { installed: Option<String> },
    Aur { installed: Option<String> },
}

/// The installed version pacman printed, kept only when a comparison can use it.
pub open spec fn kept_version(v: Option<Seq<char>>) -> Option<Seq<char>> {
    match v {
        Some(x) => if is_version(x) {
            Some(x)
        } else {
            None
        },
        None => None,
    }
}

/// `owner` is the package that owns the running binary, None when none does; `info` is what
/// `pacman -Qi` printed of it, None when pacman could not describe it.
pub fn described(owner: Option<&str>, info: Option<&str>) -> (r: Asking)
    ensures
        owner is None ==> r == Asking::Done(
            Report { state: State::Unchecked, kind: Kind::Unowned, installed: None, latest: None },
        ),
        owner matches Some(o) ==> (info is None ==> r == Asking::Done(
            Report { state: State::Failed(NOT_DESCRIBED), kind: kind_of(o@, false), installed: None, latest: None },
        )),
        owner matches Some(o) ==> info matches Some(t) ==> ({
            let (v, signed) = info_walk(t@, None, false);
            let installed = kept_version(v);
            match kind_of(o@, signed) {
                Kind::Opr => r matches Asking::Mirrors { installed: i } && crate::chooser::opt_view(i) == installed,
                Kind::Aur => r matches Asking::Aur { installed: i } && crate::chooser::opt_view(i) == installed,
                k => r matches Asking::Done(rep) && rep.state == State::Unchecked && rep.kind == k
                    && crate::chooser::opt_view(rep.installed) == installed && rep.latest is None,
            }
        }),
{
    let o = match owner {
        Some(o) => o,
        None => return Asking::Done(unchecked(Kind::Unowned, None)),
    };
    let t = match info {
        Some(t) => t,
        None => return Asking::Done(failed(kind_for(o, false), None, NOT_DESCRIBED)),
    };
    let (v, signed) = package_info(t);
    let installed = match v {
        Some(x) => if valid_version(x.as_str()) {
            Some(x)
        } else {
            None
        },
        None => None,
    };
    match kind_for(o, signed) {
        Kind::Opr => Asking::Mirrors { installed },
        Kind::Aur => Asking::Aur { installed },
        k => Asking::Done(unchecked(k, installed)),
    }
}

/// What checkupdates answered: it exits 0 with updates, 2 with none and 1 on an error. `ran` is its exit
/// code and output, None when it could not be run.
pub open spec fn mirrors_said(ran: Option<(i32, Seq<char>)>, package: Seq<char>) -> Result<Option<Seq<char>>, &'static str> {
    match ran {
        Some((0i32, out)) => Ok(offer_walk(out, package)),
        Some((2i32, _)) => Ok(None),
        _ => Err(MIRRORS_DOWN),
    }
}

pub open spec fn offer_view(r: Result<Option<String>, &'static str>) -> Result<Option<Seq<char>>, &'static str> {
    match r {
        Ok(o) => Ok(crate::chooser::opt_view(o)),
        Err(e) => Err(e),
    }
}

pub fn mirrors_answer(ran: Option<(i32, &str)>, package: &str) -> (r: Result<Option<String>, &'static str>)
    ensures
        offer_view(r) == mirrors_said(
            match ran {
                Some((c, out)) => Some((c, out@)),
                None => None,
            },
            package@,
        ),
{
    match ran {
        Some((c, out)) => if c == 0 {
            Ok(checkupdates_version(out, package))
        } else if c == 2 {
            Ok(None)
        } else {
            Err(MIRRORS_DOWN)
        },
        None => Err(MIRRORS_DOWN),
    }
}

/// What the AUR answered: only a clean exit within the size bound whose body names flea-bin's version
/// is an answer. `ran` is curl's exit code, its output and the output's length in bytes.
pub open spec fn aur_said(ran: Option<(i32, Seq<char>, usize)>) -> Result<Option<Seq<char>>, &'static str> {
    match ran {
        Some((code, out, bytes)) => if code == 0 && bytes <= AUR_MAX_BYTES {
            match aur_answer(out, AUR_PACKAGE@) {
                Some(v) => Ok(Some(v)),
                None => Err(AUR_DOWN),
            }
        } else {
            Err(AUR_DOWN)
        },
        None => Err(AUR_DOWN),
    }
}

pub fn aur_answer_of(ran: Option<(i32, &str, usize)>) -> (r: Result<Option<String>, &'static str>)
    ensures
        offer_view(r) == aur_said(
            match ran {
                Some((c, out, n)) => Some((c, out@, n)),
                None => None,
            },
        ),
{
    match ran {
        Some((code, out, bytes)) => if code == 0 && bytes <= AUR_MAX_BYTES {
            match aur_version(out, AUR_PACKAGE) {
                Some(v) => Ok(Some(v)),
                None => Err(AUR_DOWN),
            }
        } else {
            Err(AUR_DOWN)
        },
        None => Err(AUR_DOWN),
    }
}

} // verus!
