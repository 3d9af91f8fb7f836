//! Package identifiers in the `name-[epoch:]version-release.arch` form.

use vstd::prelude::*;
use vstd::string::*;

verus! {

/// A parsed package identifier.
#[derive(Debug, Clone, PartialEq, Eq)]
pub struct Nevra {
    pub name: String,
    pub epoch: Option<String>,
    pub version: String,
    pub release: String,
    pub arch: String,
}

/// The input is not a package identifier.
#[derive(Debug, Clone, PartialEq, Eq)]
pub struct ParseError;

pub open spec fn is_digit(c: char) -> bool {
    '0' <= c && c <= '9'
}

pub open spec fn is_arch_char(c: char) -> bool {
    ('a' <= c && c <= 'z') || is_digit(c) || c == '_'
}

/// No position of `s` holds `c`.
pub open spec fn lacks(s: Seq<char>, c: char) -> bool {
    forall|i: int| 0 <= i < s.len() ==> s[i] != c
}

/// A character that may stand in a package name.
pub open spec fn is_name_char(c: char) -> bool {
    c != ':' && c != '(' && c != '/' && c != '=' && c != '<' && c != '>' && c != ' ' && c != '\n'
}

pub open spec fn all_digits(s: Seq<char>) -> bool {
    forall|i: int| 0 <= i < s.len() ==> is_digit(s[i])
}

pub open spec fn all_arch_chars(s: Seq<char>) -> bool {
    forall|i: int| 0 <= i < s.len() ==> is_arch_char(s[i])
}

/// The fields obey the identifier grammar: a non-empty name without `:`,
/// `(`, `/`, `=`, `<`, `>`, spaces or line breaks; an optional all-digit
/// epoch; non-empty hyphen-free version and release; and a non-empty arch
/// of lowercase letters, digits and underscores.
pub open spec fn valid_fields(
    name: Seq<char>,
    epoch: Option<Seq<char>>,
    version: Seq<char>,
    release: Seq<char>,
    arch: Seq<char>,
) -> bool {
    &&& name.len() > 0 && forall|i: int| 0 <= i < name.len() ==> is_name_char(name[i])
    &&& match epoch {
        Some(e) => e.len() > 0 && all_digits(e),
        None => true,
    }
    &&& version.len() > 0 && lacks(version, '-')
    &&& release.len() > 0 && lacks(release, '-')
    &&& arch.len() > 0 && all_arch_chars(arch)
}

pub open spec fn epoch_text(epoch: Option<Seq<char>>) -> Seq<char> {
    match epoch {
        Some(e) => e + seq![':'],
        None => Seq::empty(),
    }
}

/// The canonical text `name-[epoch:]version-release.arch`.
pub open spec fn nevra_text(
    name: Seq<char>,
    epoch: Option<Seq<char>>,
    version: Seq<char>,
    release: Seq<char>,
    arch: Seq<char>,
) -> Seq<char> {
    name + seq!['-'] + epoch_text(epoch) + version + seq!['-'] + release + seq!['.'] + arch
}

/// `s` is the text of some fields that obey the grammar.
pub open spec fn is_nevra(s: Seq<char>) -> bool {
    exists|name: Seq<char>, epoch: Option<Seq<char>>, version: Seq<char>, release: Seq<char>, arch: Seq<char>|
        valid_fields(name, epoch, version, release, arch) && #[trigger] nevra_text(
            name,
            epoch,
            version,
            release,
            arch,
        ) == s
}

/// What follows the last `c` in `s` (all of `s` when it holds none).
pub open spec fn after_last(s: Seq<char>, c: char) -> Seq<char>
    decreases s.len(),
{
    if s.len() == 0 {
        s
    } else if s.last() == c {
        Seq::empty()
    } else {
        after_last(s.drop_last(), c).push(s.last())
    }
}

/// The architecture of an identifier: the text after its final `.`.
pub open spec fn arch_of(s: Seq<char>) -> Seq<char> {
    after_last(s, '.')
}


/// Where the pieces of a well-formed identifier's text stand.
proof fn lemma_positions(
    name: Seq<char>,
    epoch: Option<Seq<char>>,
    version: Seq<char>,
    release: Seq<char>,
    arch: Seq<char>,
)
    requires
        valid_fields(name, epoch, version, release, arch),
    ensures
        ({
            let s = nevra_text(name, epoch, version, release, arch);
            let h1 = name.len() as int;
            let h2 = h1 + 1 + epoch_text(epoch).len() + version.len();
            let d = h2 + 1 + release.len();
            &&& s.len() == d + 1 + arch.len()
            &&& s[h1] == '-' && s[h2] == '-' && s[d] == '.'
            &&& forall|j: int| d < j < s.len() ==> s[j] != '.' && s[j] != '-' && is_arch_char(s[j])
            &&& forall|j: int| h2 < j < d ==> s[j] != '-'
            &&& forall|j: int| h1 < j < h2 ==> s[j] != '-'
            &&& forall|j: int| 0 <= j < h1 ==> is_name_char(s[j])
            &&& s.subrange(0, h1) == name
            &&& s.subrange(h1 + 1, h2) == epoch_text(epoch) + version
            &&& s.subrange(h2 + 1, d) == release
            &&& s.subrange(d + 1, s.len() as int) == arch
        }),
{
    let et = epoch_text(epoch);
    let part1 = name + seq!['-'];
    let part2 = part1 + et;
    let part3 = part2 + version;
    let part4 = part3 + seq!['-'];
    let part5 = part4 + release;
    let part6 = part5 + seq!['.'];
    let s = part6 + arch;
    assert(s == nevra_text(name, epoch, version, release, arch));
    let h1 = name.len() as int;
    let h2 = h1 + 1 + et.len() + version.len();
    let d = h2 + 1 + release.len();
    assert(forall|j: int| 0 <= j < et.len() ==> et[j] != '-') by {
        match epoch {
            Some(e) => {
                assert forall|j: int| 0 <= j < et.len() implies et[j] != '-' by {
                    if j < e.len() {
                        assert(is_digit(e[j]));
                    }
                }
            },
            None => {},
        }
    }
    assert forall|j: int| d < j < s.len() implies s[j] != '.' && s[j] != '-' && is_arch_char(s[j]) by {
        assert(s[j] == arch[j - d - 1]);
        assert(is_arch_char(arch[j - d - 1]));
    }
    assert forall|j: int| h2 < j < d implies s[j] != '-' by {
        assert(s[j] == part6[j]);
        assert(s[j] == release[j - h2 - 1]);
    }
    assert forall|j: int| h1 < j < h2 implies s[j] != '-' by {
        assert(s[j] == part3[j]);
        if j < h1 + 1 + et.len() {
            assert(part3[j] == part2[j]);
            assert(part2[j] == et[j - h1 - 1]);
        } else {
            assert(part3[j] == version[j - h1 - 1 - et.len()]);
        }
    }
    assert forall|j: int| 0 <= j < h1 implies is_name_char(s[j]) by {
        assert(s[j] == name[j]);
    }
    assert(s.subrange(0, h1) =~= name);
    assert(s.subrange(h1 + 1, h2) =~= et + version);
    assert(s.subrange(h2 + 1, d) =~= release);
    assert(s.subrange(d + 1, s.len() as int) =~= arch);
}

/// `after_last` is the part after a `c` that no later position repeats.
proof fn lemma_after_last(s: Seq<char>, c: char, k: int)
    requires
        0 <= k < s.len(),
        s[k] == c,
        forall|j: int| k < j < s.len() ==> s[j] != c,
    ensures
        after_last(s, c) == s.subrange(k + 1, s.len() as int),
    decreases s.len(),
{
    if k == s.len() - 1 {
        assert(s.subrange(k + 1, s.len() as int) =~= Seq::<char>::empty());
    } else {
        lemma_after_last(s.drop_last(), c, k);
        assert(s.drop_last().subrange(k + 1, s.len() - 1).push(s.last()) =~= s.subrange(
            k + 1,
            s.len() as int,
        ));
    }
}

/// Last position before `end` that holds `c`.
fn rfind_char(s: &str, c: char, end: usize) -> (r: Option<usize>)
    requires
        end <= s@.len(),
    ensures
        match r {
            Some(i) => i < end && s@[i as int] == c && forall|j: int| i < j < end ==> s@[j] != c,
            None => forall|j: int| 0 <= j < end ==> s@[j] != c,
        },
{
    let mut k: usize = end;
    while k > 0
        invariant
            k <= end <= s@.len(),
            forall|j: int| k <= j < end ==> s@[j] != c,
        decreases k,
    {
        if s.get_char(k - 1) == c {
            return Some(k - 1);
        }
        k = k - 1;
    }
    None
}

/// First position in `[lo, hi)` that holds `c`.
fn find_char(s: &str, c: char, lo: usize, hi: usize) -> (r: Option<usize>)
    requires
        lo <= hi <= s@.len(),
    ensures
        match r {
            Some(i) => lo <= i < hi && s@[i as int] == c && forall|j: int| lo <= j < i ==> s@[j] != c,
            None => forall|j: int| lo <= j < hi ==> s@[j] != c,
        },
{
    let mut k: usize = lo;
    while k < hi
        invariant
            lo <= k <= hi <= s@.len(),
            forall|j: int| lo <= j < k ==> s@[j] != c,
        decreases hi - k,
    {
        if s.get_char(k) == c {
            return Some(k);
        }
        k = k + 1;
    }
    None
}

/// Every position in `[lo, hi)` holds a character allowed in a name.
fn name_chars_between(s: &str, lo: usize, hi: usize) -> (r: bool)
    requires
        lo <= hi <= s@.len(),
    ensures
        r == forall|j: int| lo <= j < hi ==> is_name_char(s@[j]),
{
    let mut k: usize = lo;
    while k < hi
        invariant
            lo <= k <= hi <= s@.len(),
            forall|j: int| lo <= j < k ==> is_name_char(s@[j]),
        decreases hi - k,
    {
        let ch = s.get_char(k);
        if ch == ':' || ch == '(' || ch == '/' || ch == '=' || ch == '<' || ch == '>' || ch == ' ' || ch == '\n' {
            return false;
        }
        k = k + 1;
    }
    true
}

/// Every position in `[lo, hi)` holds a decimal digit.
fn digits_between(s: &str, lo: usize, hi: usize) -> (r: bool)
    requires
        lo <= hi <= s@.len(),
    ensures
        r == forall|j: int| lo <= j < hi ==> is_digit(s@[j]),
{
    let mut k: usize = lo;
    while k < hi
        invariant
            lo <= k <= hi <= s@.len(),
            forall|j: int| lo <= j < k ==> is_digit(s@[j]),
        decreases hi - k,
    {
        let ch = s.get_char(k);
        if !('0' <= ch && ch <= '9') {
            return false;
        }
        k = k + 1;
    }
    true
}

/// Every position in `[lo, hi)` holds a character allowed in an arch.
fn arch_chars_between(s: &str, lo: usize, hi: usize) -> (r: bool)
    requires
        lo <= hi <= s@.len(),
    ensures
        r == forall|j: int| lo <= j < hi ==> is_arch_char(s@[j]),
{
    let mut k: usize = lo;
    while k < hi
        invariant
            lo <= k <= hi <= s@.len(),
            forall|j: int| lo <= j < k ==> is_arch_char(s@[j]),
        decreases hi - k,
    {
        let ch = s.get_char(k);
        if !(('a' <= ch && ch <= 'z') || ('0' <= ch && ch <= '9') || ch == '_') {
            return false;
        }
        k = k + 1;
    }
    true
}

fn substring(s: &str, lo: usize, hi: usize) -> (r: String)
    requires
        lo <= hi <= s@.len(),
    ensures
        r@ == s@.subrange(lo as int, hi as int),
{
    s.substring_char(lo, hi).to_owned()
}

/// Some fields that obey the grammar and whose text is `s`.
proof fn witness(s: Seq<char>) -> (w: (Seq<char>, Option<Seq<char>>, Seq<char>, Seq<char>, Seq<char>))
    requires
        is_nevra(s),
    ensures
        valid_fields(w.0, w.1, w.2, w.3, w.4),
        nevra_text(w.0, w.1, w.2, w.3, w.4) == s,
{
    choose|name: Seq<char>, epoch: Option<Seq<char>>, version: Seq<char>, release: Seq<char>, arch: Seq<char>|
        valid_fields(name, epoch, version, release, arch) && #[trigger] nevra_text(
            name,
            epoch,
            version,
            release,
            arch,
        ) == s
}

/// Where `s` is an identifier, the positions of its pieces; used to show
/// that a failed step of parsing means `s` is none.
proof fn lemma_pieces_of(s: Seq<char>)
    requires
        is_nevra(s),
    ensures
        exists|h1: int, h2: int, d: int|
            {
                &&& 0 < h1 < h2 < d < s.len()
                &&& s[h1] == '-' && s[h2] == '-' && s[d] == '.'
                &&& forall|j: int| d < j < s.len() ==> s[j] != '.' && s[j] != '-' && is_arch_char(s[j])
                &&& forall|j: int| h2 < j < d ==> s[j] != '-'
                &&& forall|j: int| h1 < j < h2 ==> s[j] != '-'
                &&& forall|j: int| 0 <= j < h1 ==> is_name_char(s[j])
                &&& d + 1 < s.len() && h2 + 1 < d && h1 + 1 < h2
            },
{
    let w = witness(s);
    lemma_positions(w.0, w.1, w.2, w.3, w.4);
    let h1 = w.0.len() as int;
    let h2 = h1 + 1 + epoch_text(w.1).len() + w.2.len();
    let d = h2 + 1 + w.3.len();
    assert(0 < h1 < h2 < d < s.len());
}

/// The fields that parsing cuts out of `s` at the positions it found obey
/// the grammar, give back `s`, and are the only such fields but for an
/// epoch that parsing takes where the alternative leaves it out.
#[verifier::rlimit(50)]
proof fn lemma_parse_result(s: Seq<char>, h1: int, h2: int, d: int, found: bool, c: int, take_epoch: bool)
    requires
        0 < h1 && h1 + 1 < h2 && h2 + 1 < d && d + 1 < s.len(),
        s[h1] == '-' && s[h2] == '-' && s[d] == '.',
        forall|j: int| d < j < s.len() ==> s[j] != '.',
        forall|j: int| d < j < s.len() ==> is_arch_char(s[j]),
        forall|j: int| h2 < j < d ==> s[j] != '-',
        forall|j: int| h1 < j < h2 ==> s[j] != '-',
        forall|j: int| 0 <= j < h1 ==> is_name_char(s[j]),
        found ==> h1 + 1 <= c < h2 && s[c] == ':' && forall|j: int| h1 + 1 <= j < c ==> s[j] != ':',
        !found ==> forall|j: int| h1 + 1 <= j < h2 ==> s[j] != ':',
        take_epoch == (found && c > h1 + 1 && c + 1 < h2 && forall|j: int| h1 + 1 <= j < c ==> is_digit(s[j])),
    ensures
        ({
            let name = s.subrange(0, h1);
            let epoch = if take_epoch { Some(s.subrange(h1 + 1, c)) } else { None };
            let version = if take_epoch { s.subrange(c + 1, h2) } else { s.subrange(h1 + 1, h2) };
            let release = s.subrange(h2 + 1, d);
            let arch = s.subrange(d + 1, s.len() as int);
            &&& valid_fields(name, epoch, version, release, arch)
            &&& nevra_text(name, epoch, version, release, arch) == s
            &&& arch == after_last(s, '.')
            &&& forall|name2: Seq<char>, epoch2: Option<Seq<char>>, version2: Seq<char>, release2: Seq<char>, arch2: Seq<char>|
                valid_fields(name2, epoch2, version2, release2, arch2) && #[trigger] nevra_text(
                    name2,
                    epoch2,
                    version2,
                    release2,
                    arch2,
                ) == s ==> {
                    &&& name2 == name
                    &&& release2 == release
                    &&& arch2 == arch
                    &&& (epoch2 == epoch && version2 == version) || (epoch2 is None && epoch is Some)
                }
        }),
{
    let lo = h1 + 1;
    let name = s.subrange(0, h1);
    let epoch = if take_epoch { Some(s.subrange(lo, c)) } else { None };
    let version = if take_epoch { s.subrange(c + 1, h2) } else { s.subrange(lo, h2) };
    let release = s.subrange(h2 + 1, d);
    let arch = s.subrange(d + 1, s.len() as int);
    let mid = s.subrange(lo, h2);
    assert(epoch_text(epoch) + version =~= mid) by {
        if take_epoch {
            assert(mid[c - lo] == ':');
        }
    }
    assert(nevra_text(name, epoch, version, release, arch) =~= s);
    lemma_after_last(s, '.', d);
    assert forall|name2: Seq<char>, epoch2: Option<Seq<char>>, version2: Seq<char>, release2: Seq<char>, arch2: Seq<char>|
        valid_fields(name2, epoch2, version2, release2, arch2) && #[trigger] nevra_text(
            name2,
            epoch2,
            version2,
            release2,
            arch2,
        ) == s implies {
            &&& name2 == name
            &&& release2 == release
            &&& arch2 == arch
            &&& (epoch2 == epoch && version2 == version) || (epoch2 is None && epoch is Some)
        } by {
        lemma_positions(name2, epoch2, version2, release2, arch2);
        let g1 = name2.len() as int;
        let g2 = g1 + 1 + epoch_text(epoch2).len() + version2.len();
        let gd = g2 + 1 + release2.len();
        assert(gd == d);
        assert(g2 == h2);
        assert(g1 == h1);
        match epoch2 {
            Some(e) => {
                assert(mid == e + seq![':'] + version2);
                let k = lo + e.len();
                assert(mid[e.len() as int] == ':');
                assert forall|j: int| lo <= j < k implies s[j] != ':' && is_digit(s[j]) by {
                    assert(s[j] == mid[j - lo]);
                    assert(mid[j - lo] == e[j - lo]);
                }
                assert(found);
                assert(c == k);
                assert(take_epoch);
                assert(s.subrange(lo, c) =~= e);
                assert(version =~= version2) by {
                    assert forall|j: int| 0 <= j < version2.len() implies version[j] == version2[j] by {
                        assert(mid[e.len() + 1 + j] == version2[j]);
                    }
                }
            },
            None => {
                if !take_epoch {
                    assert(version =~= version2);
                }
            },
        }
    }
}

impl Nevra {
    pub open spec fn epoch_view(&self) -> Option<Seq<char>> {
        match self.epoch {
            Some(e) => Some(e@),
            None => None,
        }
    }

    pub open spec fn wf(&self) -> bool {
        valid_fields(self.name@, self.epoch_view(), self.version@, self.release@, self.arch@)
    }

    pub open spec fn text(&self) -> Seq<char> {
        nevra_text(self.name@, self.epoch_view(), self.version@, self.release@, self.arch@)
    }

    /// This identifier is what parsing `s` gives: well-formed, with `s` as
    /// its text and the arch after the final `.`, and the only fields of
    /// that kind but where parsing takes an epoch that the other leaves out.
    pub open spec fn parsed_from(&self, s: Seq<char>) -> bool {
        &&& self.wf()
        &&& self.text() == s
        &&& self.arch@ == arch_of(s)
        &&& forall|name: Seq<char>, epoch: Option<Seq<char>>, version: Seq<char>, release: Seq<char>, arch: Seq<char>|
            valid_fields(name, epoch, version, release, arch) && #[trigger] nevra_text(
                name,
                epoch,
                version,
                release,
                arch,
            ) == s ==> {
                &&& name == self.name@
                &&& release == self.release@
                &&& arch == self.arch@
                &&& (epoch == self.epoch_view() && version == self.version@) || (epoch is None
                    && self.epoch is Some)
            }
    }

    /// Parses `name-[epoch:]version-release.arch`. The name takes all it can,
    /// so it may hold hyphens, and an epoch is taken wherever one can stand.
    pub fn from_str(s: &str) -> (r: Result<Nevra, ParseError>)
        ensures
            match r {
                Ok(n) => n.parsed_from(s@),
                Err(_) => !is_nevra(s@),
            },
    {
        let len = s.unicode_len();
        let d = match rfind_char(s, '.', len) {
            Some(d) => d,
            None => {
                proof {
                    if is_nevra(s@) {
                        lemma_pieces_of(s@);
                    }
                }
                return Err(ParseError);
            },
        };
        if !(d + 1 < len && arch_chars_between(s, d + 1, len)) {
            proof {
                if is_nevra(s@) {
                    lemma_pieces_of(s@);
                }
            }
            return Err(ParseError);
        }
        let h2 = match rfind_char(s, '-', d) {
            Some(h) => h,
            None => {
                proof {
                    if is_nevra(s@) {
                        lemma_pieces_of(s@);
                    }
                }
                return Err(ParseError);
            },
        };
        if !(h2 + 1 < d) {
            proof {
                if is_nevra(s@) {
                    lemma_pieces_of(s@);
                }
            }
            return Err(ParseError);
        }
        let h1 = match rfind_char(s, '-', h2) {
            Some(h) => h,
            None => {
                proof {
                    if is_nevra(s@) {
                        lemma_pieces_of(s@);
                    }
                }
                return Err(ParseError);
            },
        };
        if !(0 < h1 && h1 + 1 < h2 && name_chars_between(s, 0, h1)) {
            proof {
                if is_nevra(s@) {
                    lemma_pieces_of(s@);
                }
            }
            return Err(ParseError);
        }
        let lo = h1 + 1;
        let colon = find_char(s, ':', lo, h2);
        let take_epoch = match colon {
            Some(c) => c > lo && c + 1 < h2 && digits_between(s, lo, c),
            None => false,
        };
        let (epoch, version) = match colon {
            Some(c) if take_epoch => (Some(substring(s, lo, c)), substring(s, c + 1, h2)),
            _ => (None, substring(s, lo, h2)),
        };
        let n = Nevra {
            name: substring(s, 0, h1),
            epoch,
            version,
            release: substring(s, h2 + 1, d),
            arch: substring(s, d + 1, len),
        };
        proof {
            let c: int = match colon {
                Some(c) => c as int,
                None => 0,
            };
            lemma_parse_result(s@, h1 as int, h2 as int, d as int, colon is Some, c, take_epoch);
            assert(n.epoch_view() == (if take_epoch {
                Some(s@.subrange(lo as int, c))
            } else {
                None
            }));
        }
        Ok(n)
    }

    /// The canonical text of the identifier.
    pub fn to_string(&self) -> (r: String)
        ensures
            r@ == self.text(),
    {
        let mut r = self.name.clone();
        r.append("-");
        match &self.epoch {
            Some(e) => {
                r.append(e.as_str());
                r.append(":");
            },
            None => {},
        }
        r.append(self.version.as_str());
        r.append("-");
        r.append(self.release.as_str());
        r.append(".");
        r.append(self.arch.as_str());
        proof {
            reveal_strlit("-");
            reveal_strlit(":");
            reveal_strlit(".");
            assert(r@ =~= self.text());
        }
        r
    }
}

/// Every text written from well-formed fields is an identifier, so parsing
/// it succeeds; and what parsing gives writes out to that same text again,
/// with the same name, release and arch.
pub proof fn lemma_round_trip(
    name: Seq<char>,
    epoch: Option<Seq<char>>,
    version: Seq<char>,
    release: Seq<char>,
    arch: Seq<char>,
    n: Nevra,
)
    requires
        valid_fields(name, epoch, version, release, arch),
        n.parsed_from(nevra_text(name, epoch, version, release, arch)),
    ensures
        is_nevra(nevra_text(name, epoch, version, release, arch)),
        n.text() == nevra_text(name, epoch, version, release, arch),
        n.wf(),
        n.name@ == name && n.release@ == release && n.arch@ == arch,
{
}

/// The version text begins with an epoch: digits, a `:`, and more after it.
pub open spec fn starts_with_epoch(v: Seq<char>) -> bool {
    exists|k: int| 0 < k < v.len() - 1 && v[k] == ':' && #[trigger] all_digits(v.subrange(0, k))
}

/// Parsing a text that carries no epoch gives no epoch, and writing the
/// result out adds none: it gives back the text.
pub proof fn lemma_no_epoch_round_trip(
    name: Seq<char>,
    version: Seq<char>,
    release: Seq<char>,
    arch: Seq<char>,
    n: Nevra,
)
    requires
        valid_fields(name, None, version, release, arch),
        !starts_with_epoch(version),
        n.parsed_from(nevra_text(name, None, version, release, arch)),
    ensures
        n.epoch is None,
        n.version@ == version,
        n.text() == nevra_text(name, None, version, release, arch),
{
    let s = nevra_text(name, None, version, release, arch);
    assert(valid_fields(name, None, version, release, arch) && nevra_text(name, None, version, release, arch) == s);
    if n.epoch is Some {
        let e = n.epoch->Some_0@;
        lemma_positions(name, None, version, release, arch);
        lemma_positions(n.name@, n.epoch_view(), n.version@, n.release@, n.arch@);
        let h1 = name.len() as int;
        let h2 = h1 + 1 + version.len();
        assert(epoch_text(None) + version =~= version);
        assert(version == e + seq![':'] + n.version@);
        let k = e.len() as int;
        assert(version[k] == ':');
        assert(version.subrange(0, k) =~= e);
        assert(all_digits(version.subrange(0, k)));
    }
}

} // verus!
