//! The canonical request of an inventory and its content checksum.

use crate::nevra::{arch_of, is_nevra, Nevra};
use vstd::prelude::*;
use vstd::string::*;

verus! {

/// How serde_json writes one character inside a string literal: a quote or
/// a backslash behind a backslash, short escapes for backspace, tab, line
/// feed, form feed and carriage return, other control characters as `u00`
/// and two lowercase hex digits behind a backslash, and every other
/// character as it is.
pub open spec fn json_escape(c: char) -> Seq<char> {
    let v = c as u32;
    if c == '"' {
        seq!['\\', '"']
    } else if c == '\\' {
        seq!['\\', '\\']
    } else if v == 8 {
        seq!['\\', 'b']
    } else if v == 9 {
        seq!['\\', 't']
    } else if v == 10 {
        seq!['\\', 'n']
    } else if v == 12 {
        seq!['\\', 'f']
    } else if v == 13 {
        seq!['\\', 'r']
    } else if v < 32 {
        seq!['\\', 'u', '0', '0', hex_digit((v / 16) as u8), hex_digit((v % 16) as u8)]
    } else {
        seq![c]
    }
}

pub open spec fn json_escaped(s: Seq<char>) -> Seq<char>
    decreases s.len(),
{
    if s.len() == 0 {
        Seq::empty()
    } else {
        json_escaped(s.drop_last()) + json_escape(s.last())
    }
}

/// The JSON string literal of a text, as serde_json writes it.
pub open spec fn json_string_of(s: Seq<char>) -> Seq<char> {
    seq!['"'] + json_escaped(s) + seq!['"']
}

/// The SHA-256 digest of the UTF-8 encoding of a text.
pub uninterp spec fn sha256_of(s: Seq<char>) -> Seq<u8>;

/// Relies on serde_json::to_string on a `str`: the text in quotes, each
/// character escaped by serde_json's table. The writer is a `Vec<u8>`, so
/// the call does not fail.
#[verifier::external_body]
fn json_string(s: &str) -> (r: String)
    ensures
        r@ == json_string_of(s@),
{
    match serde_json::to_string(s) {
        Ok(t) => t,
        Err(_) => String::new(),
    }
}

/// Relies on sha2::Sha256::digest over the text's UTF-8 bytes: a 32-byte
/// digest that depends on the text alone.
#[verifier::external_body]
fn sha256(s: &str) -> (r: Vec<u8>)
    ensures
        r@ == sha256_of(s@),
        r@.len() == 32,
{
    <sha2::Sha256 as sha2::Digest>::digest(s.as_bytes()).to_vec()
}

pub open spec fn hex_digit(v: u8) -> char {
    seq!['0', '1', '2', '3', '4', '5', '6', '7', '8', '9', 'a', 'b', 'c', 'd', 'e', 'f'][v as int]
}

/// Two lowercase hex digits per byte, the high nibble first.
pub open spec fn hex_lower(b: Seq<u8>) -> Seq<char>
    decreases b.len(),
{
    if b.len() == 0 {
        Seq::empty()
    } else {
        hex_lower(b.drop_last()) + seq![hex_digit(b.last() / 16), hex_digit(b.last() % 16)]
    }
}

/// A hex digit is a decimal digit or a lowercase letter from `a` to `f`.
pub open spec fn is_lower_hex(c: char) -> bool {
    ('0' <= c && c <= '9') || ('a' <= c && c <= 'f')
}

proof fn lemma_hex_digit(v: u8)
    requires
        v < 16,
    ensures
        is_lower_hex(hex_digit(v)),
{
    let digits = seq!['0', '1', '2', '3', '4', '5', '6', '7', '8', '9', 'a', 'b', 'c', 'd', 'e', 'f'];
    assert forall|k: int| 0 <= k < 16 implies is_lower_hex(#[trigger] digits[k]) by {
        assert(digits[k] == hex_digit(k as u8));
    }
    assert(hex_digit(v) == digits[v as int]);
}

/// A checksum is written in lowercase hex digits alone.
pub proof fn lemma_checksum_lower_hex(b: Seq<u8>)
    ensures
        forall|i: int| 0 <= i < hex_lower(b).len() ==> is_lower_hex(#[trigger] hex_lower(b)[i]),
    decreases b.len(),
{
    if b.len() > 0 {
        lemma_checksum_lower_hex(b.drop_last());
        lemma_hex_digit(b.last() / 16);
        lemma_hex_digit(b.last() % 16);
        let rest = hex_lower(b.drop_last());
        assert forall|i: int| 0 <= i < hex_lower(b).len() implies is_lower_hex(#[trigger] hex_lower(b)[i]) by {
            if i < rest.len() {
                assert(hex_lower(b)[i] == rest[i]);
            }
        }
    }
}

/// Relies on hex::encode: each byte as two lowercase hex digits.
#[verifier::external_body]
fn hex_encode(b: &Vec<u8>) -> (r: String)
    ensures
        r@ == hex_lower(b@),
{
    hex::encode(b)
}

/// The checksum of a text: the lowercase hex of its SHA-256 digest.
pub open spec fn checksum_of(s: Seq<char>) -> Seq<char> {
    hex_lower(sha256_of(s))
}

/// Two hex digits per byte.
pub proof fn lemma_hex_len(b: Seq<u8>)
    ensures
        hex_lower(b).len() == 2 * b.len(),
    decreases b.len(),
{
    if b.len() > 0 {
        lemma_hex_len(b.drop_last());
    }
}

pub fn checksum(s: &str) -> (r: String)
    ensures
        r@ == checksum_of(s@),
        r@.len() == 64,
{
    let digest = sha256(s);
    proof {
        lemma_hex_len(digest@);
    }
    hex_encode(&digest)
}

pub open spec fn views(v: Seq<String>) -> Seq<Seq<char>> {
    v.map_values(|s: String| s@)
}

/// The JSON string literals of the items, separated by commas.
pub open spec fn json_items(items: Seq<Seq<char>>) -> Seq<char>
    decreases items.len(),
{
    if items.len() == 0 {
        Seq::empty()
    } else if items.len() == 1 {
        json_string_of(items[0])
    } else {
        json_items(items.drop_last()) + seq![','] + json_string_of(items.last())
    }
}

pub open spec fn list_key() -> Seq<char> {
    seq!['p', 'a', 'c', 'k', 'a', 'g', 'e', '_', 'l', 'i', 's', 't']
}

/// The compact JSON object `{"package_list":[...]}` holding the items in order.
pub open spec fn request_of(items: Seq<Seq<char>>) -> Seq<char> {
    seq!['{'] + json_string_of(list_key()) + seq![':', '['] + json_items(items) + seq![']', '}']
}

/// The serialized package list, in the order given.
pub fn canonical_request(items: &Vec<String>) -> (r: String)
    ensures
        r@ == request_of(views(items@)),
{
    let ghost all = views(items@);
    let mut body = String::new();
    let mut i: usize = 0;
    while i < items.len()
        invariant
            i <= items@.len(),
            all == views(items@),
            body@ == json_items(all.take(i as int)),
        decreases items.len() - i,
    {
        let quoted = json_string(items[i].as_str());
        proof {
            reveal_strlit(",");
            assert(all.take(i + 1).drop_last() =~= all.take(i as int));
        }
        if i > 0 {
            body.append(",");
        }
        body.append(quoted.as_str());
        i = i + 1;
    }
    let mut r = String::new();
    r.append("{");
    r.append(json_string("package_list").as_str());
    r.append(":[");
    r.append(body.as_str());
    r.append("]}");
    proof {
        reveal_strlit("{");
        reveal_strlit("package_list");
        reveal_strlit(":[");
        reveal_strlit("]}");
        assert("package_list"@ =~= list_key());
        assert(all.take(items@.len() as int) =~= all);
        assert(r@ =~= request_of(all));
    }
    r
}

/// The packages whose arch is `arch`, in their order.
pub open spec fn kept(arch: Seq<char>, pkgs: Seq<Seq<char>>) -> Seq<Seq<char>>
    decreases pkgs.len(),
{
    if pkgs.len() == 0 {
        Seq::empty()
    } else {
        let rest = kept(arch, pkgs.drop_last());
        if arch_of(pkgs.last()) == arch {
            rest.push(pkgs.last())
        } else {
            rest
        }
    }
}

/// The canonical request of an inventory and its checksum.
pub open spec fn canonical_of(arch: Seq<char>, pkgs: Seq<Seq<char>>) -> (Seq<char>, Seq<char>) {
    let req = request_of(kept(arch, pkgs));
    (req, checksum_of(req))
}

/// A package identifier that does not parse, by its position in the list.
#[derive(Debug, Clone, PartialEq, Eq)]
pub struct InvalidPackage {
    pub index: usize,
}

/// Parses every package, keeps those built for `arch` and returns their
/// canonical request with its checksum. One identifier that does not parse
/// fails the whole list; the first such one is reported.
pub fn canonicalize(arch: &str, packages: &Vec<String>) -> (r: Result<(String, String), InvalidPackage>)
    ensures
        match r {
            Ok((req, sum)) => {
                &&& forall|i: int| 0 <= i < packages@.len() ==> is_nevra(#[trigger] packages@[i]@)
                &&& (req@, sum@) == canonical_of(arch@, views(packages@))
                &&& sum@.len() == 64
            },
            Err(e) => {
                &&& e.index < packages@.len()
                &&& !is_nevra(packages@[e.index as int]@)
                &&& forall|i: int| 0 <= i < e.index ==> is_nevra(#[trigger] packages@[i]@)
            },
        },
{
    let ghost all = views(packages@);
    let host_arch = arch.to_owned();
    let mut retained: Vec<String> = Vec::new();
    let mut i: usize = 0;
    while i < packages.len()
        invariant
            i <= packages@.len(),
            all == views(packages@),
            host_arch@ == arch@,
            views(retained@) == kept(arch@, all.take(i as int)),
            forall|k: int| 0 <= k < i ==> is_nevra(#[trigger] packages@[k]@),
        decreases packages.len() - i,
    {
        let n = match Nevra::from_str(packages[i].as_str()) {
            Ok(n) => n,
            Err(_) => {
                return Err(InvalidPackage { index: i });
            },
        };
        proof {
            assert(all.take(i + 1).drop_last() =~= all.take(i as int));
            assert(all.take(i + 1).last() == packages@[i as int]@);
            assert(n.parsed_from(packages@[i as int]@));
        }
        if n.arch == host_arch {
            retained.push(packages[i].clone());
            proof {
                assert(views(retained@) =~= kept(arch@, all.take(i as int)).push(packages@[i as int]@));
            }
        }
        i = i + 1;
    }
    proof {
        assert(all.take(packages@.len() as int) =~= all);
    }
    let req = canonical_request(&retained);
    let sum = checksum(req.as_str());
    Ok((req, sum))
}

/// Canonicalization depends on the host's arch and the package list alone:
/// the same pair always gives the same request and the same checksum.
pub proof fn lemma_canonical_deterministic(
    arch1: Seq<char>,
    pkgs1: Seq<Seq<char>>,
    arch2: Seq<char>,
    pkgs2: Seq<Seq<char>>,
)
    requires
        arch1 == arch2,
        pkgs1 == pkgs2,
    ensures
        canonical_of(arch1, pkgs1) == canonical_of(arch2, pkgs2),
        canonical_of(arch1, pkgs1).1 == checksum_of(canonical_of(arch1, pkgs1).0),
{
}

/// Every package that is kept is built for the host's arch.
pub proof fn lemma_kept_match_arch(arch: Seq<char>, pkgs: Seq<Seq<char>>)
    ensures
        forall|k: int| 0 <= k < kept(arch, pkgs).len() ==> arch_of(#[trigger] kept(arch, pkgs)[k]) == arch,
    decreases pkgs.len(),
{
    if pkgs.len() > 0 {
        lemma_kept_match_arch(arch, pkgs.drop_last());
        let rest = kept(arch, pkgs.drop_last());
        assert forall|k: int| 0 <= k < kept(arch, pkgs).len() implies arch_of(
            #[trigger] kept(arch, pkgs)[k],
        ) == arch by {
            if k < rest.len() {
                assert(kept(arch, pkgs)[k] == rest[k]);
            }
        }
    }
}

/// A package built for another arch than the host's is left out of the
/// canonical request: taking it out of the list changes neither the request
/// nor the checksum.
pub proof fn lemma_foreign_arch_ignored(arch: Seq<char>, pkgs: Seq<Seq<char>>, i: int)
    requires
        0 <= i < pkgs.len(),
        arch_of(pkgs[i]) != arch,
    ensures
        kept(arch, pkgs) == kept(arch, pkgs.remove(i)),
        canonical_of(arch, pkgs) == canonical_of(arch, pkgs.remove(i)),
        forall|k: int| 0 <= k < kept(arch, pkgs).len() ==> arch_of(#[trigger] kept(arch, pkgs)[k]) == arch,
    decreases pkgs.len(),
{
    lemma_kept_match_arch(arch, pkgs);
    if i == pkgs.len() - 1 {
        assert(pkgs.remove(i) =~= pkgs.drop_last());
    } else {
        assert(pkgs.remove(i).drop_last() =~= pkgs.drop_last().remove(i));
        assert(pkgs.remove(i).last() == pkgs.last());
        lemma_foreign_arch_ignored(arch, pkgs.drop_last(), i);
    }
}

/// The list after inserting each `(position, package)` in turn; a position
/// outside the list stands for its nearer end.
pub open spec fn with_inserted(pkgs: Seq<Seq<char>>, ins: Seq<(int, Seq<char>)>) -> Seq<Seq<char>>
    decreases ins.len(),
{
    if ins.len() == 0 {
        pkgs
    } else {
        let prev = with_inserted(pkgs, ins.drop_last());
        let i = ins.last().0;
        let at = if i < 0 {
            0
        } else if i > prev.len() {
            prev.len() as int
        } else {
            i
        };
        prev.insert(at, ins.last().1)
    }
}

/// Packages of other archs than the host's, inserted anywhere in the list
/// and in any number, change neither the canonical request nor the checksum.
pub proof fn lemma_foreign_archs_ignored(arch: Seq<char>, pkgs: Seq<Seq<char>>, ins: Seq<(int, Seq<char>)>)
    requires
        forall|k: int| 0 <= k < ins.len() ==> arch_of(#[trigger] ins[k].1) != arch,
    ensures
        kept(arch, with_inserted(pkgs, ins)) == kept(arch, pkgs),
        canonical_of(arch, with_inserted(pkgs, ins)) == canonical_of(arch, pkgs),
    decreases ins.len(),
{
    if ins.len() > 0 {
        let prev = with_inserted(pkgs, ins.drop_last());
        lemma_foreign_archs_ignored(arch, pkgs, ins.drop_last());
        let i = ins.last().0;
        let at = if i < 0 {
            0
        } else if i > prev.len() {
            prev.len() as int
        } else {
            i
        };
        let next = prev.insert(at, ins.last().1);
        assert(ins[ins.len() - 1] == ins.last());
        assert(next.remove(at) =~= prev);
        lemma_foreign_arch_ignored(arch, next, at);
    }
}

} // verus!
